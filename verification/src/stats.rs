//! The figures that are read from a machine, and what is common to all platforms.
use vstd::prelude::*;
use vstd::seq_lib::{
    lemma_multiset_commutative, to_multiset_build, to_multiset_contains, to_multiset_insert,
};
use vstd::utf8::{decode_utf8, valid_utf8};

use crate::binary::Double;
use crate::lossy;
use crate::lossy::decode_lossy;
use crate::number;
use crate::number::parse_number_or;
use crate::single::Single;
use crate::text;
use crate::text::{
    beyond, chars, join, joined, lines, seqs, split_lines, split_words, string, views, words,
};

verus! {

/// The memory of a machine, in kilobytes.
#[derive(Clone, Copy, Debug, PartialEq, Eq, Structural)]
pub struct MemStats {
    pub total_kb: u64,
    pub available_kb: u64,
    pub used_kb: u64,
    /// The used share of the total, in percent.
    pub used_percent: Double,
}

/// The load of the processor, in percent: over all, and of each core.
#[derive(Debug)]
pub struct CpuStats {
    pub usage_percent: Single,
    pub cores: Vec<Single>,
}

impl CpuStats {
    /// Whether all shares are values of single precision.
    pub open spec fn wf(self) -> bool {
        &&& self.usage_percent.wf()
        &&& forall|i: int| 0 <= i < self.cores@.len() ==> (#[trigger] self.cores@[i]).wf()
    }
}

/// Why figures could not be read.
#[derive(Clone, Copy, Debug, PartialEq, Eq, Structural)]
pub enum StatsError {
    /// The processor's report has no line.
    EmptyCpuReport,
    /// The first line of the processor's report has too few fields.
    BadCpuReport,
    /// The memory size is no number.
    BadMemorySize,
    /// The report on storage failed.
    StorageReportFailed,
    /// The report on storage has no line with enough fields.
    BadStorageReport,
    /// The report on processes failed.
    ProcessReportFailed,
}

impl StatsError {
    /// The error in words.
    pub open spec fn words(self) -> Seq<char> {
        match self {
            StatsError::EmptyCpuReport => "Empty /proc/stat"@,
            StatsError::BadCpuReport => "Failed to parse /proc/stat"@,
            StatsError::BadMemorySize => "Failed to parse hw.memsize"@,
            StatsError::StorageReportFailed => "df command failed"@,
            StatsError::BadStorageReport => "Unable to parse df output"@,
            StatsError::ProcessReportFailed => "ps command failed"@,
        }
    }

    /// Puts the error in words.
    pub fn message(self) -> (r: String)
        ensures
            r@ == self.words(),
    {
        let words = match self {
            StatsError::EmptyCpuReport => "Empty /proc/stat",
            StatsError::BadCpuReport => "Failed to parse /proc/stat",
            StatsError::BadMemorySize => "Failed to parse hw.memsize",
            StatsError::StorageReportFailed => "df command failed",
            StatsError::BadStorageReport => "Unable to parse df output",
            StatsError::ProcessReportFailed => "ps command failed",
        };
        words.to_owned()
    }
}

/// The total and the available kilobytes that a line of the report on storage gives: its
/// second and its fourth word.
pub open spec fn storage_line(line: Seq<char>) -> Option<(u64, u64)> {
    let w = words(line);
    if w.len() >= 4 {
        Some((number::number_or(w[1], 0), number::number_or(w[3], 0)))
    } else {
        None
    }
}

/// What the first of the lines with enough words gives.
pub open spec fn storage_lines(ls: Seq<Seq<char>>) -> Option<(u64, u64)>
    decreases ls.len(),
{
    if ls.len() == 0 {
        None
    } else if storage_line(ls[0]) is Some {
        storage_line(ls[0])
    } else {
        storage_lines(ls.skip(1))
    }
}

/// The total and the available storage, in kilobytes, that the text of a report gives. Its
/// first line is a heading.
pub open spec fn storage(report: Seq<char>) -> Result<(u64, u64), StatsError> {
    match storage_lines(beyond(lines(report), 1)) {
        Some(found) => Ok(found),
        None => Err(StatsError::BadStorageReport),
    }
}

/// Reads the total and the available storage, in kilobytes, from the text of a report.
pub fn storage_from_report(report: &str) -> (r: Result<(u64, u64), StatsError>)
    ensures
        r == storage(report@),
{
    let all = split_lines(&chars(report));
    let ghost ls = lines(report@);
    assert(all@.len() == ls.len());
    if all.len() == 0 {
        return Err(StatsError::BadStorageReport);
    }
    let mut i: usize = 1;
    while i < all.len()
        invariant
            1 <= i <= ls.len(),
            seqs(all@) == ls,
            ls == lines(report@),
            storage_lines(ls.skip(1)) == storage_lines(ls.skip(i as int)),
        decreases all@.len() - i,
    {
        let w = split_words(&all[i]);
        let ghost rest = ls.skip(i as int);
        assert(seqs(all@)[i as int] == all@[i as int]@);
        assert(rest[0] == ls[i as int]);
        if w.len() >= 4 {
            assert(seqs(w@)[1] == w@[1]@);
            assert(seqs(w@)[3] == w@[3]@);
            return Ok((parse_number_or(&w[1], 0), parse_number_or(&w[3], 0)));
        }
        assert(seqs(w@).len() == w@.len());
        i = i + 1;
        assert(rest.skip(1) =~= ls.skip(i as int));
    }
    Err(StatsError::BadStorageReport)
}

/// The total and the available storage, in kilobytes, that a report gives: whether the
/// command that printed it succeeded, and the bytes that it printed.
pub open spec fn storage_report(success: bool, stdout: Seq<u8>) -> Result<(u64, u64), StatsError> {
    if success {
        storage(lossy::lossy_text(stdout))
    } else {
        Err(StatsError::StorageReportFailed)
    }
}

/// Reads the total and the available storage, in kilobytes, from a report.
pub fn get_storage_stats(success: bool, stdout: &[u8]) -> (r: Result<(u64, u64), StatsError>)
    ensures
        r == storage_report(success, stdout@),
        success && valid_utf8(stdout@) ==> r == storage(decode_utf8(stdout@)),
{
    if !success {
        return Err(StatsError::StorageReportFailed);
    }
    let report = decode_lossy(stdout);
    storage_from_report(report.as_str())
}

/// The command of a process: the words of its line behind the tenth, with single spaces.
pub open spec fn command(w: Seq<Seq<char>>) -> Seq<char> {
    join(beyond(w, 10), " "@)
}

/// The command and the resident kilobytes that a line of the report on processes gives, if
/// it has enough words.
pub open spec fn process_line(line: Seq<char>) -> Option<(Seq<char>, u64)> {
    let w = words(line);
    if w.len() >= 6 {
        Some((command(w), number::number_or(w[5], 0)))
    } else {
        None
    }
}

/// What the lines with enough words give, in order.
pub open spec fn process_lines(ls: Seq<Seq<char>>) -> Seq<(Seq<char>, u64)>
    decreases ls.len(),
{
    if ls.len() == 0 {
        Seq::empty()
    } else {
        match process_line(ls.last()) {
            Some(found) => process_lines(ls.drop_last()).push(found),
            None => process_lines(ls.drop_last()),
        }
    }
}

/// All the processes that a report lists behind its heading, in order.
pub open spec fn listed_processes(report: Seq<char>) -> Seq<(Seq<char>, u64)> {
    process_lines(beyond(lines(report), 1))
}

/// How many processes at the start of a list have `rss` kilobytes or more, up to the first
/// that has less.
pub open spec fn rank(list: Seq<(Seq<char>, u64)>, rss: u64) -> nat
    decreases list.len(),
{
    if list.len() > 0 && list[0].1 >= rss {
        1 + rank(list.skip(1), rss)
    } else {
        0
    }
}

/// The processes by their memory, from the greatest to the least. Those with equal memory
/// keep their order.
pub open spec fn ranked(list: Seq<(Seq<char>, u64)>) -> Seq<(Seq<char>, u64)>
    decreases list.len(),
{
    if list.len() == 0 {
        Seq::empty()
    } else {
        let before = ranked(list.drop_last());
        before.insert(rank(before, list.last().1) as int, list.last())
    }
}

/// The first `n` of a list, or all where there are no more.
pub open spec fn first_rows(list: Seq<(Seq<char>, u64)>, n: nat) -> Seq<(Seq<char>, u64)> {
    if n <= list.len() {
        list.take(n as int)
    } else {
        list
    }
}

/// The commands and the resident kilobytes of the `n` processes of a report that have the most
/// memory.
pub open spec fn top_processes(n: u8, report: Seq<char>) -> Seq<(Seq<char>, u64)> {
    first_rows(ranked(listed_processes(report)), n as nat)
}

/// Whether the processes of a list go from the greatest memory to the least.
pub open spec fn is_falling(list: Seq<(Seq<char>, u64)>) -> bool {
    forall|i: int, j: int|
        0 <= i <= j < list.len() ==> (#[trigger] list[i]).1 >= (#[trigger] list[j]).1
}

/// Whether `top` are `n` of `all`, or all where there are no more, from the greatest memory to
/// the least, and none that is left out has more memory than one of them.
pub open spec fn is_top(n: u8, all: Seq<(Seq<char>, u64)>, top: Seq<(Seq<char>, u64)>) -> bool {
    let left_out = all.to_multiset().sub(top.to_multiset());
    &&& top.len() == if n <= all.len() {
        n as nat
    } else {
        all.len()
    }
    &&& top.to_multiset().subset_of(all.to_multiset())
    &&& is_falling(top)
    &&& forall|row: (Seq<char>, u64), i: int|
        #![trigger left_out.count(row), top[i]]
        left_out.count(row) > 0 && 0 <= i < top.len() ==> row.1 <= top[i].1
}

/// The rank of a process is pinned down by those before it and by the one behind it.
proof fn lemma_rank_is(list: Seq<(Seq<char>, u64)>, rss: u64, n: nat)
    requires
        n <= list.len(),
        forall|i: int| 0 <= i < n ==> (#[trigger] list[i]).1 >= rss,
        n < list.len() ==> list[n as int].1 < rss,
    ensures
        rank(list, rss) == n,
    decreases n,
{
    if n > 0 {
        let rest = list.skip(1);
        assert(list[0].1 >= rss);
        assert forall|i: int| 0 <= i < n - 1 implies (#[trigger] rest[i]).1 >= rss by {
            assert(rest[i] == list[i + 1]);
        }
        lemma_rank_is(rest, rss, (n - 1) as nat);
    }
}

/// The processes before a rank have as much memory at least, and the one behind it has less.
pub proof fn lemma_rank(list: Seq<(Seq<char>, u64)>, rss: u64)
    ensures
        rank(list, rss) <= list.len(),
        forall|i: int| 0 <= i < rank(list, rss) ==> (#[trigger] list[i]).1 >= rss,
        rank(list, rss) < list.len() ==> list[rank(list, rss) as int].1 < rss,
    decreases list.len(),
{
    if list.len() > 0 && list[0].1 >= rss {
        let rest = list.skip(1);
        lemma_rank(rest, rss);
        assert forall|i: int| 0 <= i < rank(list, rss) implies (#[trigger] list[i]).1 >= rss by {
            if i > 0 {
                assert(list[i] == rest[i - 1]);
            }
        }
    }
}

/// Ranking keeps all processes, and orders them.
pub proof fn lemma_ranked(list: Seq<(Seq<char>, u64)>)
    ensures
        ranked(list).len() == list.len(),
        ranked(list).to_multiset() == list.to_multiset(),
        is_falling(ranked(list)),
    decreases list.len(),
{
    if list.len() == 0 {
        assert(ranked(list) =~= list);
    } else {
        let front = list.drop_last();
        let row = list.last();
        let before = ranked(front);
        let k = rank(before, row.1) as int;
        let now = before.insert(k, row);
        lemma_ranked(front);
        lemma_rank(before, row.1);
        to_multiset_insert(before, k, row);
        to_multiset_build(front, row);
        assert(front.push(row) =~= list);
        assert forall|i: int, j: int| 0 <= i <= j < now.len() implies (#[trigger] now[i]).1 >= (
        #[trigger] now[j]).1 by {
            assert(i < k ==> now[i] == before[i]);
            assert(i > k ==> now[i] == before[i - 1]);
            assert(j < k ==> now[j] == before[j]);
            assert(j > k ==> now[j] == before[j - 1] && before[k].1 >= before[j - 1].1);
        }
    }
}

/// The processes that are listed are the ones with the most memory.
pub proof fn law_top_are_greatest(n: u8, report: Seq<char>)
    ensures
        is_top(n, listed_processes(report), top_processes(n, report)),
{
    let all = listed_processes(report);
    let full = ranked(all);
    let top = top_processes(n, report);
    lemma_ranked(all);
    let rest = full.skip(top.len() as int);
    let left_out = all.to_multiset().sub(top.to_multiset());
    assert(top + rest =~= full);
    lemma_multiset_commutative(top, rest);
    assert(left_out =~= rest.to_multiset());
    assert forall|row: (Seq<char>, u64), i: int|
        #![trigger left_out.count(row), top[i]]
        left_out.count(row) > 0 && 0 <= i < top.len() implies row.1 <= top[i].1 by {
        to_multiset_contains(rest, row);
        let j = choose|j: int| 0 <= j < rest.len() && rest[j] == row;
        assert(full[i] == top[i]);
        assert(full[top.len() + j] == row);
    }
    assert forall|i: int, j: int| 0 <= i <= j < top.len() implies (#[trigger] top[i]).1 >= (
    #[trigger] top[j]).1 by {
        assert(full[i] == top[i] && full[j] == top[j]);
    }
}

/// The contents of a list of commands and resident kilobytes.
pub open spec fn rows(v: Seq<(String, u64)>) -> Seq<(Seq<char>, u64)> {
    v.map_values(|row: (String, u64)| (row.0@, row.1))
}

/// Puts the words behind the tenth together.
fn command_of(w: &Vec<Vec<char>>) -> (r: String)
    ensures
        r@ == command(seqs(w@)),
{
    let mut parts: Vec<String> = Vec::new();
    let ghost all = seqs(w@);
    if w.len() > 10 {
        for i in 10..w.len()
            invariant
                10 <= i <= w@.len(),
                all == seqs(w@),
                views(parts@) == all.subrange(10, i as int),
        {
            let part = string(&w[i]);
            let ghost before = parts@;
            parts.push(part);
            assert(views(parts@) =~= views(before).push(part@));
            assert(all[i as int] == w@[i as int]@);
            assert(all.subrange(10, i + 1) =~= all.subrange(10, i as int).push(all[i as int]));
        }
        assert(all.subrange(10, w@.len() as int) =~= all.skip(10));
    } else {
        assert(views(parts@) =~= beyond(all, 10));
    }
    joined(&parts, " ")
}

/// Puts a process in its place in a list that is ranked.
fn place_row(list: &mut Vec<(String, u64)>, row: (String, u64))
    ensures
        rows(final(list)@) == rows(old(list)@).insert(
            rank(rows(old(list)@), row.1) as int,
            (row.0@, row.1),
        ),
{
    let ghost before = rows(list@);
    let ghost shown = (row.0@, row.1);
    let mut k: usize = 0;
    while k < list.len() && list[k].1 >= row.1
        invariant
            k <= list@.len(),
            before == rows(list@),
            list@ == old(list)@,
            forall|i: int| 0 <= i < k ==> (#[trigger] before[i]).1 >= row.1,
        decreases list@.len() - k,
    {
        assert(before[k as int].1 == list@[k as int].1);
        k = k + 1;
    }
    proof {
        if k < list@.len() {
            assert(before[k as int].1 == list@[k as int].1);
        }
        lemma_rank_is(before, row.1, k as nat);
    }
    list.insert(k, row);
    assert(rows(list@) =~= before.insert(k as int, shown));
}

/// Reads the commands and the resident kilobytes of the `n` processes with the most memory
/// from the text of a report.
pub fn top_from_report(n: u8, report: &str) -> (r: Vec<(String, u64)>)
    ensures
        rows(r@) == top_processes(n, report@),
        is_top(n, listed_processes(report@), rows(r@)),
{
    let all = split_lines(&chars(report));
    let ghost ls = lines(report@);
    let ghost tail = beyond(ls, 1);
    assert(all@.len() == ls.len());
    let start: usize = if all.len() > 0 { 1 } else { 0 };
    let mut r: Vec<(String, u64)> = Vec::new();
    assert(tail =~= ls.skip(start as int));
    assert(rows(r@) =~= ranked(process_lines(tail.take(0))));
    for i in start..all.len()
        invariant
            start <= i <= all@.len(),
            seqs(all@) == ls,
            tail == ls.skip(start as int),
            rows(r@) == ranked(process_lines(tail.take(i - start))),
    {
        let w = split_words(&all[i]);
        let ghost now = tail.take(i - start + 1);
        assert(seqs(all@)[i as int] == all@[i as int]@);
        assert(now.last() == all@[i as int]@);
        assert(now.drop_last() =~= tail.take(i - start));
        assert(seqs(w@).len() == w@.len());
        if w.len() >= 6 {
            assert(seqs(w@)[5] == w@[5]@);
            let row = (command_of(&w), parse_number_or(&w[5], 0));
            let ghost shown = (row.0@, row.1);
            place_row(&mut r, row);
            assert(process_lines(now).drop_last() =~= process_lines(now.drop_last()));
            assert(process_lines(now).last() == shown);
        }
    }
    assert(tail.take(tail.len() as int) =~= tail);
    let ghost full = r@;
    r.truncate(n as usize);
    assert(rows(r@) =~= first_rows(rows(full), n as nat));
    proof {
        law_top_are_greatest(n, report@);
    }
    r
}

/// What a report on processes gives: whether the command that printed it succeeded, and the
/// bytes that it printed.
pub open spec fn process_report(n: u8, success: bool, stdout: Seq<u8>) -> Result<
    Seq<(Seq<char>, u64)>,
    StatsError,
> {
    if success {
        Ok(top_processes(n, lossy::lossy_text(stdout)))
    } else {
        Err(StatsError::ProcessReportFailed)
    }
}

/// Reads the commands and the resident kilobytes of the `n` processes with the most memory
/// from a report.
pub fn get_top_processes(n: u8, success: bool, stdout: &[u8]) -> (r: Result<
    Vec<(String, u64)>,
    StatsError,
>)
    ensures
        match r {
            Ok(found) => process_report(n, success, stdout@) == Ok::<_, StatsError>(rows(found@)),
            Err(e) => process_report(n, success, stdout@) == Err::<Seq<(Seq<char>, u64)>, _>(e),
        },
        r matches Ok(found) ==> is_top(
            n,
            listed_processes(lossy::lossy_text(stdout@)),
            rows(found@),
        ),
        success && valid_utf8(stdout@) ==> r is Ok && rows(r->Ok_0@) == top_processes(
            n,
            decode_utf8(stdout@),
        ) && is_top(n, listed_processes(decode_utf8(stdout@)), rows(r->Ok_0@)),
{
    if !success {
        return Err(StatsError::ProcessReportFailed);
    }
    let report = decode_lossy(stdout);
    Ok(top_from_report(n, report.as_str()))
}

/// The words of a process's command are the words of its line behind the tenth.
pub proof fn law_command_words(line: Seq<char>)
    ensures
        words(command(words(line))) == beyond(words(line), 10),
{
    let w = words(line);
    let tail = beyond(w, 10);
    text::law_words_are_words(line);
    assert forall|i: int| 0 <= i < tail.len() implies text::is_word(#[trigger] tail[i]) by {
        assert(tail[i] == w[i + 10]);
    }
    text::law_words_of_joined(tail);
}

} // verus!
