//! What the reports on storage and on processes give, in terms of their lines.
use vstd::prelude::*;
use vstd::seq_lib::{lemma_multiset_commutative, to_multiset_contains};

use crate::lossy::lossy_text;
use crate::macos::battery_view;
use crate::number::{decimal, number};
use crate::stats::{
    lemma_ranked, listed_processes, process_line, process_lines, process_report, rank, ranked, rows,
    storage, storage_lines, storage_report, top_processes, StatsError,
};
use crate::text::{beyond, is_word, join, law_words_of_joined, lines, seqs, views, words};

verus! {

/// What reading a word as a number gives: the number that it writes, or zero.
pub open spec fn reads_as(w: Seq<char>, n: u64) -> bool {
    number(w) == Some(n) || (number(w) is None && n == 0)
}

/// Lines of fewer than four words before a line do not change what is found in it.
proof fn lemma_short_storage_lines(short: Seq<Seq<char>>, rest: Seq<Seq<char>>)
    requires
        forall|i: int| 0 <= i < short.len() ==> words(#[trigger] short[i]).len() < 4,
    ensures
        storage_lines(short + rest) == storage_lines(rest),
    decreases short.len(),
{
    if short.len() == 0 {
        assert(short + rest =~= rest);
    } else {
        let s = short.skip(1);
        assert forall|i: int| 0 <= i < s.len() implies words(#[trigger] s[i]).len() < 4 by {
            assert(s[i] == short[i + 1]);
        }
        lemma_short_storage_lines(s, rest);
        assert((short + rest).skip(1) =~= s + rest);
        assert((short + rest)[0] == short[0]);
    }
}

/// The first line behind the heading with four words or more, however many, gives the total
/// storage by its second word and the available by its fourth. What stands behind it does not
/// count, nor do shorter lines before it.
pub proof fn law_storage_given(
    report: Seq<char>,
    heading: Seq<char>,
    short: Seq<Seq<char>>,
    line: Seq<char>,
    behind: Seq<Seq<char>>,
    total: u64,
    available: u64,
)
    requires
        lines(report) == seq![heading] + short + seq![line] + behind,
        forall|i: int| 0 <= i < short.len() ==> words(#[trigger] short[i]).len() < 4,
        words(line).len() >= 4,
        reads_as(words(line)[1], total),
        reads_as(words(line)[3], available),
    ensures
        storage(report) == Ok::<(u64, u64), StatsError>((total, available)),
{
    let rest = seq![line] + behind;
    assert(lines(report).skip(1) =~= short + rest);
    lemma_short_storage_lines(short, rest);
    assert(rest[0] == line);
}

/// A report without a line of four words behind its heading gives no storage, nor does one of a
/// command that failed, whatever it printed.
pub proof fn law_storage_missing(report: Seq<char>, stdout: Seq<u8>)
    requires
        forall|i: int|
            1 <= i < lines(report).len() ==> words(#[trigger] lines(report)[i]).len() < 4,
    ensures
        storage(report) == Err::<(u64, u64), _>(StatsError::BadStorageReport),
        storage_report(false, stdout) == Err::<(u64, u64), _>(StatsError::StorageReportFailed),
        storage_report(true, stdout) == storage(lossy_text(stdout)),
{
    let ls = beyond(lines(report), 1);
    let none = Seq::<Seq<char>>::empty();
    assert forall|i: int| 0 <= i < ls.len() implies words(#[trigger] ls[i]).len() < 4 by {
        assert(ls[i] == lines(report)[i + 1]);
    }
    lemma_short_storage_lines(ls, none);
    assert(ls + none =~= ls);
}

/// A line made of ten words, of which the sixth writes a number, and of a command of one word or
/// more, however many, gives that command and that number.
pub proof fn law_process_of_line(ten: Seq<Seq<char>>, command: Seq<Seq<char>>, rss: u64)
    requires
        ten.len() == 10,
        command.len() > 0,
        forall|i: int| 0 <= i < ten.len() ==> is_word(#[trigger] ten[i]),
        forall|i: int| 0 <= i < command.len() ==> is_word(#[trigger] command[i]),
        reads_as(ten[5], rss),
    ensures
        process_line(join(ten + command, " "@)) == Some((join(command, " "@), rss)),
{
    let w = ten + command;
    assert forall|i: int| 0 <= i < w.len() implies is_word(#[trigger] w[i]) by {
        if i < 10 {
            assert(w[i] == ten[i]);
        } else {
            assert(w[i] == command[i - 10]);
        }
    }
    law_words_of_joined(w);
    assert(w.skip(10) =~= command);
    assert(w[5] == ten[5]);
}

/// A line of six words or more gives the number of its sixth word, and a command that is empty
/// up to ten words; a line of fewer words gives no process.
pub proof fn law_process_by_words(line: Seq<char>, rss: u64)
    ensures
        words(line).len() >= 6 && reads_as(words(line)[5], rss) ==> process_line(line) is Some && (
        process_line(line)->0).1 == rss,
        6 <= words(line).len() <= 10 ==> (process_line(line)->0).0 == Seq::<char>::empty(),
        words(line).len() < 6 ==> process_line(line) is None,
{
    let w = words(line);
    if 6 <= w.len() <= 10 {
        assert(beyond(w, 10).len() == 0);
    }
}

/// The processes of some lines and then others are those of the ones and then those of the
/// others.
pub proof fn law_processes_add(a: Seq<Seq<char>>, b: Seq<Seq<char>>)
    ensures
        process_lines(a + b) == process_lines(a) + process_lines(b),
    decreases b.len(),
{
    if b.len() == 0 {
        assert(a + b =~= a);
        assert(process_lines(a) + process_lines(b) =~= process_lines(a));
    } else {
        law_processes_add(a, b.drop_last());
        assert((a + b).drop_last() =~= a + b.drop_last());
        assert((a + b).last() == b.last());
        assert(process_lines(a + b) =~= process_lines(a) + process_lines(b));
    }
}

/// Each line behind the heading with six words or more gives one process, and no other line gives
/// any.
pub proof fn law_every_process_is_listed(report: Seq<char>, heading: Seq<char>, ls: Seq<Seq<char>>)
    requires
        lines(report) == seq![heading] + ls,
    ensures
        listed_processes(report).len() == ls.filter(
            |line: Seq<char>| words(line).len() >= 6,
        ).len(),
        listed_processes(report) == process_lines(ls),
{
    assert(lines(report).skip(1) =~= ls);
    lemma_count(ls);
}

/// The lines of six words or more are as many as the processes.
proof fn lemma_count(ls: Seq<Seq<char>>)
    ensures
        process_lines(ls).len() == ls.filter(|line: Seq<char>| words(line).len() >= 6).len(),
    decreases ls.len(),
{
    reveal(Seq::filter);
    if ls.len() > 0 {
        lemma_count(ls.drop_last());
    }
}

/// A process whose line stands anywhere behind the heading is listed, with its command and its
/// memory, in its place among the others.
pub proof fn law_process_is_listed(
    report: Seq<char>,
    heading: Seq<char>,
    before: Seq<Seq<char>>,
    ten: Seq<Seq<char>>,
    command: Seq<Seq<char>>,
    behind: Seq<Seq<char>>,
    rss: u64,
)
    requires
        lines(report) == seq![heading] + before + seq![join(ten + command, " "@)] + behind,
        ten.len() == 10,
        command.len() > 0,
        forall|i: int| 0 <= i < ten.len() ==> is_word(#[trigger] ten[i]),
        forall|i: int| 0 <= i < command.len() ==> is_word(#[trigger] command[i]),
        ten[5] == decimal(rss as nat),
    ensures
        listed_processes(report) == process_lines(before) + seq![(join(command, " "@), rss)]
            + process_lines(behind),
        listed_processes(report).contains((join(command, " "@), rss)),
{
    let line = join(ten + command, " "@);
    let one = seq![line];
    crate::number::law_decimal_reads_back(rss);
    law_process_of_line(ten, command, rss);
    assert(lines(report).skip(1) =~= before + one + behind);
    law_processes_add(before + one, behind);
    law_processes_add(before, one);
    let none = process_lines(one.drop_last());
    assert(one.drop_last().len() == 0);
    assert(process_lines(one) =~= seq![(join(command, " "@), rss)]);
    let all = listed_processes(report);
    assert(all[process_lines(before).len() as int] == (join(command, " "@), rss));
}

/// The processes that are asked for are as many as asked for, or all; each is listed as often as
/// it is in the report at most; they go from the greatest memory to the least; and each that is
/// not shown has no more memory than each that is.
pub proof fn law_top_of_listed(n: u8, report: Seq<char>)
    ensures
        ({
            let all = listed_processes(report);
            let top = top_processes(n, report);
            &&& n <= all.len() ==> top.len() == n
            &&& n > all.len() ==> top.len() == all.len()
            &&& forall|p: (Seq<char>, u64)| #[trigger]
                top.to_multiset().count(p) <= all.to_multiset().count(p)
            &&& forall|i: int, j: int|
                0 <= i < j < top.len() ==> (#[trigger] top[i]).1 >= (#[trigger] top[j]).1
            &&& forall|p: (Seq<char>, u64), i: int|
                #![trigger all.to_multiset().count(p), top[i]]
                0 <= i < top.len() && top.to_multiset().count(p) < all.to_multiset().count(p)
                    ==> p.1 <= top[i].1
        }),
{
    broadcast use vstd::multiset::group_multiset_axioms;

    let all = listed_processes(report);
    let full = ranked(all);
    let top = top_processes(n, report);
    lemma_ranked(all);
    let rest = full.skip(top.len() as int);
    assert(top + rest =~= full);
    lemma_multiset_commutative(top, rest);
    assert forall|p: (Seq<char>, u64), i: int|
        #![trigger all.to_multiset().count(p), top[i]]
        0 <= i < top.len() && top.to_multiset().count(p) < all.to_multiset().count(
            p,
        ) implies p.1 <= top[i].1 by {
        to_multiset_contains(rest, p);
        let j = choose|j: int| 0 <= j < rest.len() && rest[j] == p;
        assert(full[i] == top[i]);
        assert(full[top.len() + j] == p);
    }
    assert forall|i: int, j: int| 0 <= i < j < top.len() implies (#[trigger] top[i]).1 >= (
    #[trigger] top[j]).1 by {
        assert(full[i] == top[i] && full[j] == top[j]);
    }
}

/// What the report of a command gives: that of its text where it succeeded, and an error where it
/// failed.
pub proof fn law_process_report(n: u8, stdout: Seq<u8>)
    ensures
        process_report(n, true, stdout) == Ok::<_, StatsError>(
            top_processes(n, lossy_text(stdout)),
        ),
        process_report(n, false, stdout) == Err::<Seq<(Seq<char>, u64)>, _>(
            StatsError::ProcessReportFailed,
        ),
{
}

/// Among processes of equal memory, each is ranked behind those that were listed before it.
pub proof fn law_equal_keep_order(list: Seq<(Seq<char>, u64)>, rss: u64)
    ensures
        ranked(list).filter(|p: (Seq<char>, u64)| p.1 == rss) == list.filter(
            |p: (Seq<char>, u64)| p.1 == rss,
        ),
    decreases list.len(),
{
    let f = |p: (Seq<char>, u64)| p.1 == rss;
    reveal(Seq::filter);
    if list.len() > 0 {
        let front = list.drop_last();
        let row = list.last();
        let before = ranked(front);
        let k = rank(before, row.1) as int;
        law_equal_keep_order(front, rss);
        lemma_ranked(front);
        crate::stats::lemma_rank(before, row.1);
        let a = before.take(k);
        let b = before.skip(k);
        assert(a + b =~= before);
        assert(before.insert(k, row) =~= a.push(row) + b);
        lemma_filter_adds(a, b, f);
        lemma_filter_adds(a.push(row), b, f);
        assert(a.push(row).drop_last() =~= a);
        if row.1 == rss {
            assert forall|i: int| 0 <= i < b.len() implies !f(#[trigger] b[i]) by {
                assert(b[i] == before[k + i]);
                assert(before[k].1 >= before[k + i].1);
            }
            lemma_filter_none(b, f);
            assert(a.filter(f) + b.filter(f) =~= a.filter(f));
            assert(a.push(row).filter(f) + b.filter(f) =~= before.filter(f).push(row));
        }
    } else {
        assert(ranked(list) =~= list);
    }
}

/// Filtering goes part by part.
proof fn lemma_filter_adds(
    a: Seq<(Seq<char>, u64)>,
    b: Seq<(Seq<char>, u64)>,
    f: spec_fn((Seq<char>, u64)) -> bool,
)
    ensures
        (a + b).filter(f) == a.filter(f) + b.filter(f),
    decreases b.len(),
{
    reveal(Seq::filter);
    if b.len() == 0 {
        assert(a + b =~= a);
        assert(a.filter(f) + b.filter(f) =~= a.filter(f));
    } else {
        lemma_filter_adds(a, b.drop_last(), f);
        assert((a + b).drop_last() =~= a + b.drop_last());
        assert((a + b).last() == b.last());
        assert((a + b).filter(f) =~= a.filter(f) + b.filter(f));
    }
}

/// Where nothing passes, nothing is left.
proof fn lemma_filter_none(b: Seq<(Seq<char>, u64)>, f: spec_fn((Seq<char>, u64)) -> bool)
    requires
        forall|i: int| 0 <= i < b.len() ==> !f(#[trigger] b[i]),
    ensures
        b.filter(f).len() == 0,
    decreases b.len(),
{
    reveal(Seq::filter);
    if b.len() > 0 {
        let front = b.drop_last();
        assert forall|i: int| 0 <= i < front.len() implies !f(#[trigger] front[i]) by {
            assert(front[i] == b[i]);
        }
        lemma_filter_none(front, f);
        assert(!f(b[b.len() - 1]));
    }
}

/// The contents of lists are those of their items, in order.
pub proof fn law_contents(
    list: Seq<(String, u64)>,
    texts: Seq<String>,
    parts: Seq<Vec<char>>,
    i: int,
)
    ensures
        rows(list).len() == list.len(),
        0 <= i < list.len() ==> rows(list)[i] == (list[i].0@, list[i].1),
        views(texts).len() == texts.len(),
        0 <= i < texts.len() ==> views(texts)[i] == texts[i]@,
        seqs(parts).len() == parts.len(),
        0 <= i < parts.len() ==> seqs(parts)[i] == parts[i]@,
        battery_view(None) is None,
        0 <= i < list.len() ==> battery_view(Some((list[i].1, list[i].0))) == Some(
            (list[i].1, list[i].0@),
        ),
{
}

} // verus!
