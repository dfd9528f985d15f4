//! Figures from what the commands of macOS print.
use vstd::prelude::*;
use vstd::utf8::{decode_utf8, valid_utf8};

use crate::lossy;
use crate::lossy::decode_lossy;
use crate::number;
use crate::number::{parse_number, parse_number_or};
use crate::percent;
use crate::percent::percent_of;
use crate::single;
use crate::single::{from_pattern, take_from_hundred, Single};
use crate::stats::{CpuStats, MemStats, StatsError};
use crate::text;
use crate::text::{
    begins, beyond, chars, contains, find_from, first_at, has, lines, run, seqs, slice, span,
    split_lines, split_words, starts_with, string, trim, trim_end, trimmed, trimmed_end, views,
    words, Class,
};

verus! {

/// The kilobytes of memory of a machine whose size in bytes the text gives.
pub open spec fn memory_size(text: Seq<char>) -> Result<u64, StatsError> {
    match number::number(trim(text)) {
        Some(bytes) => Ok(bytes / 1024),
        None => Err(StatsError::BadMemorySize),
    }
}

/// Reads the kilobytes of memory of a machine from the text that gives its size in bytes.
pub fn size_from_text(text: &str) -> (r: Result<u64, StatsError>)
    ensures
        r == memory_size(text@),
{
    match parse_number(&trimmed(&chars(text))) {
        Some(bytes) => Ok(bytes / 1024),
        None => Err(StatsError::BadMemorySize),
    }
}

/// Reads the kilobytes of memory of a machine from the bytes that give its size in bytes.
pub fn read_memory_size(stdout: &[u8]) -> (r: Result<u64, StatsError>)
    ensures
        r == memory_size(lossy::lossy_text(stdout@)),
        valid_utf8(stdout@) ==> r == memory_size(decode_utf8(stdout@)),
{
    let text = decode_lossy(stdout);
    size_from_text(text.as_str())
}

/// What stands between the first and the second `mark`, or behind the first where there is
/// no second.
pub open spec fn second_piece(s: Seq<char>, mark: Seq<char>) -> Option<Seq<char>> {
    match first_at(s, mark, 0) {
        None => None,
        Some(i) => match first_at(s, mark, i + mark.len()) {
            None => Some(s.skip(i + mark.len())),
            Some(j) => Some(s.subrange(i + mark.len(), j)),
        },
    }
}

/// Takes what stands between the first and the second `mark`.
fn piece(s: &[char], mark: &str) -> (r: Option<Vec<char>>)
    ensures
        match r {
            Some(found) => second_piece(s@, mark@) == Some(found@),
            None => second_piece(s@, mark@) is None,
        },
{
    let width: usize = chars(mark).len();
    let end: usize = s.len();
    match find_from(s, mark, 0) {
        None => None,
        Some(i) => {
            let from: usize = i + width;
            match find_from(s, mark, from) {
                None => {
                    let found = slice(s, from, end);
                    assert(found@ =~= s@.skip(from as int));
                    Some(found)
                },
                Some(j) => Some(slice(s, from, j)),
            }
        },
    }
}

/// The size of a page, in bytes, that the first line of the memory report gives behind
/// `PAGESIZE=`; 4096 where it gives none.
pub open spec fn page_size(ls: Seq<Seq<char>>) -> u64 {
    if ls.len() == 0 {
        4096
    } else {
        match second_piece(ls[0], "PAGESIZE="@) {
            Some(found) => if words(found).len() > 0 {
                number::number_or(words(found)[0], 4096)
            } else {
                4096
            },
            None => 4096,
        }
    }
}

/// Reads the size of a page from the lines of the memory report.
fn read_page_size(all: &Vec<Vec<char>>) -> (r: u64)
    ensures
        r == page_size(seqs(all@)),
{
    assert(seqs(all@).len() == all@.len());
    if all.len() == 0 {
        return 4096;
    }
    assert(seqs(all@)[0] == all@[0]@);
    match piece(&all[0], "PAGESIZE=") {
        Some(found) => {
            let w = split_words(&found);
            assert(seqs(w@).len() == w@.len());
            if w.len() > 0 {
                assert(seqs(w@)[0] == w@[0]@);
                parse_number_or(&w[0], 4096)
            } else {
                4096
            }
        },
        None => 4096,
    }
}

/// How many pages a line of the memory report counts: the number behind its first colon,
/// which full stops may end; zero where it is none.
pub open spec fn page_count(line: Seq<char>) -> u64 {
    let n = run(line, Class::IsNot(':'));
    let rest = line.skip(n as int + 1);
    let field = rest.take(run(rest, Class::IsNot(':')) as int);
    if n < line.len() {
        number::number_or(trim_end(trim(field), Class::Is('.')), 0)
    } else {
        0
    }
}

/// Reads how many pages a line of the memory report counts.
fn read_page_count(line: &[char]) -> (r: u64)
    ensures
        r == page_count(line@),
{
    assert(line@.skip(0) =~= line@);
    let colon: usize = span(line, 0, Class::IsNot(':'));
    if colon >= line.len() {
        return 0;
    }
    let end: usize = span(line, colon + 1, Class::IsNot(':'));
    let field = slice(line, colon + 1, end);
    proof {
        let rest = line@.skip(colon as int + 1);
        assert(field@ =~= rest.take(run(rest, Class::IsNot(':')) as int));
    }
    parse_number_or(&trimmed_end(&trimmed(&field), Class::Is('.')), 0)
}

/// Whether the bytes in the pages that a line counts can be counted in 64 bits.
pub open spec fn pages_fit(line: Seq<char>, page_size: u64) -> bool {
    page_count(line) * page_size <= u64::MAX
}

/// The kilobytes in the pages that a line counts.
pub open spec fn page_kb(line: Seq<char>, page_size: u64) -> u64 {
    (page_count(line) * page_size / 1024) as u64
}

/// Reads the kilobytes in the pages that a line of the memory report counts.
pub fn extract_page_count(line: &str, page_size: u64) -> (r: u64)
    requires
        pages_fit(line@, page_size),
    ensures
        r == page_kb(line@, page_size),
{
    let count: u64 = read_page_count(&chars(line));
    count * page_size / 1024
}

/// Reads the kilobytes in the pages that a line counts, if their bytes can be counted in 64
/// bits.
fn try_page_kb(line: &[char], page_size: u64) -> (r: Option<u64>)
    ensures
        match r {
            Some(kb) => pages_fit(line@, page_size) && kb == page_kb(line@, page_size),
            None => !pages_fit(line@, page_size),
        },
{
    match read_page_count(line).checked_mul(page_size) {
        Some(bytes) => Some(bytes / 1024),
        None => None,
    }
}

/// What has been read of the memory report so far, in kilobytes.
#[derive(Clone, Copy, Debug, PartialEq, Eq, Structural)]
pub struct PageScan {
    pub free: u64,
    pub active: u64,
    pub inactive: u64,
    pub wired: u64,
    pub compressed: u64,
}

/// Whether a line of the memory report is about pages that count here.
pub open spec fn about_pages(line: Seq<char>) -> bool {
    ||| begins(line, "Pages free:"@)
    ||| begins(line, "Pages active:"@)
    ||| begins(line, "Pages inactive:"@)
    ||| begins(line, "Pages wired down:"@)
    ||| begins(line, "Compressor page count:"@)
}

impl PageScan {
    /// Nothing read yet.
    pub open spec fn start() -> PageScan {
        PageScan { free: 0, active: 0, inactive: 0, wired: 0, compressed: 0 }
    }

    /// What is known once `line`, without white space at its ends, has been read too.
    pub open spec fn with_line(self, line: Seq<char>, page_size: u64) -> PageScan {
        let kb = page_kb(line, page_size);
        if begins(line, "Pages free:"@) {
            PageScan { free: kb, ..self }
        } else if begins(line, "Pages active:"@) {
            PageScan { active: kb, ..self }
        } else if begins(line, "Pages inactive:"@) {
            PageScan { inactive: kb, ..self }
        } else if begins(line, "Pages wired down:"@) {
            PageScan { wired: kb, ..self }
        } else if begins(line, "Compressor page count:"@) {
            PageScan { compressed: kb, ..self }
        } else {
            self
        }
    }

    /// What is known once all lines have been read.
    pub open spec fn after(ls: Seq<Seq<char>>, page_size: u64) -> PageScan
        decreases ls.len(),
    {
        if ls.len() == 0 {
            PageScan::start()
        } else {
            PageScan::after(ls.drop_last(), page_size).with_line(trim(ls.last()), page_size)
        }
    }

    /// Whether the sums of these figures can be counted in 64 bits.
    pub open spec fn sums_fit(self) -> bool {
        &&& self.free + self.inactive <= u64::MAX
        &&& self.active + self.wired + self.compressed <= u64::MAX
    }

    /// The memory that these figures describe, of `total_kb` in all. What is free or inactive
    /// can be had; what is active, wired or compressed is used.
    pub open spec fn stats(self, total_kb: u64) -> MemStats {
        let used = (self.active + self.wired + self.compressed) as u64;
        MemStats {
            total_kb,
            available_kb: (self.free + self.inactive) as u64,
            used_kb: used,
            used_percent: percent::percent(used as nat, total_kb as nat),
        }
    }

    /// Reads one more line, without white space at its ends. Tells whether the bytes in its
    /// pages can be counted in 64 bits, if it is about pages.
    fn feed(&mut self, line: &[char], page_size: u64) -> (ok: bool)
        ensures
            ok == (about_pages(line@) ==> pages_fit(line@, page_size)),
            ok ==> *final(self) == old(self).with_line(line@, page_size),
    {
        let kb = try_page_kb(line, page_size);
        if starts_with(line, "Pages free:") {
            if let Some(kb) = kb {
                self.free = kb;
            }
            kb.is_some()
        } else if starts_with(line, "Pages active:") {
            if let Some(kb) = kb {
                self.active = kb;
            }
            kb.is_some()
        } else if starts_with(line, "Pages inactive:") {
            if let Some(kb) = kb {
                self.inactive = kb;
            }
            kb.is_some()
        } else if starts_with(line, "Pages wired down:") {
            if let Some(kb) = kb {
                self.wired = kb;
            }
            kb.is_some()
        } else if starts_with(line, "Compressor page count:") {
            if let Some(kb) = kb {
                self.compressed = kb;
            }
            kb.is_some()
        } else {
            true
        }
    }
}

/// Whether the bytes in the pages of all the lines about pages can be counted in 64 bits.
pub open spec fn lines_fit(ls: Seq<Seq<char>>, page_size: u64) -> bool {
    forall|i: int|
        0 <= i < ls.len() && about_pages(trim(#[trigger] ls[i])) ==> pages_fit(
            trim(ls[i]),
            page_size,
        )
}

/// Whether all that the memory report has to add or multiply can be counted in 64 bits.
pub open spec fn memory_fits(report: Seq<char>) -> bool {
    let ls = lines(report);
    lines_fit(ls, page_size(ls)) && PageScan::after(ls, page_size(ls)).sums_fit()
}

/// The memory that the text of a report describes, of `total_kb` in all.
pub open spec fn memory(total_kb: u64, report: Seq<char>) -> MemStats {
    let ls = lines(report);
    PageScan::after(ls, page_size(ls)).stats(total_kb)
}

/// Reads the memory from the text of a report, if all sums and products can be counted in 64
/// bits.
pub fn memory_from_report(total_kb: u64, report: &str) -> (r: Option<MemStats>)
    ensures
        match r {
            Some(stats) => memory_fits(report@) && stats == memory(total_kb, report@)
                && stats.used_percent.wf(),
            None => !memory_fits(report@),
        },
{
    let all = split_lines(&chars(report));
    let ghost ls = lines(report@);
    assert(all@.len() == ls.len());
    let size: u64 = read_page_size(&all);
    let mut scan = PageScan { free: 0, active: 0, inactive: 0, wired: 0, compressed: 0 };
    assert(ls.take(0) =~= Seq::empty());
    for i in 0..all.len()
        invariant
            seqs(all@) == ls,
            ls == lines(report@),
            size == page_size(ls),
            scan == PageScan::after(ls.take(i as int), size),
            lines_fit(ls.take(i as int), size),
    {
        assert(seqs(all@)[i as int] == all@[i as int]@);
        let ghost now = ls.take(i + 1);
        assert(now.last() == ls[i as int]);
        assert(now.drop_last() =~= ls.take(i as int));
        if !scan.feed(&trimmed(&all[i]), size) {
            assert(!lines_fit(ls, size)) by {
                assert(about_pages(trim(ls[i as int])));
            }
            return None;
        }
        assert(lines_fit(now, size)) by {
            assert forall|j: int|
                0 <= j < now.len() && about_pages(trim(#[trigger] now[j])) implies pages_fit(
                trim(now[j]),
                size,
            ) by {
                if j < i {
                    assert(now[j] == ls.take(i as int)[j]);
                }
            }
        }
    }
    assert(ls.take(ls.len() as int) =~= ls);
    let available: u64 = match scan.free.checked_add(scan.inactive) {
        Some(sum) => sum,
        None => {
            return None;
        },
    };
    let used: u128 = scan.active as u128 + scan.wired as u128 + scan.compressed as u128;
    if used > u64::MAX as u128 {
        return None;
    }
    let used_kb: u64 = used as u64;
    Some(
        MemStats {
            total_kb,
            available_kb: available,
            used_kb,
            used_percent: percent_of(used_kb, total_kb),
        },
    )
}

/// Reads the memory, of `total_kb` in all, from the bytes of a report.
pub fn read_meminfo(total_kb: u64, stdout: &[u8]) -> (r: MemStats)
    requires
        memory_fits(lossy::lossy_text(stdout@)),
    ensures
        r == memory(total_kb, lossy::lossy_text(stdout@)),
        r.used_percent.wf(),
        valid_utf8(stdout@) ==> r == memory(total_kb, decode_utf8(stdout@)),
{
    let report = decode_lossy(stdout);
    memory_from_report(total_kb, report.as_str()).unwrap()
}

/// Reads the memory, of `total_kb` in all, from the bytes of a report, if all sums and
/// products can be counted in 64 bits.
pub fn try_read_meminfo(total_kb: u64, stdout: &[u8]) -> (r: Option<MemStats>)
    ensures
        match r {
            Some(stats) => memory_fits(lossy::lossy_text(stdout@)) && stats == memory(
                total_kb,
                lossy::lossy_text(stdout@),
            ) && stats.used_percent.wf(),
            None => !memory_fits(lossy::lossy_text(stdout@)),
        },
        valid_utf8(stdout@) ==> match r {
            Some(stats) => memory_fits(decode_utf8(stdout@)) && stats == memory(
                total_kb,
                decode_utf8(stdout@),
            ),
            None => !memory_fits(decode_utf8(stdout@)),
        },
{
    let report = decode_lossy(stdout);
    if memory_from_report(total_kb, report.as_str()).is_some() {
        Some(read_meminfo(total_kb, stdout))
    } else {
        None
    }
}

/// Whether `w` ends with a percent sign.
pub open spec fn is_share(w: Seq<char>) -> bool {
    w.len() > 0 && w.last() == '%'
}

/// Of the words, those that end with a percent sign, without their percent signs, from the
/// last to the first.
pub open spec fn shares(w: Seq<Seq<char>>) -> Seq<Seq<char>>
    decreases w.len(),
{
    if w.len() == 0 {
        Seq::empty()
    } else if is_share(w.last()) {
        seq![trim_end(w.last(), Class::Is('%'))] + shares(w.drop_last())
    } else {
        shares(w.drop_last())
    }
}

/// The texts that may give the idle share in a line: the shares between `CPU usage:` and the
/// first `idle` behind it, from the last to the first.
pub open spec fn idle_texts(line: Seq<char>) -> Seq<Seq<char>> {
    match first_at(line, "CPU usage:"@, 0) {
        None => Seq::empty(),
        Some(i) => {
            let part = line.skip(i);
            match first_at(part, "idle"@, 0) {
                None => Seq::empty(),
                Some(j) => shares(words(part.take(j))),
            }
        },
    }
}

/// Finds the texts that may give the idle share in a line, in the order in which they are to
/// be tried: the first of them that is a number is the idle share.
pub fn parse_cpu_line_macos(line: &str) -> (r: Vec<String>)
    ensures
        views(r@) == idle_texts(line@),
{
    find_idle_texts(&chars(line))
}

/// Finds the texts that may give the idle share in a line.
fn find_idle_texts(line: &[char]) -> (r: Vec<String>)
    ensures
        views(r@) == idle_texts(line@),
{
    let mut r: Vec<String> = Vec::new();
    let from: usize = match find_from(line, "CPU usage:", 0) {
        None => {
            assert(views(r@) =~= Seq::empty());
            return r;
        },
        Some(i) => i,
    };
    let part = slice(line, from, line.len());
    assert(part@ =~= line@.skip(from as int));
    let end: usize = match find_from(&part, "idle", 0) {
        None => {
            assert(views(r@) =~= Seq::empty());
            return r;
        },
        Some(j) => j,
    };
    let before = slice(&part, 0, end);
    assert(before@ =~= part@.take(end as int));
    let w = split_words(&before);
    let ghost ws = seqs(w@);
    let mut k: usize = w.len();
    assert(ws.take(k as int) =~= ws);
    assert(views(r@) + shares(ws) =~= shares(ws));
    while k > 0
        invariant
            k <= w@.len(),
            ws == seqs(w@),
            views(r@) + shares(ws.take(k as int)) == shares(ws),
        decreases k,
    {
        let ghost now = ws.take(k as int);
        let ghost so_far = r@;
        k = k - 1;
        assert(ws[k as int] == w@[k as int]@);
        assert(now.drop_last() =~= ws.take(k as int));
        let n: usize = w[k].len();
        if n > 0 && w[k][n - 1] == '%' {
            let share = string(&trimmed_end(&w[k], Class::Is('%')));
            r.push(share);
            assert(views(r@) =~= views(so_far).push(share@));
        }
        assert(views(r@) + shares(ws.take(k as int)) =~= views(so_far) + shares(now));
    }
    assert(views(r@) + shares(ws.take(0)) =~= views(r@));
    r
}

/// The texts that may give the idle share in the lines, in order.
pub open spec fn report_idle_texts(ls: Seq<Seq<char>>) -> Seq<Seq<char>>
    decreases ls.len(),
{
    if ls.len() == 0 {
        Seq::empty()
    } else {
        report_idle_texts(ls.drop_last()) + idle_texts(ls.last())
    }
}

/// Finds the texts that may give the idle share in the text of a report, in the order in
/// which they are to be tried.
pub fn idle_texts_in_report(report: &str) -> (r: Vec<String>)
    ensures
        views(r@) == report_idle_texts(lines(report@)),
{
    let all = split_lines(&chars(report));
    let ghost ls = lines(report@);
    let mut r: Vec<String> = Vec::new();
    assert(all@.len() == ls.len());
    assert(ls.take(0) =~= Seq::empty());
    assert(views(r@) =~= Seq::empty());
    for i in 0..all.len()
        invariant
            seqs(all@) == ls,
            views(r@) == report_idle_texts(ls.take(i as int)),
    {
        assert(seqs(all@)[i as int] == all@[i as int]@);
        let ghost now = ls.take(i + 1);
        assert(now.drop_last() =~= ls.take(i as int));
        let ghost so_far = r@;
        let mut found = find_idle_texts(&all[i]);
        let ghost more = found@;
        r.append(&mut found);
        assert(views(r@) =~= views(so_far) + views(more));
    }
    assert(ls.take(ls.len() as int) =~= ls);
    r
}

/// Finds the texts that may give the idle share in the bytes of a report, in the order in
/// which they are to be tried.
pub fn idle_candidates(stdout: &[u8]) -> (r: Vec<String>)
    ensures
        views(r@) == report_idle_texts(lines(lossy::lossy_text(stdout@))),
        valid_utf8(stdout@) ==> views(r@) == report_idle_texts(lines(decode_utf8(stdout@))),
{
    let report = decode_lossy(stdout);
    idle_texts_in_report(report.as_str())
}

/// The first reading that there is.
pub open spec fn first_reading(readings: Seq<Option<u32>>) -> Option<u32>
    decreases readings.len(),
{
    if readings.len() == 0 {
        None
    } else if readings[0] is Some {
        readings[0]
    } else {
        first_reading(readings.skip(1))
    }
}

/// The load over all: what the idle share leaves of a hundred percent, or zero without an
/// idle share. The readings are the patterns of bits of the texts that are numbers.
pub open spec fn usage(readings: Seq<Option<u32>>) -> Single {
    match first_reading(readings) {
        Some(pattern) => single::hundred_less(single::of_pattern(pattern)),
        None => Single::Finite { negative: false, mant: 0, exp: 0 },
    }
}

/// Computes the load from the readings of the texts that may give the idle share: for each
/// text, in order, its pattern of bits in single precision, if it is a number.
pub fn get_cpu_stats(readings: &[Option<u32>]) -> (r: CpuStats)
    ensures
        r.usage_percent == usage(readings@),
        r.cores@ == Seq::<Single>::empty(),
        r.wf(),
{
    let ghost all = readings@;
    assert(all.skip(0) =~= all);
    for i in 0..readings.len()
        invariant
            all == readings@,
            first_reading(all) == first_reading(all.skip(i as int)),
    {
        let ghost rest = all.skip(i as int);
        assert(rest[0] == all[i as int]);
        if let Some(pattern) = readings[i] {
            let load = take_from_hundred(from_pattern(pattern));
            return CpuStats { usage_percent: load, cores: Vec::new() };
        }
        assert(rest.skip(1) =~= all.skip(i + 1));
    }
    let none = Single::Finite { negative: false, mant: 0, exp: 0 };
    CpuStats { usage_percent: none, cores: Vec::new() }
}

/// Whether an interface of this name is left out: a loopback or virtual one.
pub open spec fn is_skipped(name: Seq<char>) -> bool {
    ||| begins(name, "lo"@)
    ||| begins(name, "utun"@)
    ||| begins(name, "awdl"@)
    ||| begins(name, "bridge"@)
}

/// The bytes received and sent that a line of the network report gives: its seventh and its
/// tenth word. A line of fewer than seven words gives none, nor does one about an interface
/// that is left out.
pub open spec fn traffic_line(line: Seq<char>) -> (u64, u64) {
    let w = words(line);
    if w.len() >= 7 && !is_skipped(w[0]) {
        (
            number::number_or(w[6], 0),
            if w.len() >= 10 {
                number::number_or(w[9], 0)
            } else {
                0
            },
        )
    } else {
        (0, 0)
    }
}

/// Reads the bytes received and sent that a line of the network report gives.
fn read_traffic_line(line: &[char]) -> (r: (u64, u64))
    ensures
        r == traffic_line(line@),
{
    let w = split_words(line);
    assert(seqs(w@).len() == w@.len());
    if w.len() < 7 {
        return (0, 0);
    }
    assert(seqs(w@)[0] == w@[0]@);
    assert(seqs(w@)[6] == w@[6]@);
    let name = &w[0];
    if starts_with(name, "lo") || starts_with(name, "utun") || starts_with(name, "awdl")
        || starts_with(name, "bridge") {
        return (0, 0);
    }
    let tx: u64 = if w.len() >= 10 {
        assert(seqs(w@)[9] == w@[9]@);
        parse_number_or(&w[9], 0)
    } else {
        0
    };
    (parse_number_or(&w[6], 0), tx)
}

/// The bytes that the lines give as received.
pub open spec fn received(ls: Seq<Seq<char>>) -> nat {
    text::sum(ls, |line: Seq<char>| traffic_line(line).0)
}

/// The bytes that the lines give as sent.
pub open spec fn sent(ls: Seq<Seq<char>>) -> nat {
    text::sum(ls, |line: Seq<char>| traffic_line(line).1)
}

/// The lines of the network report behind its heading.
pub open spec fn traffic_lines(report: Seq<char>) -> Seq<Seq<char>> {
    beyond(lines(report), 1)
}

/// Whether the bytes received, and those sent, can be counted in 64 bits.
pub open spec fn traffic_fits(report: Seq<char>) -> bool {
    received(traffic_lines(report)) <= u64::MAX && sent(traffic_lines(report)) <= u64::MAX
}

/// The kilobytes received and sent that the text of a report gives.
pub open spec fn traffic(report: Seq<char>) -> (u64, u64) {
    (
        (received(traffic_lines(report)) / 1024) as u64,
        (sent(traffic_lines(report)) / 1024) as u64,
    )
}

/// Reads the kilobytes received and sent from the text of a report, if the bytes can be
/// counted in 64 bits.
pub fn traffic_from_report(report: &str) -> (r: Option<(u64, u64)>)
    ensures
        match r {
            Some(found) => traffic_fits(report@) && found == traffic(report@),
            None => !traffic_fits(report@),
        },
{
    let all = split_lines(&chars(report));
    let ghost ls = lines(report@);
    let ghost tail = traffic_lines(report@);
    assert(all@.len() == ls.len());
    let start: usize = if all.len() >= 1 { 1 } else { 0 };
    assert(tail =~= ls.skip(start as int));
    assert(tail.take(0) =~= Seq::empty());
    let mut rx: u64 = 0;
    let mut tx: u64 = 0;
    for i in start..all.len()
        invariant
            start <= i <= all@.len(),
            seqs(all@) == ls,
            tail == traffic_lines(report@),
            tail == ls.skip(start as int),
            rx == received(tail.take(i - start)),
            tx == sent(tail.take(i - start)),
    {
        assert(seqs(all@)[i as int] == all@[i as int]@);
        let ghost now = tail.take(i - start + 1);
        assert(now.last() == ls[i as int]);
        assert(now.drop_last() =~= tail.take(i - start));
        proof {
            text::lemma_sum_prefix(
                tail,
                |line: Seq<char>| traffic_line(line).0,
                i - start + 1,
            );
            text::lemma_sum_prefix(
                tail,
                |line: Seq<char>| traffic_line(line).1,
                i - start + 1,
            );
        }
        let (r, t) = read_traffic_line(&all[i]);
        match (rx.checked_add(r), tx.checked_add(t)) {
            (Some(more_rx), Some(more_tx)) => {
                rx = more_rx;
                tx = more_tx;
            },
            _ => {
                return None;
            },
        }
    }
    assert(tail.take(tail.len() as int) =~= tail);
    Some((rx / 1024, tx / 1024))
}

/// Reads the kilobytes received and sent from the bytes of a report.
pub fn get_network_stats(stdout: &[u8]) -> (r: (u64, u64))
    requires
        traffic_fits(lossy::lossy_text(stdout@)),
    ensures
        r == traffic(lossy::lossy_text(stdout@)),
        valid_utf8(stdout@) ==> r == traffic(decode_utf8(stdout@)),
{
    let report = decode_lossy(stdout);
    traffic_from_report(report.as_str()).unwrap()
}

/// Reads the kilobytes received and sent from the bytes of a report, if the bytes of traffic
/// can be counted in 64 bits.
pub fn try_network_stats(stdout: &[u8]) -> (r: Option<(u64, u64)>)
    ensures
        match r {
            Some(found) => traffic_fits(lossy::lossy_text(stdout@)) && found == traffic(
                lossy::lossy_text(stdout@),
            ),
            None => !traffic_fits(lossy::lossy_text(stdout@)),
        },
        valid_utf8(stdout@) ==> match r {
            Some(found) => traffic_fits(decode_utf8(stdout@)) && found == traffic(
                decode_utf8(stdout@),
            ),
            None => !traffic_fits(decode_utf8(stdout@)),
        },
{
    let report = decode_lossy(stdout);
    if traffic_from_report(report.as_str()).is_some() {
        Some(get_network_stats(stdout))
    } else {
        None
    }
}

/// The state of a battery that a line tells of.
pub open spec fn battery_state(line: Seq<char>) -> Seq<char> {
    if has(line, "discharging"@) {
        "Discharging"@
    } else if has(line, "charging"@) {
        "Charging"@
    } else if has(line, "charged"@) || has(line, "fully"@) {
        "Fully Charged"@
    } else {
        "Unknown"@
    }
}

/// Whether Unicode files `c` under one of its categories of numbers: what `char::is_numeric`
/// answers.
pub uninterp spec fn numeric(c: char) -> bool;

/// `char::is_numeric` depends on the character alone, and of the ASCII characters it takes
/// the ten decimal digits. Which other characters it takes is left unsaid.
pub assume_specification[ char::is_numeric ](c: char) -> (r: bool)
    ensures
        r == numeric(c),
        (c as u32) < 128 ==> r == number::is_digit(c),
;

/// Which characters of a line are numerals.
pub open spec fn numerals_in(line: Seq<char>) -> Seq<bool> {
    line.map_values(|c: char| numeric(c))
}

/// Which characters of a line are decimal digits.
pub open spec fn digits_in(line: Seq<char>) -> Seq<bool> {
    line.map_values(|c: char| number::is_digit(c))
}

/// Whether all characters are ASCII characters.
pub open spec fn all_ascii(s: Seq<char>) -> bool {
    forall|i: int| 0 <= i < s.len() ==> (#[trigger] s[i] as u32) < 128
}

/// How many marks at the end are set, back to the last that is not.
pub open spec fn set_at_end(marks: Seq<bool>) -> nat
    decreases marks.len(),
{
    if marks.len() > 0 && marks.last() {
        1 + set_at_end(marks.drop_last())
    } else {
        0
    }
}

/// How many marks at the start are `mark`, up to the first that is not.
pub open spec fn leading(marks: Seq<bool>, mark: bool) -> nat
    decreases marks.len(),
{
    if marks.len() > 0 && marks[0] == mark {
        1 + leading(marks.skip(1), mark)
    } else {
        0
    }
}

/// The number before the first percent sign of a line whose numerals are marked: the run of
/// numerals that ends there, or that white space alone parts from there.
pub open spec fn share_given(line: Seq<char>, marks: Seq<bool>) -> Option<u64> {
    let p = run(line, Class::IsNot('%')) as int;
    let q = trim_end(line.take(p), Class::White).len() as int;
    let n = set_at_end(marks.take(q)) as int;
    if p < line.len() {
        number::number(line.subrange(q - n, q))
    } else {
        None
    }
}

/// The number that the first run of numerals of a line, in which they are marked, writes.
pub open spec fn first_number(line: Seq<char>, marks: Seq<bool>) -> Option<u64> {
    let n = leading(marks, false) as int;
    let m = leading(marks.skip(n), true) as int;
    number::number(line.subrange(n, n + m))
}

/// The charge of a battery, in percent, and its state, that a line gives whose numerals are
/// marked: in a line about a battery, the number before the first percent sign, or, where none
/// stands there, the first number.
pub open spec fn marked_battery_line(line: Seq<char>, marks: Seq<bool>) -> Option<
    (u64, Seq<char>),
> {
    let charge = if share_given(line, marks) is Some {
        share_given(line, marks)
    } else {
        first_number(line, marks)
    };
    if has(line, "Battery"@) && charge is Some {
        Some((charge->0, battery_state(line)))
    } else {
        None
    }
}

/// The charge of a battery, in percent, and its state, that a line gives.
pub open spec fn battery_line(line: Seq<char>) -> Option<(u64, Seq<char>)> {
    marked_battery_line(line, numerals_in(line))
}

/// The charge of a battery, in percent, and its state, that a line of ASCII characters gives.
pub open spec fn ascii_battery_line(line: Seq<char>) -> Option<(u64, Seq<char>)> {
    marked_battery_line(line, digits_in(line))
}

/// What the first of the lines that give something gives.
pub open spec fn battery_lines(ls: Seq<Seq<char>>) -> Option<(u64, Seq<char>)>
    decreases ls.len(),
{
    if ls.len() == 0 {
        None
    } else if battery_line(ls[0]) is Some {
        battery_line(ls[0])
    } else {
        battery_lines(ls.skip(1))
    }
}

/// What the first of the lines of ASCII characters that give something gives.
pub open spec fn ascii_battery_lines(ls: Seq<Seq<char>>) -> Option<(u64, Seq<char>)>
    decreases ls.len(),
{
    if ls.len() == 0 {
        None
    } else if ascii_battery_line(ls[0]) is Some {
        ascii_battery_line(ls[0])
    } else {
        ascii_battery_lines(ls.skip(1))
    }
}

/// Tells the state of a battery.
fn read_battery_state(line: &[char]) -> (r: String)
    ensures
        r@ == battery_state(line@),
{
    let state = if contains(line, "discharging") {
        "Discharging"
    } else if contains(line, "charging") {
        "Charging"
    } else if contains(line, "charged") || contains(line, "fully") {
        "Fully Charged"
    } else {
        "Unknown"
    };
    state.to_owned()
}

/// The contents of a charge and a state.
pub open spec fn battery_view(r: Option<(u64, String)>) -> Option<(u64, Seq<char>)> {
    match r {
        Some((charge, state)) => Some((charge, state@)),
        None => None,
    }
}

/// The position from which on, up to `end`, all marks are set.
fn first_set(marks: &[bool], end: usize) -> (from: usize)
    requires
        end <= marks@.len(),
    ensures
        from <= end,
        end - from == set_at_end(marks@.take(end as int)),
{
    let mut from: usize = end;
    while from > 0 && marks[from - 1]
        invariant
            from <= end <= marks@.len(),
            set_at_end(marks@.take(end as int)) == end - from + set_at_end(
                marks@.take(from as int),
            ),
        decreases from,
    {
        let ghost before = marks@.take(from as int);
        from = from - 1;
        assert(before.drop_last() =~= marks@.take(from as int));
    }
    from
}

/// The position behind the marks from `from` on that are `mark`.
fn behind_marks(marks: &[bool], from: usize, mark: bool) -> (end: usize)
    requires
        from <= marks@.len(),
    ensures
        from <= end <= marks@.len(),
        end - from == leading(marks@.skip(from as int), mark),
{
    let mut end: usize = from;
    while end < marks.len() && marks[end] == mark
        invariant
            from <= end <= marks@.len(),
            leading(marks@.skip(from as int), mark) == end - from + leading(
                marks@.skip(end as int),
                mark,
            ),
        decreases marks@.len() - end,
    {
        let ghost rest = marks@.skip(end as int);
        end = end + 1;
        assert(rest.skip(1) =~= marks@.skip(end as int));
    }
    end
}

/// Reads the number before the first percent sign of a line whose numerals are marked.
fn read_share(line: &[char], marks: &[bool]) -> (r: Option<u64>)
    requires
        marks@.len() == line@.len(),
    ensures
        r == share_given(line@, marks@),
{
    assert(line@.skip(0) =~= line@);
    let sign: usize = span(line, 0, Class::IsNot('%'));
    if sign >= line.len() {
        return None;
    }
    let before = slice(line, 0, sign);
    assert(before@ =~= line@.take(sign as int));
    proof {
        text::lemma_run_back(before@, Class::White);
    }
    let end: usize = trimmed_end(&before, Class::White).len();
    let from: usize = first_set(marks, end);
    parse_number(&slice(line, from, end))
}

/// Reads the first number of a line whose numerals are marked.
fn read_first_number(line: &[char], marks: &[bool]) -> (r: Option<u64>)
    requires
        marks@.len() == line@.len(),
    ensures
        r == first_number(line@, marks@),
{
    assert(marks@.skip(0) =~= marks@);
    let from: usize = behind_marks(marks, 0, false);
    let end: usize = behind_marks(marks, from, true);
    parse_number(&slice(line, from, end))
}

/// Reads the charge of a battery and its state from a line whose numerals are marked.
pub fn battery_from_marked(line: &[char], marks: &[bool]) -> (r: Option<(u64, String)>)
    requires
        marks@.len() == line@.len(),
    ensures
        battery_view(r) == marked_battery_line(line@, marks@),
{
    if !contains(line, "Battery") {
        return None;
    }
    let share = read_share(line, marks);
    let charge = if share.is_some() {
        share
    } else {
        read_first_number(line, marks)
    };
    match charge {
        Some(charge) => Some((charge, read_battery_state(line))),
        None => None,
    }
}

/// Reads the charge of a battery and its state from a line.
fn read_battery_line(line: &[char]) -> (r: Option<(u64, String)>)
    ensures
        battery_view(r) == battery_line(line@),
        all_ascii(line@) ==> battery_view(r) == ascii_battery_line(line@),
{
    let mut marks: Vec<bool> = Vec::new();
    for i in 0..line.len()
        invariant
            marks@ == numerals_in(line@.take(i as int)),
            all_ascii(line@) ==> marks@ == digits_in(line@.take(i as int)),
    {
        marks.push(line[i].is_numeric());
        assert(marks@ =~= numerals_in(line@.take(i + 1)));
        assert(all_ascii(line@) ==> marks@ =~= digits_in(line@.take(i + 1)));
    }
    assert(line@.take(line@.len() as int) =~= line@);
    battery_from_marked(line, &marks)
}

/// The lines of text of ASCII characters are of ASCII characters.
proof fn lemma_ascii_lines(s: Seq<char>)
    requires
        all_ascii(s),
    ensures
        forall|i: int| 0 <= i < lines(s).len() ==> all_ascii(#[trigger] lines(s)[i]),
    decreases s.len(),
{
    let n = run(s, Class::IsNot('\n'));
    if s.len() > 0 && n < s.len() {
        let rest = s.skip(n as int + 1);
        assert(all_ascii(rest)) by {
            assert forall|i: int| 0 <= i < rest.len() implies (#[trigger] rest[i] as u32) < 128 by {
                assert(rest[i] == s[i + n + 1]);
            }
        }
        lemma_ascii_lines(rest);
        let first = text::without_cr(s.take(n as int));
        assert(all_ascii(first)) by {
            assert forall|i: int| 0 <= i < first.len() implies (#[trigger] first[i] as u32)
                < 128 by {
                assert(first[i] == s[i]);
            }
        }
        assert forall|i: int| 0 <= i < lines(s).len() implies all_ascii(#[trigger] lines(s)[i]) by {
            if i > 0 {
                assert(lines(s)[i] == lines(rest)[i - 1]);
            }
        }
    }
}

/// Reads the charge of a battery, in percent, and its state, from the text of a report.
pub fn battery_from_report(report: &str) -> (r: Option<(u64, String)>)
    ensures
        battery_view(r) == battery_lines(lines(report@)),
        all_ascii(report@) ==> battery_view(r) == ascii_battery_lines(lines(report@)),
{
    let all = split_lines(&chars(report));
    let ghost ls = lines(report@);
    let ghost ascii = all_ascii(report@);
    proof {
        if ascii {
            lemma_ascii_lines(report@);
        }
    }
    assert(all@.len() == ls.len());
    assert(ls.skip(0) =~= ls);
    for i in 0..all.len()
        invariant
            seqs(all@) == ls,
            ls == lines(report@),
            ascii == all_ascii(report@),
            ascii ==> forall|j: int| 0 <= j < ls.len() ==> all_ascii(#[trigger] ls[j]),
            battery_lines(ls) == battery_lines(ls.skip(i as int)),
            ascii ==> ascii_battery_lines(ls) == ascii_battery_lines(ls.skip(i as int)),
    {
        assert(seqs(all@)[i as int] == all@[i as int]@);
        let ghost rest = ls.skip(i as int);
        assert(rest[0] == ls[i as int]);
        let found = read_battery_line(&all[i]);
        if found.is_some() {
            return found;
        }
        assert(rest.skip(1) =~= ls.skip(i + 1));
    }
    None
}

/// Reads the charge of a battery, in percent, and its state, from the bytes of a report.
pub fn get_battery_stats(stdout: &[u8]) -> (r: Option<(u64, String)>)
    ensures
        battery_view(r) == battery_lines(lines(lossy::lossy_text(stdout@))),
        valid_utf8(stdout@) ==> battery_view(r) == battery_lines(lines(decode_utf8(stdout@))),
        valid_utf8(stdout@) && all_ascii(decode_utf8(stdout@)) ==> battery_view(r)
            == ascii_battery_lines(lines(decode_utf8(stdout@))),
{
    let report = decode_lossy(stdout);
    battery_from_report(report.as_str())
}

/// The traffic of the lines of two reports is that of the one and that of the other.
pub proof fn law_traffic_adds(a: Seq<Seq<char>>, b: Seq<Seq<char>>)
    ensures
        received(a + b) == received(a) + received(b),
        sent(a + b) == sent(a) + sent(b),
{
    text::law_sum_adds(a, b, |line: Seq<char>| traffic_line(line).0);
    text::law_sum_adds(a, b, |line: Seq<char>| traffic_line(line).1);
}

} // verus!
