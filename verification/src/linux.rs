//! Figures from the files that a Linux kernel offers.
use vstd::prelude::*;

use crate::binary;
use crate::number;
use crate::number::{parse_number, parse_number_or};
use crate::percent;
use crate::percent::percent_of;
use crate::single;
use crate::single::{to_single, Single};
use crate::stats::{CpuStats, MemStats, StatsError};
use crate::text;
use crate::text::{
    beyond, begins, chars, lines, seqs, slice, span, split_lines, split_words, starts_with, string,
    trim, trimmed, words, Class,
};

verus! {

/// What has been read of the memory report so far, in kilobytes; zero where nothing has.
#[derive(Clone, Copy, Debug, PartialEq, Eq, Structural)]
pub struct MemScan {
    pub total: u64,
    pub available: u64,
}

/// The number that a line gives as its second word; zero where there is none.
pub open spec fn figure(line: Seq<char>) -> u64 {
    let w = words(line);
    if w.len() > 1 {
        number::number_or(w[1], 0)
    } else {
        0
    }
}

/// Reads the number that a line gives as its second word.
fn read_figure(line: &[char]) -> (r: u64)
    ensures
        r == figure(line@),
{
    let w = split_words(line);
    assert(seqs(w@).len() == w@.len());
    if w.len() > 1 {
        assert(seqs(w@)[1] == w@[1]@);
        parse_number_or(&w[1], 0)
    } else {
        0
    }
}

impl MemScan {
    /// Nothing read yet.
    pub open spec fn start() -> MemScan {
        MemScan { total: 0, available: 0 }
    }

    /// Whether both figures are known, so that no further line counts.
    pub open spec fn done(self) -> bool {
        self.total != 0 && self.available != 0
    }

    /// What is known once `line` has been read too.
    pub open spec fn with_line(self, line: Seq<char>) -> MemScan {
        if self.done() {
            self
        } else if begins(line, "MemTotal:"@) {
            MemScan { total: figure(line), available: self.available }
        } else if begins(line, "MemAvailable:"@) {
            MemScan { total: self.total, available: figure(line) }
        } else {
            self
        }
    }

    /// What is known once all lines have been read.
    pub open spec fn after(ls: Seq<Seq<char>>) -> MemScan
        decreases ls.len(),
    {
        if ls.len() == 0 {
            MemScan::start()
        } else {
            MemScan::after(ls.drop_last()).with_line(ls.last())
        }
    }

    /// The memory that these figures describe. What is not available is used.
    pub open spec fn stats(self) -> MemStats {
        let used = if self.available <= self.total {
            (self.total - self.available) as u64
        } else {
            0
        };
        MemStats {
            total_kb: self.total,
            available_kb: self.available,
            used_kb: used,
            used_percent: percent::percent(used as nat, self.total as nat),
        }
    }

    /// Begins to read a memory report.
    pub fn new() -> (r: MemScan)
        ensures
            r == MemScan::start(),
    {
        MemScan { total: 0, available: 0 }
    }

    /// Reads one more line, and tells whether both figures are known.
    pub fn feed(&mut self, line: &str) -> (done: bool)
        ensures
            *final(self) == old(self).with_line(line@),
            done == final(self).done(),
    {
        self.feed_chars(&chars(line))
    }

    /// Reads one more line, and tells whether both figures are known.
    fn feed_chars(&mut self, line: &[char]) -> (done: bool)
        ensures
            *final(self) == old(self).with_line(line@),
            done == final(self).done(),
    {
        if self.total != 0 && self.available != 0 {
            return true;
        }
        if starts_with(line, "MemTotal:") {
            self.total = read_figure(line);
        } else if starts_with(line, "MemAvailable:") {
            self.available = read_figure(line);
        }
        self.total != 0 && self.available != 0
    }

    /// The memory that the figures describe.
    pub fn finish(self) -> (r: MemStats)
        ensures
            r == self.stats(),
            r.used_kb <= r.total_kb,
            r.used_percent.wf(),
    {
        let used: u64 = self.total.saturating_sub(self.available);
        MemStats {
            total_kb: self.total,
            available_kb: self.available,
            used_kb: used,
            used_percent: percent_of(used, self.total),
        }
    }
}

/// Reads the memory from the text of `/proc/meminfo`.
pub fn read_meminfo(content: &str) -> (r: MemStats)
    ensures
        r == MemScan::after(lines(content@)).stats(),
        r.used_kb <= r.total_kb,
        r.used_percent.wf(),
{
    let all = split_lines(&chars(content));
    let ghost ls = lines(content@);
    let mut scan = MemScan::new();
    assert(all@.len() == ls.len());
    assert(ls.take(0) =~= Seq::empty());
    for i in 0..all.len()
        invariant
            seqs(all@) == ls,
            scan == MemScan::after(ls.take(i as int)),
    {
        assert(seqs(all@)[i as int] == all@[i as int]@);
        assert(ls.take(i + 1).drop_last() =~= ls.take(i as int));
        scan.feed_chars(&all[i]);
    }
    assert(ls.take(ls.len() as int) =~= ls);
    scan.finish()
}

/// The time that a processor has spent in each of its states, in ticks.
#[derive(Clone, Copy, Debug, PartialEq, Eq, Structural)]
pub struct CpuRaw {
    pub user: u64,
    pub nice: u64,
    pub system: u64,
    pub idle: u64,
    pub iowait: u64,
    pub irq: u64,
    pub softirq: u64,
    pub steal: u64,
}

/// The number that the word at position `i` writes; zero where there is none.
pub open spec fn count_at(w: Seq<Seq<char>>, i: int) -> u64 {
    if i < w.len() {
        number::number_or(w[i], 0)
    } else {
        0
    }
}

/// Reads the number that the word at position `i` writes.
fn read_count(w: &Vec<Vec<char>>, i: usize) -> (r: u64)
    ensures
        r == count_at(seqs(w@), i as int),
{
    assert(seqs(w@).len() == w@.len());
    if i < w.len() {
        assert(seqs(w@)[i as int] == w@[i as int]@);
        parse_number_or(&w[i], 0)
    } else {
        0
    }
}

/// The times that a line of the processor's report gives: its words behind the first. A line
/// of fewer than five words gives none.
pub open spec fn cpu_line(line: Seq<char>) -> Option<CpuRaw> {
    let w = words(line);
    if w.len() < 5 {
        None
    } else {
        Some(
            CpuRaw {
                user: count_at(w, 1),
                nice: count_at(w, 2),
                system: count_at(w, 3),
                idle: count_at(w, 4),
                iowait: count_at(w, 5),
                irq: count_at(w, 6),
                softirq: count_at(w, 7),
                steal: count_at(w, 8),
            },
        )
    }
}

/// Reads the times that a line of the processor's report gives.
pub fn parse_cpu_line(line: &str) -> (r: Option<CpuRaw>)
    ensures
        r == cpu_line(line@),
{
    read_cpu_line(&chars(line))
}

/// Reads the times that a line of the processor's report gives.
fn read_cpu_line(line: &[char]) -> (r: Option<CpuRaw>)
    ensures
        r == cpu_line(line@),
{
    let w = split_words(line);
    assert(seqs(w@).len() == w@.len());
    if w.len() < 5 {
        return None;
    }
    Some(
        CpuRaw {
            user: read_count(&w, 1),
            nice: read_count(&w, 2),
            system: read_count(&w, 3),
            idle: read_count(&w, 4),
            iowait: read_count(&w, 5),
            irq: read_count(&w, 6),
            softirq: read_count(&w, 7),
            steal: read_count(&w, 8),
        },
    )
}

impl CpuRaw {
    /// All the time.
    pub open spec fn total(self) -> nat {
        (self.user + self.nice + self.system + self.idle + self.iowait + self.irq + self.softirq
            + self.steal) as nat
    }

    /// The time spent without work.
    pub open spec fn rest(self) -> nat {
        (self.idle + self.iowait) as nat
    }

    /// Whether all the time can be counted in 64 bits.
    pub open spec fn fits(self) -> bool {
        self.total() <= u64::MAX
    }

    /// The share of the time spent at work, in percent.
    pub open spec fn usage(self) -> Single {
        single::single_of(percent::percent((self.total() - self.rest()) as nat, self.total()))
    }

    /// Sums up all the time, if it can be counted in 64 bits.
    fn sum(self) -> (r: Option<u64>)
        ensures
            match r {
                Some(n) => n == self.total(),
                None => !self.fits(),
            },
    {
        let n: u128 = self.user as u128 + self.nice as u128 + self.system as u128 + self.idle as u128
            + self.iowait as u128 + self.irq as u128 + self.softirq as u128 + self.steal as u128;
        if n <= u64::MAX as u128 {
            Some(n as u64)
        } else {
            None
        }
    }

    /// Computes the share of the time spent at work, in percent, of a total of `total`.
    fn usage_of(self, total: u64) -> (r: Single)
        requires
            total == self.total(),
        ensures
            r == self.usage(),
            r.wf(),
    {
        to_single(percent_of(total - (self.idle + self.iowait), total))
    }
}

/// The times of one core, if the line is about one: it begins with `cpu` and a digit.
pub open spec fn core_line(line: Seq<char>) -> Option<CpuRaw> {
    if begins(line, "cpu"@) && line.len() > 3 && number::is_digit(line[3]) {
        cpu_line(line)
    } else {
        None
    }
}

/// Reads the times of one core, if the line is about one.
fn read_core_line(line: &[char]) -> (r: Option<CpuRaw>)
    ensures
        r == core_line(line@),
{
    if starts_with(line, "cpu") && line.len() > 3 && '0' <= line[3] && line[3] <= '9' {
        read_cpu_line(line)
    } else {
        None
    }
}

/// The shares of the cores that the lines are about, in order. A core without any time is
/// left out.
pub open spec fn core_usages(ls: Seq<Seq<char>>) -> Seq<Single>
    decreases ls.len(),
{
    if ls.len() == 0 {
        Seq::empty()
    } else {
        let before = core_usages(ls.drop_last());
        match core_line(ls.last()) {
            Some(raw) => if raw.total() > 0 {
                before.push(raw.usage())
            } else {
                before
            },
            None => before,
        }
    }
}

/// Whether all the times of the cores that the lines are about can be counted in 64 bits.
pub open spec fn cores_fit(ls: Seq<Seq<char>>) -> bool {
    forall|i: int|
        0 <= i < ls.len() ==> match core_line(#[trigger] ls[i]) {
            Some(raw) => raw.fits(),
            None => true,
        }
}

/// Whether all the times that the text of `/proc/stat` gives can be counted in 64 bits.
pub open spec fn cpu_fits(content: Seq<char>) -> bool {
    let ls = lines(content);
    ls.len() > 0 ==> match cpu_line(ls[0]) {
        Some(raw) => raw.fits() && cores_fit(beyond(ls, 1)),
        None => true,
    }
}

/// Whether the load `r` is what the text of `/proc/stat` gives: its first line is about the
/// whole processor, the others may be about its cores.
pub open spec fn cpu_stats(content: Seq<char>, r: Result<CpuStats, StatsError>) -> bool {
    let ls = lines(content);
    if ls.len() == 0 {
        r == Err::<CpuStats, _>(StatsError::EmptyCpuReport)
    } else {
        match cpu_line(ls[0]) {
            None => r == Err::<CpuStats, _>(StatsError::BadCpuReport),
            Some(raw) => match r {
                Ok(stats) => {
                    &&& stats.usage_percent == raw.usage()
                    &&& stats.cores@ == core_usages(beyond(ls, 1))
                    &&& stats.wf()
                },
                Err(_) => false,
            },
        }
    }
}

/// Reads the load from the text of `/proc/stat`, if all times can be counted in 64 bits.
#[verifier::spinoff_prover]
#[verifier::rlimit(60)]
pub fn try_cpu_stats(content: &str) -> (r: Option<Result<CpuStats, StatsError>>)
    ensures
        match r {
            Some(found) => cpu_fits(content@) && cpu_stats(content@, found),
            None => !cpu_fits(content@),
        },
{
    let all = split_lines(&chars(content));
    let ghost ls = lines(content@);
    assert(all@.len() == ls.len());
    if all.len() == 0 {
        return Some(Err(StatsError::EmptyCpuReport));
    }
    assert(seqs(all@)[0] == all@[0]@);
    let raw = match read_cpu_line(&all[0]) {
        Some(raw) => raw,
        None => {
            return Some(Err(StatsError::BadCpuReport));
        },
    };
    let total: u64 = match raw.sum() {
        Some(total) => total,
        None => {
            return None;
        },
    };
    let mut cores: Vec<Single> = Vec::new();
    let ghost tail = beyond(ls, 1);
    assert(tail.take(0) =~= Seq::empty());
    for i in 1..all.len()
        invariant
            1 <= i <= all@.len(),
            seqs(all@) == ls,
            ls == lines(content@),
            tail == ls.skip(1),
            tail == beyond(ls, 1),
            cpu_line(ls[0]) == Some(raw),
            raw.fits(),
            cores@ == core_usages(tail.take(i - 1)),
            forall|j: int| 0 <= j < cores@.len() ==> (#[trigger] cores@[j]).wf(),
            cores_fit(tail.take(i - 1)),
    {
        assert(seqs(all@)[i as int] == all@[i as int]@);
        let ghost now = tail.take(i as int);
        assert(now.last() == ls[i as int]);
        assert(now.drop_last() =~= tail.take(i - 1));
        assert(tail[i - 1] == ls[i as int]);
        let found = read_core_line(&all[i]);
        if let Some(core) = found {
            match core.sum() {
                Some(core_total) => {
                    if core_total > 0 {
                        cores.push(core.usage_of(core_total));
                    }
                },
                None => {
                    assert(!cpu_fits(content@));
                    return None;
                },
            }
        }
        assert(cores_fit(now)) by {
            assert forall|j: int| 0 <= j < now.len() implies match core_line(#[trigger] now[j]) {
                Some(core) => core.fits(),
                None => true,
            } by {
                if j < i - 1 {
                    assert(now[j] == tail.take(i - 1)[j]);
                }
            }
        }
    }
    assert(tail.take(tail.len() as int) =~= tail);
    Some(Ok(CpuStats { usage_percent: raw.usage_of(total), cores }))
}

/// Reads the load from the text of `/proc/stat`.
pub fn get_cpu_stats(content: &str) -> (r: Result<CpuStats, StatsError>)
    requires
        cpu_fits(content@),
    ensures
        cpu_stats(content@, r),
{
    try_cpu_stats(content).unwrap()
}

/// The bytes received and sent that a line of the network report gives: the first and the
/// ninth word behind its first colon. A line without a colon, or with fewer than nine words
/// behind it, gives none.
pub open spec fn traffic_line(line: Seq<char>) -> (u64, u64) {
    let n = text::run(line, Class::IsNot(':'));
    let w = words(line.skip(n as int + 1));
    if n < line.len() && w.len() >= 9 {
        (number::number_or(w[0], 0), number::number_or(w[8], 0))
    } else {
        (0, 0)
    }
}

/// Reads the bytes received and sent that a line of the network report gives.
fn read_traffic_line(line: &[char]) -> (r: (u64, u64))
    ensures
        r == traffic_line(line@),
{
    assert(line@.skip(0) =~= line@);
    let colon: usize = span(line, 0, Class::IsNot(':'));
    if colon >= line.len() {
        return (0, 0);
    }
    let data = slice(line, colon + 1, line.len());
    assert(data@ =~= line@.skip(colon as int + 1));
    let w = split_words(&data);
    assert(seqs(w@).len() == w@.len());
    if w.len() >= 9 {
        assert(seqs(w@)[0] == w@[0]@);
        assert(seqs(w@)[8] == w@[8]@);
        (parse_number_or(&w[0], 0), parse_number_or(&w[8], 0))
    } else {
        (0, 0)
    }
}

/// The bytes that the lines give as received.
pub open spec fn received(ls: Seq<Seq<char>>) -> nat {
    text::sum(ls, |line: Seq<char>| traffic_line(line).0)
}

/// The bytes that the lines give as sent.
pub open spec fn sent(ls: Seq<Seq<char>>) -> nat {
    text::sum(ls, |line: Seq<char>| traffic_line(line).1)
}

/// The lines of the network report behind its two headings.
pub open spec fn traffic_lines(content: Seq<char>) -> Seq<Seq<char>> {
    beyond(lines(content), 2)
}

/// Whether the bytes received, and those sent, can be counted in 64 bits.
pub open spec fn traffic_fits(content: Seq<char>) -> bool {
    received(traffic_lines(content)) <= u64::MAX && sent(traffic_lines(content)) <= u64::MAX
}

/// Reads the kilobytes received and sent from the text of `/proc/net/dev`, if the bytes can
/// be counted in 64 bits.
pub fn try_network_stats(content: &str) -> (r: Option<(u64, u64)>)
    ensures
        match r {
            Some((rx, tx)) => {
                &&& traffic_fits(content@)
                &&& rx == received(traffic_lines(content@)) / 1024
                &&& tx == sent(traffic_lines(content@)) / 1024
            },
            None => !traffic_fits(content@),
        },
{
    let all = split_lines(&chars(content));
    let ghost ls = lines(content@);
    let ghost tail = traffic_lines(content@);
    assert(all@.len() == ls.len());
    let start: usize = if all.len() >= 2 { 2 } else { all.len() };
    assert(tail =~= ls.skip(start as int));
    assert(tail.take(0) =~= Seq::empty());
    let mut rx: u64 = 0;
    let mut tx: u64 = 0;
    for i in start..all.len()
        invariant
            start <= i <= all@.len(),
            seqs(all@) == ls,
            tail == traffic_lines(content@),
            tail == ls.skip(start as int),
            rx == received(tail.take(i - start)),
            tx == sent(tail.take(i - start)),
    {
        assert(seqs(all@)[i as int] == all@[i as int]@);
        let ghost now = tail.take(i - start + 1);
        assert(now.last() == ls[i as int]);
        assert(now.drop_last() =~= tail.take(i - start));
        proof {
            text::lemma_sum_prefix(
                tail,
                |line: Seq<char>| traffic_line(line).0,
                i - start + 1,
            );
            text::lemma_sum_prefix(
                tail,
                |line: Seq<char>| traffic_line(line).1,
                i - start + 1,
            );
        }
        let (r, t) = read_traffic_line(&all[i]);
        match (rx.checked_add(r), tx.checked_add(t)) {
            (Some(more_rx), Some(more_tx)) => {
                rx = more_rx;
                tx = more_tx;
            },
            _ => {
                return None;
            },
        }
    }
    assert(tail.take(tail.len() as int) =~= tail);
    Some((rx / 1024, tx / 1024))
}

/// Reads the kilobytes received and sent from the text of `/proc/net/dev`.
pub fn get_network_stats(content: &str) -> (r: (u64, u64))
    requires
        traffic_fits(content@),
    ensures
        r.0 == received(traffic_lines(content@)) / 1024,
        r.1 == sent(traffic_lines(content@)) / 1024,
{
    try_network_stats(content).unwrap()
}

/// Reads the charge of a battery, in percent, and its state, from the texts of its files
/// `capacity` and `status`, if the charge is a number.
pub fn get_battery_stats(capacity: &str, status: &str) -> (r: Option<(u64, String)>)
    ensures
        match r {
            Some((charge, state)) => {
                &&& number::number(trim(capacity@)) == Some(charge)
                &&& state@ == trim(status@)
            },
            None => number::number(trim(capacity@)) is None,
        },
{
    let charge = parse_number(&trimmed(&chars(capacity)));
    match charge {
        Some(n) => Some((n, string(&trimmed(&chars(status))))),
        None => None,
    }
}

/// Once both figures of the memory are known, further lines change nothing.
pub proof fn law_memory_settled(ls: Seq<Seq<char>>, more: Seq<Seq<char>>)
    requires
        MemScan::after(ls).done(),
    ensures
        MemScan::after(ls + more) == MemScan::after(ls),
    decreases more.len(),
{
    if more.len() == 0 {
        assert(ls + more =~= ls);
    } else {
        law_memory_settled(ls, more.drop_last());
        assert((ls + more).drop_last() =~= ls + more.drop_last());
        assert((ls + more).last() == more.last());
    }
}

/// Whatever text follows a report that ends with a line feed and gives both figures, the memory
/// is the same.
pub proof fn law_memory_ignores_tail(report: Seq<char>, tail: Seq<char>)
    requires
        report.len() > 0 && report.last() == '\n',
        MemScan::after(lines(report)).done(),
    ensures
        MemScan::after(lines(report + tail)) == MemScan::after(lines(report)),
{
    text::law_lines_add(report, tail);
    law_memory_settled(lines(report), lines(tail));
}

/// Whether `line` gives the total or the available memory.
pub open spec fn about_memory(line: Seq<char>) -> bool {
    begins(line, "MemTotal:"@) || begins(line, "MemAvailable:"@)
}

/// Whether, of the lines, the one at `t` alone gives the total and the one at `a` alone the
/// available memory.
pub open spec fn gives_once(ls: Seq<Seq<char>>, t: int, a: int) -> bool {
    &&& 0 <= t < ls.len()
    &&& 0 <= a < ls.len()
    &&& begins(ls[t], "MemTotal:"@)
    &&& begins(ls[a], "MemAvailable:"@)
    &&& forall|i: int| 0 <= i < ls.len() && i != t && i != a ==> !about_memory(#[trigger] ls[i])
}

/// No line gives both figures.
pub proof fn lemma_names_differ(line: Seq<char>)
    ensures
        !(begins(line, "MemTotal:"@) && begins(line, "MemAvailable:"@)),
{
    reveal_strlit("MemTotal:");
    reveal_strlit("MemAvailable:");
    if begins(line, "MemTotal:"@) && begins(line, "MemAvailable:"@) {
        assert(line.subrange(0, 9)[3] == line[3]);
        assert(line.subrange(0, 13)[3] == line[3]);
    }
}

/// What is known once the first `n` lines have been read, if each figure is given once.
proof fn lemma_given_once(ls: Seq<Seq<char>>, t: int, a: int, n: int)
    requires
        gives_once(ls, t, a),
        0 <= n <= ls.len(),
    ensures
        MemScan::after(ls.take(n)) == (MemScan {
            total: if t < n {
                figure(ls[t])
            } else {
                0
            },
            available: if a < n {
                figure(ls[a])
            } else {
                0
            },
        }),
    decreases n,
{
    lemma_names_differ(ls[t]);
    lemma_names_differ(ls[a]);
    if n > 0 {
        let now = ls.take(n);
        lemma_given_once(ls, t, a, n - 1);
        assert(now.drop_last() =~= ls.take(n - 1));
        assert(now.last() == ls[n - 1]);
        if n - 1 != t && n - 1 != a {
            assert(!about_memory(ls[n - 1]));
        }
    }
}

/// Where each figure is given by one line, the memory is what these two lines give, wherever
/// they stand.
pub proof fn law_memory_of_two_lines(ls: Seq<Seq<char>>, t: int, a: int)
    requires
        gives_once(ls, t, a),
    ensures
        MemScan::after(ls) == (MemScan { total: figure(ls[t]), available: figure(ls[a]) }),
        figure(ls[t]) != 0 && figure(ls[a]) != 0 ==> MemScan::after(ls).done(),
{
    lemma_given_once(ls, t, a, ls.len() as int);
    assert(ls.take(ls.len() as int) =~= ls);
}

/// Two reports that differ only in that the line on the total and the line on the available
/// memory have changed places give the same memory.
pub proof fn law_memory_lines_swapped(report: Seq<char>, swapped: Seq<char>, t: int, a: int)
    requires
        gives_once(lines(report), t, a),
        lines(swapped) == lines(report).update(t, lines(report)[a]).update(a, lines(report)[t]),
    ensures
        MemScan::after(lines(swapped)) == MemScan::after(lines(report)),
{
    let ls = lines(report);
    let other = lines(swapped);
    lemma_names_differ(ls[t]);
    law_memory_of_two_lines(ls, t, a);
    assert forall|i: int| 0 <= i < other.len() && i != t && i != a implies !about_memory(
        #[trigger] other[i],
    ) by {
        assert(other[i] == ls[i]);
    }
    law_memory_of_two_lines(other, a, t);
}

/// Feeding the lines of a report one by one reads the memory that the whole report gives.
pub proof fn law_memory_line_by_line(ls: Seq<Seq<char>>, line: Seq<char>)
    ensures
        MemScan::after(Seq::empty()) == MemScan::start(),
        MemScan::after(ls.push(line)) == MemScan::after(ls).with_line(line),
{
    assert(ls.push(line).drop_last() =~= ls);
}

/// The used and the available memory make up the total, unless more is available than there
/// is.
pub proof fn law_memory_adds_up(scan: MemScan)
    requires
        scan.available <= scan.total,
    ensures
        scan.stats().used_kb + scan.stats().available_kb == scan.stats().total_kb,
{
}

/// The memory always fits its bar.
pub proof fn law_memory_fits_bar(scan: MemScan, bars: u8)
    ensures
        percent::cells(scan.stats().used_percent, bars) <= bars,
{
    percent::law_part_fits_bar(scan.stats().used_kb as nat, scan.total as nat, bars);
}

/// A line about the whole processor or about a core never gives a load above a hundred
/// percent, nor below zero.
pub proof fn law_usage_at_most_hundred(raw: CpuRaw)
    requires
        raw.fits(),
    ensures
        raw.usage() matches Single::Finite { negative, mant, exp } && !negative && (mant == 0
            || exp < -17 || (exp == -17 && mant <= 13_107_200)),
{
    let busy = (raw.total() - raw.rest()) as nat;
    let share = percent::percent(busy, raw.total());
    percent::law_share_at_most_hundred(busy, raw.total());
    percent::lemma_share_range(busy, raw.total());
    percent::lemma_hundred();
    if share.mant > 0 {
        binary::lemma_nearest_bounds(
            share.mant as nat,
            0x2000_0000,
            binary::SINGLE_MIN as nat,
        );
        binary::lemma_nearest_bounds(
            share.mant as nat,
            0x2000_0000,
            binary::SINGLE_END as nat,
        );
        binary::lemma_nearest_bounds(share.mant as nat, 0x2000_0000, 13_107_200);
    }
}

/// The traffic of the lines of two reports is that of the one and that of the other.
pub proof fn law_traffic_adds(a: Seq<Seq<char>>, b: Seq<Seq<char>>)
    ensures
        received(a + b) == received(a) + received(b),
        sent(a + b) == sent(a) + sent(b),
{
    text::law_sum_adds(a, b, |line: Seq<char>| traffic_line(line).0);
    text::law_sum_adds(a, b, |line: Seq<char>| traffic_line(line).1);
}

} // verus!
