//! What the files of a Linux kernel give, in terms of their lines.
use vstd::prelude::*;

use crate::binary::double_of;
use crate::laws::number::law_decimal_form;
use crate::laws::stats::reads_as;
use crate::laws::text::{all_white, law_begins, law_no_words, law_one_word, law_words_apart};
use crate::linux::{
    core_line, core_usages, cores_fit, cpu_fits, cpu_line, cpu_stats, figure, gives_once,
    law_memory_of_two_lines, received, sent, traffic_fits, traffic_line, traffic_lines, CpuRaw,
    MemScan,
};
use crate::number::{decimal, is_digit, law_decimal_reads_back, number};
use crate::percent::{law_nothing_is_zero, law_whole_is_hundred, percent};
use crate::single::{single_of, Single};
use crate::stats::{CpuStats, StatsError};
use crate::text;
use crate::text::{begins, is_white, is_word, join, law_words_of_joined, lines, words, Class};

verus! {

/// Whether `s` is empty or begins with white space.
pub open spec fn parted(s: Seq<char>) -> bool {
    s.len() == 0 || is_white(s[0])
}

/// A text with a word before it, and white space or nothing between, has that word before its
/// others.
pub proof fn lemma_word_first(w: Seq<char>, tail: Seq<char>)
    requires
        is_word(w),
        parted(tail),
    ensures
        words(w + tail) == seq![w] + words(tail),
{
    law_one_word(w);
    if tail.len() == 0 {
        assert(w + tail =~= w);
        law_no_words(tail);
        assert(seq![w] + words(tail) =~= seq![w]);
    } else {
        let gap = seq![tail[0]];
        let rest = tail.skip(1);
        law_words_apart(w, gap, rest);
        assert(w + gap + rest =~= w + tail);
        law_words_apart(Seq::empty(), gap, rest);
        law_no_words(Seq::empty());
        assert(Seq::<char>::empty() + gap + rest =~= tail);
        assert(words(tail) =~= words(rest));
    }
}

/// A line that begins with a name, and then, parted by white space, a number, has these two as
/// its first words.
pub proof fn lemma_named_number(name: Seq<char>, gap: Seq<char>, n: nat, tail: Seq<char>)
    requires
        is_word(name),
        gap.len() > 0,
        all_white(gap),
        parted(tail),
    ensures
        words(name + gap + decimal(n) + tail) == seq![name, decimal(n)] + words(tail),
{
    law_decimal_form(n);
    let rest = decimal(n) + tail;
    law_words_apart(name, gap, rest);
    law_one_word(name);
    lemma_word_first(decimal(n), tail);
    assert(name + gap + rest =~= name + gap + decimal(n) + tail);
    assert(seq![name] + (seq![decimal(n)] + words(tail)) =~= seq![name, decimal(n)] + words(tail));
}

/// A line that names the total memory and gives a number, however far behind the name and
/// whatever stands behind the number, sets the total and leaves the available memory; and one
/// that names the available memory sets that and leaves the total. Once both are known, and for
/// any other line, nothing changes.
pub proof fn law_memory_line(
    scan: MemScan,
    gap: Seq<char>,
    n: u64,
    tail: Seq<char>,
    line: Seq<char>,
)
    requires
        gap.len() > 0,
        all_white(gap),
        parted(tail),
    ensures
        scan.total == 0 || scan.available == 0 ==> scan.with_line(
            "MemTotal:"@ + gap + decimal(n as nat) + tail,
        ) == (MemScan { total: n, available: scan.available }),
        scan.total == 0 || scan.available == 0 ==> scan.with_line(
            "MemAvailable:"@ + gap + decimal(n as nat) + tail,
        ) == (MemScan { total: scan.total, available: n }),
        scan.total != 0 && scan.available != 0 ==> scan.with_line(line) == scan,
        !begins(line, "MemTotal:"@) && !begins(line, "MemAvailable:"@) ==> scan.with_line(line)
            == scan,
        MemScan::start().total == 0 && MemScan::start().available == 0,
{
    reveal_strlit("MemTotal:");
    reveal_strlit("MemAvailable:");
    let t = "MemTotal:"@;
    let a = "MemAvailable:"@;
    let lt = t + gap + decimal(n as nat) + tail;
    let la = a + gap + decimal(n as nat) + tail;
    lemma_named_number(t, gap, n as nat, tail);
    lemma_named_number(a, gap, n as nat, tail);
    law_decimal_reads_back(n);
    law_begins(lt, t, gap + decimal(n as nat) + tail);
    law_begins(la, a, gap + decimal(n as nat) + tail);
    assert(t + (gap + decimal(n as nat) + tail) =~= lt);
    assert(a + (gap + decimal(n as nat) + tail) =~= la);
    crate::linux::lemma_names_differ(la);
    assert(words(lt)[1] == decimal(n as nat));
    assert(words(la)[1] == decimal(n as nat));
}

/// A line that names a figure without a number gives zero for it.
pub proof fn law_memory_line_without_number(line: Seq<char>)
    ensures
        words(line).len() < 2 ==> figure(line) == 0,
        words(line).len() >= 2 ==> reads_as(words(line)[1], figure(line)),
{
}

/// A report in which one line gives the total and one the available memory, wherever they stand,
/// describes that memory: the figures as they are given, what is not available as used, or
/// nothing where more is available than there is, and the used share of the total.
pub proof fn law_memory_of_report(
    report: Seq<char>,
    t: int,
    a: int,
    gap: Seq<char>,
    total: u64,
    available: u64,
    tail: Seq<char>,
)
    requires
        gap.len() > 0,
        all_white(gap),
        parted(tail),
        gives_once(lines(report), t, a),
        lines(report)[t] == "MemTotal:"@ + gap + decimal(total as nat) + tail,
        lines(report)[a] == "MemAvailable:"@ + gap + decimal(available as nat) + tail,
    ensures
        ({
            let stats = MemScan::after(lines(report)).stats();
            &&& stats.total_kb == total
            &&& stats.available_kb == available
            &&& available <= total ==> stats.used_kb + available == total
            &&& available > total ==> stats.used_kb == 0
            &&& stats.used_percent == percent(stats.used_kb as nat, total as nat)
        }),
{
    reveal_strlit("MemTotal:");
    reveal_strlit("MemAvailable:");
    law_memory_of_two_lines(lines(report), t, a);
    lemma_named_number("MemTotal:"@, gap, total as nat, tail);
    lemma_named_number("MemAvailable:"@, gap, available as nat, tail);
    law_decimal_reads_back(total);
    law_decimal_reads_back(available);
    assert(words(lines(report)[t])[1] == decimal(total as nat));
    assert(words(lines(report)[a])[1] == decimal(available as nat));
}

/// Whatever the figures, what is shown as the memory holds them, and the used and the available
/// amount make up the total, or nothing is used.
pub proof fn law_memory_figures(scan: MemScan)
    ensures
        scan.stats().total_kb == scan.total,
        scan.stats().available_kb == scan.available,
        scan.available <= scan.total ==> scan.stats().used_kb == scan.total - scan.available,
        scan.available > scan.total ==> scan.stats().used_kb == 0,
        scan.stats().used_percent == percent(scan.stats().used_kb as nat, scan.total as nat),
{
}

/// The words of a line about a processor, from the second to the ninth, give its times; those
/// that are not there count as zero, and further words do not count. A line of fewer than five
/// words gives none.
pub proof fn law_cpu_times(line: Seq<char>)
    ensures
        words(line).len() < 5 ==> cpu_line(line) is None,
        words(line).len() >= 5 ==> ({
            let w = words(line);
            &&& cpu_line(line) is Some
            &&& reads_as(w[1], cpu_line(line)->0.user)
            &&& reads_as(w[2], cpu_line(line)->0.nice)
            &&& reads_as(w[3], cpu_line(line)->0.system)
            &&& reads_as(w[4], cpu_line(line)->0.idle)
            &&& w.len() > 5 ==> reads_as(w[5], cpu_line(line)->0.iowait)
            &&& w.len() <= 5 ==> cpu_line(line)->0.iowait == 0
            &&& w.len() > 6 ==> reads_as(w[6], cpu_line(line)->0.irq)
            &&& w.len() <= 6 ==> cpu_line(line)->0.irq == 0
            &&& w.len() > 7 ==> reads_as(w[7], cpu_line(line)->0.softirq)
            &&& w.len() <= 7 ==> cpu_line(line)->0.softirq == 0
            &&& w.len() > 8 ==> reads_as(w[8], cpu_line(line)->0.steal)
            &&& w.len() <= 8 ==> cpu_line(line)->0.steal == 0
        }),
{
}

/// The load is the share that the six working times are of all eight; the time that waits for
/// input and output is no work.
pub proof fn law_load_is_share_of_work(raw: CpuRaw)
    ensures
        raw.usage() == single_of(
            percent(
                (raw.user + raw.nice + raw.system + raw.irq + raw.softirq + raw.steal) as nat,
                (raw.user + raw.nice + raw.system + raw.irq + raw.softirq + raw.steal + raw.idle
                    + raw.iowait) as nat,
            ),
        ),
        raw.total() == raw.user + raw.nice + raw.system + raw.irq + raw.softirq + raw.steal
            + raw.idle + raw.iowait,
        raw.fits() <==> raw.total() <= 0xffff_ffff_ffff_ffff,
{
}

/// Time that moves between idling and waiting leaves the load as it was, as does time that moves
/// between two kinds of work.
pub proof fn law_load_by_sums(a: CpuRaw, b: CpuRaw)
    requires
        a.idle + a.iowait == b.idle + b.iowait,
        a.user + a.nice + a.system + a.irq + a.softirq + a.steal == b.user + b.nice + b.system
            + b.irq + b.softirq + b.steal,
    ensures
        a.usage() == b.usage(),
{
}

/// A processor that never rests has a load of a hundred percent, and one that never works of
/// zero.
pub proof fn law_load_ends(raw: CpuRaw)
    requires
        0 < raw.total() <= u64::MAX,
    ensures
        raw.idle == 0 && raw.iowait == 0 ==> raw.usage() == single_of(double_of(100)),
        raw.idle + raw.iowait == raw.total() ==> raw.usage() == single_of(double_of(0)),
{
    law_whole_is_hundred(raw.total());
    law_nothing_is_zero(raw.total());
}

/// A line that begins with `cpu` and a digit is about a core, and gives it the times that the
/// same words give the whole processor. No other line is about a core.
pub proof fn law_core_lines(line: Seq<char>, rest: Seq<char>, d: char)
    ensures
        is_digit(d) ==> core_line("cpu"@ + seq![d] + rest) == cpu_line("cpu"@ + seq![d] + rest),
        !is_digit(d) ==> core_line("cpu"@ + seq![d] + rest) is None,
        core_line("cpu"@) is None,
        !begins(line, "cpu"@) ==> core_line(line) is None,
{
    reveal_strlit("cpu");
    let s = "cpu"@ + seq![d] + rest;
    law_begins(s, "cpu"@, seq![d] + rest);
    assert("cpu"@ + (seq![d] + rest) =~= s);
    assert(s[3] == d);
}

/// The loads of the cores of some lines and then others are those of the ones and then those of
/// the others.
pub proof fn law_cores_add(a: Seq<Seq<char>>, b: Seq<Seq<char>>)
    ensures
        core_usages(a + b) == core_usages(a) + core_usages(b),
    decreases b.len(),
{
    if b.len() == 0 {
        assert(a + b =~= a);
        assert(core_usages(a) + core_usages(b) =~= core_usages(a));
    } else {
        law_cores_add(a, b.drop_last());
        assert((a + b).drop_last() =~= a + b.drop_last());
        assert((a + b).last() == b.last());
        assert(core_usages(a + b) =~= core_usages(a) + core_usages(b));
    }
}

/// A report gives the load of its first line over all, and then one load for each line about a
/// core that has had any time, in order; or an error where its first line is missing or short.
pub proof fn law_load_of_report(
    report: Seq<char>,
    r: Result<CpuStats, StatsError>,
    first: Seq<char>,
    ls: Seq<Seq<char>>,
)
    requires
        cpu_stats(report, r),
    ensures
        lines(report).len() == 0 ==> r == Err::<CpuStats, _>(StatsError::EmptyCpuReport),
        lines(report) == seq![first] + ls && words(first).len() < 5 ==> r == Err::<CpuStats, _>(
            StatsError::BadCpuReport,
        ),
        lines(report) == seq![first] + ls && words(first).len() >= 5 ==> r is Ok
            && r->Ok_0.usage_percent == cpu_line(first)->0.usage() && r->Ok_0.cores@ == core_usages(
            ls,
        ),
{
    if lines(report) == seq![first] + ls {
        assert(lines(report)[0] == first);
        assert(lines(report).skip(1) =~= ls);
    }
}

/// The load of a core goes by its times as the load over all does: in a report whose first line
/// is `whole`, a core with the same times, above zero, has the load that is given over all.
pub proof fn law_core_as_whole(
    report: Seq<char>,
    r: Result<CpuStats, StatsError>,
    whole: Seq<char>,
    before: Seq<Seq<char>>,
    core: Seq<char>,
    behind: Seq<Seq<char>>,
)
    requires
        cpu_stats(report, r),
        lines(report) == seq![whole] + before + seq![core] + behind,
        cpu_line(whole) is Some,
        core_line(core) is Some,
        core_line(core) == cpu_line(whole),
        cpu_line(whole)->0.total() > 0,
    ensures
        r is Ok,
        core_usages(before).len() < r->Ok_0.cores@.len(),
        r->Ok_0.cores@[core_usages(before).len() as int] == r->Ok_0.usage_percent,
        r->Ok_0.cores@.len() == core_usages(before).len() + 1 + core_usages(behind).len(),
{
    let one = seq![core];
    let ls = before + one + behind;
    assert(lines(report) =~= seq![whole] + ls);
    law_load_of_report(report, r, whole, ls);
    law_cpu_times(whole);
    law_cores_add(before + one, behind);
    law_cores_add(before, one);
    law_core_load(core);
}

/// A core has the load of its times, whatever the rest of the report: ticks that move from idle
/// to waiting in its line change nothing.
pub proof fn law_core_load(core: Seq<char>)
    ensures
        core_line(core) is Some && core_line(core)->0.total() > 0 ==> core_usages(seq![core])
            == seq![core_line(core)->0.usage()],
        core_line(core) is None || core_line(core)->0.total() == 0 ==> core_usages(seq![core])
            == Seq::<Single>::empty(),
{
    let one = seq![core];
    assert(one.drop_last().len() == 0);
    assert(one.last() == core);
    assert(core_usages(one.drop_last()) =~= Seq::empty());
    if core_line(core) is Some && core_line(core)->0.total() > 0 {
        assert(core_usages(one) =~= seq![core_line(core)->0.usage()]);
    }
}

/// A line gives the traffic behind its first colon: of nine words or more, however many, the
/// first is what was received and the ninth what was sent. With fewer words, or without a colon,
/// it gives none.
pub proof fn law_traffic_line(name: Seq<char>, data: Seq<char>, rx: u64, tx: u64)
    requires
        forall|i: int| 0 <= i < name.len() ==> #[trigger] name[i] != ':',
    ensures
        words(data).len() >= 9 && reads_as(words(data)[0], rx) && reads_as(words(data)[8], tx)
            ==> traffic_line(name + seq![':'] + data) == (rx, tx),
        words(data).len() < 9 ==> traffic_line(name + seq![':'] + data) == (0u64, 0u64),
        traffic_line(name) == (0u64, 0u64),
{
    let k = Class::IsNot(':');
    let line = name + seq![':'] + data;
    assert forall|i: int| 0 <= i < name.len() implies k.holds(#[trigger] line[i]) by {
        assert(line[i] == name[i]);
    }
    text::lemma_run_is(line, k, name.len());
    assert(line.skip(name.len() as int + 1) =~= data);
    assert forall|i: int| 0 <= i < name.len() implies k.holds(#[trigger] name[i]) by {}
    text::lemma_run_is(name, k, name.len());
}

/// The line of an interface with columns, nine or more of them, of which the first and the ninth
/// write numbers, gives these as the bytes received and sent.
pub proof fn law_traffic_columns(name: Seq<char>, f: Seq<Seq<char>>, rx: u64, tx: u64)
    requires
        forall|i: int| 0 <= i < name.len() ==> #[trigger] name[i] != ':',
        f.len() >= 9,
        forall|i: int| 0 <= i < f.len() ==> is_word(#[trigger] f[i]),
        f[0] == decimal(rx as nat),
        f[8] == decimal(tx as nat),
    ensures
        traffic_line(name + ": "@ + join(f, " "@)) == (rx, tx),
{
    reveal_strlit(": ");
    let gap = seq![' '];
    let cols = join(f, " "@);
    let none = Seq::<char>::empty();
    law_words_of_joined(f);
    law_words_apart(none, gap, cols);
    law_no_words(none);
    assert(none + gap + cols =~= gap + cols);
    assert(words(none) + words(cols) =~= f);
    law_decimal_reads_back(rx);
    law_decimal_reads_back(tx);
    law_traffic_line(name, gap + cols, rx, tx);
    assert(name + seq![':'] + (gap + cols) =~= name + ": "@ + cols);
}

/// The traffic of a report is that of its lines behind two headings, each counted once.
pub proof fn law_traffic_of_report(
    report: Seq<char>,
    one: Seq<char>,
    two: Seq<char>,
    ls: Seq<Seq<char>>,
    line: Seq<char>,
)
    ensures
        lines(report) == seq![one, two] + ls ==> traffic_lines(report) == ls,
        lines(report).len() < 2 ==> traffic_lines(report).len() == 0,
        received(ls.push(line)) == received(ls) + traffic_line(line).0,
        sent(ls.push(line)) == sent(ls) + traffic_line(line).1,
        received(Seq::empty()) == 0,
        sent(Seq::empty()) == 0,
{
    if lines(report) == seq![one, two] + ls {
        assert(lines(report).skip(2) =~= ls);
    }
    assert(ls.push(line).drop_last() =~= ls);
}

/// All times can be counted if, in the first line and in each line about a core, their sum lies
/// within 64 bits; where the first line is missing or short, nothing is counted.
pub proof fn law_what_can_be_counted(report: Seq<char>, first: Seq<char>, ls: Seq<Seq<char>>)
    ensures
        lines(report).len() == 0 ==> cpu_fits(report),
        lines(report) == seq![first] + ls && words(first).len() < 5 ==> cpu_fits(report),
        lines(report) == seq![first] + ls && words(first).len() >= 5 ==> (cpu_fits(report)
            <==> cpu_line(first)->0.total() <= 0xffff_ffff_ffff_ffff && forall|i: int|
            0 <= i < ls.len() && core_line(#[trigger] ls[i]) is Some ==> core_line(
                ls[i],
            )->0.total() <= 0xffff_ffff_ffff_ffff),
        traffic_fits(report) <==> received(traffic_lines(report)) <= 0xffff_ffff_ffff_ffff && sent(
            traffic_lines(report),
        ) <= 0xffff_ffff_ffff_ffff,
{
    if lines(report) == seq![first] + ls {
        assert(lines(report)[0] == first);
        assert(lines(report).skip(1) =~= ls);
        if words(first).len() >= 5 {
            let raw = cpu_line(first)->0;
            if cpu_fits(report) {
                assert forall|i: int|
                    0 <= i < ls.len() && core_line(#[trigger] ls[i]) is Some implies core_line(
                    ls[i],
                )->0.total() <= 0xffff_ffff_ffff_ffff by {}
            }
            if raw.fits() && forall|i: int|
                0 <= i < ls.len() && core_line(#[trigger] ls[i]) is Some ==> core_line(
                    ls[i],
                )->0.total() <= 0xffff_ffff_ffff_ffff {
                assert(cores_fit(ls));
            }
        }
    }
}

/// The report is read line by line from the start, where nothing is known.
pub proof fn law_memory_in_order(ls: Seq<Seq<char>>, line: Seq<char>)
    ensures
        MemScan::after(Seq::empty()) == (MemScan { total: 0, available: 0 }),
        MemScan::after(ls.push(line)) == MemScan::after(ls).with_line(line),
        MemScan::after(ls).done() <==> MemScan::after(ls).total != 0 && MemScan::after(ls).available
            != 0,
{
    assert(ls.push(line).drop_last() =~= ls);
}

} // verus!
