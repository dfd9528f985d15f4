//! What the commands of macOS give, in terms of what they print.
use vstd::prelude::*;

use crate::laws::linux::{lemma_word_first, parted};
use crate::laws::number::law_decimal_form;
use crate::laws::stats::reads_as;
use crate::laws::text::{all_white, law_begins, law_has, law_trim, law_trim_end};
use crate::macos::{
    about_pages, all_ascii, ascii_battery_line, ascii_battery_lines, battery_line, battery_lines,
    battery_state, digits_in, first_number, first_reading, idle_texts, leading, marked_battery_line,
    memory, memory_fits, memory_size, numerals_in, numeric, page_count, page_kb, page_size,
    pages_fit, received, report_idle_texts, second_piece, sent, set_at_end, share_given, shares,
    traffic, traffic_fits, traffic_line, traffic_lines, usage, PageScan,
};
use crate::number::{decimal, is_digit, law_decimal_reads_back, number};
use crate::percent::percent;
use crate::single::{hundred_less, of_pattern, Single};
use crate::stats::StatsError;
use crate::text;
use crate::text::{begins, first_at, has, is_white, lines, run, stands_at, trim, words, Class};

verus! {

/// The size of the memory is read as a number of bytes, with white space around it, and given in
/// kilobytes; what is no number is an error.
pub proof fn law_memory_size(before: Seq<char>, bytes: u64, behind: Seq<char>, other: Seq<char>)
    requires
        all_white(before),
        all_white(behind),
    ensures
        memory_size(before + decimal(bytes as nat) + behind) == Ok::<u64, StatsError>(bytes / 1024),
        number(trim(other)) is None ==> memory_size(other) == Err::<u64, _>(
            StatsError::BadMemorySize,
        ),
{
    let d = decimal(bytes as nat);
    law_decimal_form(bytes as nat);
    law_decimal_reads_back(bytes);
    assert(!is_white(d[0]) && !is_white(d[d.len() - 1]));
    law_trim(before, d, behind);
}

/// A pattern is found where it stands first.
proof fn lemma_found_at(s: Seq<char>, pat: Seq<char>, i: int)
    requires
        stands_at(s, pat, i),
        forall|j: int| 0 <= j < i ==> !stands_at(s, pat, j),
    ensures
        first_at(s, pat, 0) == Some(i),
{
    text::lemma_first_at(s, pat, 0);
}

/// The size of a page is the number right behind the first `PAGESIZE=` of the first line,
/// whatever stands before it, and behind it after white space. Where there is no such mark, it is
/// 4096.
pub proof fn law_page_size(
    head: Seq<char>,
    size: u64,
    tail: Seq<char>,
    ls: Seq<Seq<char>>,
    other: Seq<char>,
)
    requires
        parted(tail),
        forall|j: int|
            0 <= j < head.len() ==> !stands_at(
                head + "PAGESIZE="@ + decimal(size as nat) + tail,
                "PAGESIZE="@,
                j,
            ),
    ensures
        page_size(seq![head + "PAGESIZE="@ + decimal(size as nat) + tail] + ls) == size,
        !text::has(other, "PAGESIZE="@) ==> page_size(seq![other] + ls) == 4096,
        page_size(Seq::empty()) == 4096,
{
    reveal_strlit("PAGESIZE=");
    let mark = "PAGESIZE="@;
    let d = decimal(size as nat);
    let line = head + mark + d + tail;
    let i = head.len() as int;
    law_decimal_form(size as nat);
    law_decimal_reads_back(size);
    assert(line.subrange(i, i + 9) =~= mark);
    lemma_found_at(line, mark, i);
    text::lemma_first_at(line, mark, i + 9);
    let found = second_piece(line, mark)->0;
    match first_at(line, mark, i + 9) {
        None => {
            assert(found =~= d + tail);
            lemma_word_first(d, tail);
        },
        Some(j) => {
            assert(line.subrange(j, j + 9)[0] == line[j]);
            assert(j >= i + 9 + d.len()) by {
                if j < i + 9 + d.len() {
                    assert(line[j] == d[j - i - 9]);
                    assert(is_digit(d[j - i - 9]));
                }
            }
            let part = tail.take(j - i - 9 - d.len());
            assert(found =~= d + part);
            lemma_word_first(d, part);
        },
    }
    assert(words(found)[0] == d);
    assert((seq![line] + ls)[0] == line);
    assert((seq![other] + ls)[0] == other);
    if !text::has(other, mark) {
        text::lemma_first_at(other, mark, 0);
        if first_at(other, mark, 0) is Some {
            assert(stands_at(other, mark, first_at(other, mark, 0)->0));
        }
    }
}

/// A line counts the pages behind its first colon: a number, with white space around it and full
/// stops behind it, up to the end of the line or the next colon. Their kilobytes are the number
/// times the size of a page, over 1024. A line without a colon counts none.
pub proof fn law_page_count(
    name: Seq<char>,
    gap: Seq<char>,
    n: u64,
    dots: Seq<char>,
    behind: Seq<char>,
    rest: Seq<char>,
    size: u64,
)
    requires
        forall|i: int| 0 <= i < name.len() ==> #[trigger] name[i] != ':',
        all_white(gap),
        all_white(behind),
        forall|i: int| 0 <= i < dots.len() ==> #[trigger] dots[i] == '.',
        rest.len() == 0 || rest[0] == ':',
    ensures
        ({
            let line = name + seq![':'] + gap + decimal(n as nat) + dots + behind + rest;
            &&& page_count(line) == n
            &&& pages_fit(line, size) <==> n * size <= 0xffff_ffff_ffff_ffff
            &&& n * size <= 0xffff_ffff_ffff_ffff ==> page_kb(line, size) == n as int * size as int
                / 1024
        }),
        page_count(name) == 0,
{
    let d = decimal(n as nat);
    let field = gap + (d + dots) + behind;
    let line = name + seq![':'] + gap + d + dots + behind + rest;
    let k = Class::IsNot(':');
    law_decimal_form(n as nat);
    law_decimal_reads_back(n);
    assert forall|i: int| 0 <= i < name.len() implies k.holds(#[trigger] line[i]) by {
        assert(line[i] == name[i]);
    }
    assert(line[name.len() as int] == ':');
    text::lemma_run_is(line, k, name.len());
    let after = line.skip(name.len() as int + 1);
    assert(after =~= field + rest);
    assert forall|i: int| 0 <= i < field.len() implies k.holds(#[trigger] after[i]) by {
        assert(after[i] == field[i]);
        if i < gap.len() {
            assert(field[i] == gap[i]);
        } else if i < gap.len() + d.len() {
            assert(field[i] == d[i - gap.len()]);
            assert(is_digit(d[i - gap.len()]));
        } else if i < gap.len() + d.len() + dots.len() {
            assert(field[i] == dots[i - gap.len() - d.len()]);
        } else {
            assert(field[i] == behind[i - gap.len() - d.len() - dots.len()]);
        }
    }
    if rest.len() > 0 {
        assert(after[field.len() as int] == rest[0]);
    }
    text::lemma_run_is(after, k, field.len());
    assert(after.take(field.len() as int) =~= field);
    let body = d + dots;
    assert(body[0] == d[0]);
    assert(!is_white(body[0]));
    assert(!is_white(body.last())) by {
        if dots.len() > 0 {
            assert(body.last() == dots[dots.len() - 1]);
        } else {
            assert(body.last() == d[d.len() - 1]);
            assert(is_digit(d[d.len() - 1]));
        }
    }
    law_trim(gap, body, behind);
    assert(is_digit(d[d.len() - 1]));
    assert forall|i: int| 0 <= i < dots.len() implies Class::Is('.').holds(#[trigger] dots[i]) by {}
    law_trim_end(d, dots, Class::Is('.'));
    assert forall|i: int| 0 <= i < name.len() implies k.holds(#[trigger] name[i]) by {}
    text::lemma_run_is(name, k, name.len());
}

/// Each kind of pages is found by the name that its line begins with, and sets its own figure
/// alone; a line with another name sets none.
pub proof fn law_page_lines(scan: PageScan, size: u64, rest: Seq<char>, other: Seq<char>)
    ensures
        scan.with_line("Pages free:"@ + rest, size) == (PageScan {
            free: page_kb("Pages free:"@ + rest, size),
            active: scan.active,
            inactive: scan.inactive,
            wired: scan.wired,
            compressed: scan.compressed,
        }),
        scan.with_line("Pages active:"@ + rest, size) == (PageScan {
            free: scan.free,
            active: page_kb("Pages active:"@ + rest, size),
            inactive: scan.inactive,
            wired: scan.wired,
            compressed: scan.compressed,
        }),
        scan.with_line("Pages inactive:"@ + rest, size) == (PageScan {
            free: scan.free,
            active: scan.active,
            inactive: page_kb("Pages inactive:"@ + rest, size),
            wired: scan.wired,
            compressed: scan.compressed,
        }),
        scan.with_line("Pages wired down:"@ + rest, size) == (PageScan {
            free: scan.free,
            active: scan.active,
            inactive: scan.inactive,
            wired: page_kb("Pages wired down:"@ + rest, size),
            compressed: scan.compressed,
        }),
        scan.with_line("Compressor page count:"@ + rest, size) == (PageScan {
            free: scan.free,
            active: scan.active,
            inactive: scan.inactive,
            wired: scan.wired,
            compressed: page_kb("Compressor page count:"@ + rest, size),
        }),
        !begins(other, "Pages free:"@) && !begins(other, "Pages active:"@) && !begins(
            other,
            "Pages inactive:"@,
        ) && !begins(other, "Pages wired down:"@) && !begins(other, "Compressor page count:"@)
            ==> scan.with_line(other, size) == scan && !about_pages(other),
        about_pages("Pages free:"@ + rest),
        about_pages("Pages active:"@ + rest),
        about_pages("Pages inactive:"@ + rest),
        about_pages("Pages wired down:"@ + rest),
        about_pages("Compressor page count:"@ + rest),
{
    reveal_strlit("Pages free:");
    reveal_strlit("Pages active:");
    reveal_strlit("Pages inactive:");
    reveal_strlit("Pages wired down:");
    reveal_strlit("Compressor page count:");
    let f = "Pages free:"@;
    let a = "Pages active:"@;
    let i = "Pages inactive:"@;
    let w = "Pages wired down:"@;
    let c = "Compressor page count:"@;
    law_begins(rest, f, rest);
    law_begins(rest, a, rest);
    law_begins(rest, i, rest);
    law_begins(rest, w, rest);
    law_begins(rest, c, rest);
    lemma_other_name(a + rest, f);
    lemma_other_name(i + rest, f);
    lemma_other_name(i + rest, a);
    lemma_other_name(w + rest, f);
    lemma_other_name(w + rest, a);
    lemma_other_name(w + rest, i);
    lemma_other_name(c + rest, f);
    lemma_other_name(c + rest, a);
    lemma_other_name(c + rest, i);
    lemma_other_name(c + rest, w);
}

/// Lines whose seventh characters differ from that of a name do not begin with it.
proof fn lemma_other_name(line: Seq<char>, name: Seq<char>)
    requires
        name.len() > 6,
        line.len() > 6,
        line[6] != name[6],
    ensures
        !begins(line, name),
{
    if begins(line, name) {
        assert(line.subrange(0, name.len() as int)[6] == line[6]);
    }
}

/// The figures of a report are those of its lines in order, a later one in place of an earlier
/// one, with the white space around each line left out.
pub proof fn law_pages_in_order(
    ls: Seq<Seq<char>>,
    before: Seq<char>,
    line: Seq<char>,
    behind: Seq<char>,
    size: u64,
)
    requires
        all_white(before),
        all_white(behind),
        line.len() > 0 ==> !is_white(line[0]) && !is_white(line.last()),
    ensures
        PageScan::after(ls.push(before + line + behind), size) == PageScan::after(
            ls,
            size,
        ).with_line(line, size),
        PageScan::after(Seq::empty(), size) == (PageScan {
            free: 0,
            active: 0,
            inactive: 0,
            wired: 0,
            compressed: 0,
        }),
{
    law_trim(before, line, behind);
    assert(ls.push(before + line + behind).drop_last() =~= ls);
}

/// What is free or inactive can be had, and what is active, wired or compressed is used, all in
/// kilobytes; the share is that of the used in the total.
pub proof fn law_memory_by_pages(scan: PageScan, total: u64)
    ensures
        scan.sums_fit() <==> scan.free + scan.inactive <= 0xffff_ffff_ffff_ffff && scan.active
            + scan.wired + scan.compressed <= 0xffff_ffff_ffff_ffff,
        scan.sums_fit() ==> ({
            let stats = scan.stats(total);
            &&& stats.total_kb == total
            &&& stats.available_kb == scan.free + scan.inactive
            &&& stats.used_kb == scan.active + scan.wired + scan.compressed
            &&& stats.used_percent == percent(stats.used_kb as nat, total as nat)
        }),
{
}

/// The memory of a report is that of all its lines, with the size of a page that its first line
/// gives. It can be counted if every line about pages and both sums can.
pub proof fn law_memory_of_report(total: u64, report: Seq<char>)
    ensures
        memory(total, report) == PageScan::after(lines(report), page_size(lines(report))).stats(
            total,
        ),
        memory_fits(report) <==> (forall|i: int|
            0 <= i < lines(report).len() && about_pages(trim(#[trigger] lines(report)[i]))
                ==> page_count(trim(lines(report)[i])) * page_size(lines(report))
                <= 0xffff_ffff_ffff_ffff) && PageScan::after(
            lines(report),
            page_size(lines(report)),
        ).sums_fit(),
{
    assert forall|i: int|
        0 <= i < lines(report).len() && about_pages(
            trim(#[trigger] lines(report)[i]),
        ) implies pages_fit(trim(lines(report)[i]), page_size(lines(report))) == (page_count(
        trim(lines(report)[i]),
    ) * page_size(lines(report)) <= 0xffff_ffff_ffff_ffff) by {}
}

/// The shares in the words of two texts are those of the second and then those of the first.
pub proof fn law_shares_from_the_last(a: Seq<Seq<char>>, b: Seq<Seq<char>>)
    ensures
        shares(a + b) == shares(b) + shares(a),
    decreases b.len(),
{
    if b.len() == 0 {
        assert(a + b =~= a);
        assert(shares(b) + shares(a) =~= shares(a));
    } else {
        law_shares_from_the_last(a, b.drop_last());
        assert((a + b).drop_last() =~= a + b.drop_last());
        assert((a + b).last() == b.last());
        assert(shares(a + b) =~= shares(b) + shares(a));
    }
}

/// A word with percent signs behind it is a share, which is given without them; a word without
/// is none.
pub proof fn law_share_of_word(w: Seq<char>, signs: Seq<char>)
    requires
        signs.len() > 0,
        forall|i: int| 0 <= i < signs.len() ==> #[trigger] signs[i] == '%',
        w.len() > 0 ==> w.last() != '%',
    ensures
        shares(seq![w + signs]) == seq![w],
        shares(seq![w]) == Seq::<Seq<char>>::empty(),
{
    let one = seq![w + signs];
    assert forall|i: int| 0 <= i < signs.len() implies Class::Is('%').holds(
        #[trigger] signs[i],
    ) by {}
    law_trim_end(w, signs, Class::Is('%'));
    assert((w + signs).last() == signs[signs.len() - 1]);
    assert(one.drop_last().len() == 0);
    assert(shares(one.drop_last()) =~= Seq::empty());
    assert(shares(one) =~= seq![w]);
    let other = seq![w];
    assert(other.drop_last().len() == 0);
    assert(shares(other.drop_last()) =~= Seq::empty());
}

/// The texts that may give the idle share are the shares between the first `CPU usage:` of a line
/// and the first `idle` behind it, from the last to the first. A line without the one or the
/// other has none.
pub proof fn law_idle_line(head: Seq<char>, mid: Seq<char>, tail: Seq<char>, other: Seq<char>)
    requires
        forall|j: int|
            0 <= j < head.len() ==> !stands_at(
                head + "CPU usage:"@ + mid + "idle"@ + tail,
                "CPU usage:"@,
                j,
            ),
        forall|j: int|
            0 <= j < mid.len() + 10 ==> !stands_at(
                "CPU usage:"@ + mid + "idle"@ + tail,
                "idle"@,
                j,
            ),
    ensures
        idle_texts(head + "CPU usage:"@ + mid + "idle"@ + tail) == shares(
            words("CPU usage:"@ + mid),
        ),
        !text::has(other, "CPU usage:"@) ==> idle_texts(other) == Seq::<Seq<char>>::empty(),
        !text::has(other, "idle"@) ==> idle_texts(other) == Seq::<Seq<char>>::empty(),
{
    reveal_strlit("CPU usage:");
    reveal_strlit("idle");
    let mark = "CPU usage:"@;
    let idle = "idle"@;
    let line = head + mark + mid + idle + tail;
    let i = head.len() as int;
    assert(line.subrange(i, i + 10) =~= mark);
    lemma_found_at(line, mark, i);
    let part = line.skip(i);
    assert(part =~= mark + mid + idle + tail);
    let j = (mid.len() + 10) as int;
    assert(part.subrange(j, j + 4) =~= idle);
    lemma_found_at(part, idle, j);
    assert(part.take(j) =~= mark + mid);
    text::lemma_first_at(other, mark, 0);
    if first_at(other, mark, 0) is Some {
        let k = first_at(other, mark, 0)->0;
        assert(stands_at(other, mark, k));
        let rest = other.skip(k);
        text::lemma_first_at(rest, idle, 0);
        if first_at(rest, idle, 0) is Some {
            let m = first_at(rest, idle, 0)->0;
            assert(rest.subrange(m, m + 4) =~= other.subrange(k + m, k + m + 4));
            assert(stands_at(other, idle, k + m));
        }
    }
}

/// The texts of a report are those of its lines, in order.
pub proof fn law_idle_lines_add(ls: Seq<Seq<char>>, line: Seq<char>)
    ensures
        report_idle_texts(ls.push(line)) == report_idle_texts(ls) + idle_texts(line),
        report_idle_texts(Seq::empty()) == Seq::<Seq<char>>::empty(),
{
    assert(ls.push(line).drop_last() =~= ls);
}

/// Of the readings, the first that is a number counts, however many are none before it; the load
/// is what it leaves of a hundred. Without any, the load is zero.
pub proof fn law_first_reading_counts(
    none: Seq<Option<u32>>,
    pattern: u32,
    rest: Seq<Option<u32>>,
)
    requires
        forall|i: int| 0 <= i < none.len() ==> #[trigger] none[i] is None,
    ensures
        usage(none + seq![Some(pattern)] + rest) == hundred_less(of_pattern(pattern)),
        usage(none) == (Single::Finite { negative: false, mant: 0, exp: 0 }),
    decreases none.len(),
{
    let all = none + seq![Some(pattern)] + rest;
    if none.len() == 0 {
        assert(all[0] == Some(pattern));
    } else {
        let fewer = none.skip(1);
        assert forall|i: int| 0 <= i < fewer.len() implies #[trigger] fewer[i] is None by {
            assert(fewer[i] == none[i + 1]);
        }
        law_first_reading_counts(fewer, pattern, rest);
        assert(all[0] == none[0]);
        assert(all.skip(1) =~= fewer + seq![Some(pattern)] + rest);
        assert(first_reading(all) == first_reading(all.skip(1)));
        assert(first_reading(none) == first_reading(fewer));
    }
}

/// The seventh word of a line is what its interface received, and the tenth, if there is one, what
/// it sent; further words do not count. Interfaces whose names begin with `lo`, `utun`, `awdl` or
/// `bridge` count for nothing, nor do lines of fewer than seven words.
pub proof fn law_traffic_line(line: Seq<char>)
    ensures
        ({
            let w = words(line);
            let (rx, tx) = traffic_line(line);
            let left_out = begins(w[0], "lo"@) || begins(w[0], "utun"@) || begins(w[0], "awdl"@)
                || begins(w[0], "bridge"@);
            &&& w.len() < 7 || left_out ==> rx == 0 && tx == 0
            &&& w.len() >= 7 && !left_out ==> reads_as(w[6], rx)
            &&& w.len() >= 10 && !left_out ==> reads_as(w[9], tx)
            &&& w.len() < 10 ==> tx == 0
        }),
{
}

/// The traffic of a report is that of its lines behind one heading, each counted once, in
/// kilobytes.
pub proof fn law_traffic_of_report(
    report: Seq<char>,
    heading: Seq<char>,
    ls: Seq<Seq<char>>,
    line: Seq<char>,
)
    ensures
        lines(report) == seq![heading] + ls ==> traffic_lines(report) == ls,
        lines(report).len() == 0 ==> traffic_lines(report).len() == 0,
        received(ls.push(line)) == received(ls) + traffic_line(line).0,
        sent(ls.push(line)) == sent(ls) + traffic_line(line).1,
        received(Seq::empty()) == 0,
        sent(Seq::empty()) == 0,
        traffic_fits(report) <==> received(traffic_lines(report)) <= 0xffff_ffff_ffff_ffff && sent(
            traffic_lines(report),
        ) <= 0xffff_ffff_ffff_ffff,
        traffic_fits(report) ==> traffic(report).0 == received(traffic_lines(report)) / 1024
            && traffic(report).1 == sent(traffic_lines(report)) / 1024,
{
    if lines(report) == seq![heading] + ls {
        assert(lines(report).skip(1) =~= ls);
    }
    assert(ls.push(line).drop_last() =~= ls);
}

/// As many marks at the end are set as stand behind the last that is not.
proof fn lemma_set_at_end(marks: Seq<bool>, n: nat)
    requires
        n <= marks.len(),
        forall|i: int| marks.len() - n <= i < marks.len() ==> #[trigger] marks[i],
        n < marks.len() ==> !marks[marks.len() - n - 1],
    ensures
        set_at_end(marks) == n,
    decreases n,
{
    if n > 0 {
        let front = marks.drop_last();
        assert(marks[marks.len() - 1]);
        assert forall|i: int| front.len() - (n - 1) <= i < front.len() implies (
        #[trigger] front[i]) by {
            assert(front[i] == marks[i]);
        }
        lemma_set_at_end(front, (n - 1) as nat);
    }
}

/// As many marks at the start are `mark` as stand before the first that is not.
proof fn lemma_leading(marks: Seq<bool>, mark: bool, n: nat)
    requires
        n <= marks.len(),
        forall|i: int| 0 <= i < n ==> #[trigger] marks[i] == mark,
        n < marks.len() ==> marks[n as int] != mark,
    ensures
        leading(marks, mark) == n,
    decreases n,
{
    if n > 0 {
        let rest = marks.skip(1);
        assert(marks[0] == mark);
        assert forall|i: int| 0 <= i < n - 1 implies #[trigger] rest[i] == mark by {
            assert(rest[i] == marks[i + 1]);
        }
        lemma_leading(rest, mark, (n - 1) as nat);
    }
}

/// In a line about a battery, the number before the first percent sign is the charge, whatever
/// numbers stand before it and behind it, and whether or not white space parts it from the sign.
pub proof fn law_charge_before_percent(
    head: Seq<char>,
    charge: u64,
    gap: Seq<char>,
    tail: Seq<char>,
    marks: Seq<bool>,
)
    requires
        ({
            let line = head + decimal(charge as nat) + gap + seq!['%'] + tail;
            let n = head.len() as int;
            let m = (head.len() + decimal(charge as nat).len()) as int;
            &&& has(line, "Battery"@)
            &&& marks.len() == line.len()
            &&& forall|i: int| n <= i < m ==> #[trigger] marks[i]
            &&& n > 0 ==> !marks[n - 1]
        }),
        forall|i: int| 0 <= i < head.len() ==> #[trigger] head[i] != '%',
        all_white(gap),
    ensures
        ({
            let line = head + decimal(charge as nat) + gap + seq!['%'] + tail;
            marked_battery_line(line, marks) == Some((charge, battery_state(line)))
        }),
{
    let d = decimal(charge as nat);
    let line = head + d + gap + seq!['%'] + tail;
    let k = Class::IsNot('%');
    let p = (head.len() + d.len() + gap.len()) as int;
    let q = (head.len() + d.len()) as int;
    law_decimal_form(charge as nat);
    law_decimal_reads_back(charge);
    assert forall|i: int| 0 <= i < p implies k.holds(#[trigger] line[i]) by {
        if i < head.len() {
            assert(line[i] == head[i]);
        } else if i < q {
            assert(line[i] == d[i - head.len()]);
            assert(is_digit(d[i - head.len()]));
        } else {
            assert(line[i] == gap[i - q]);
        }
    }
    assert(line[p] == '%');
    text::lemma_run_is(line, k, p as nat);
    let before = head + d;
    assert(line.take(p) =~= before + gap);
    assert(before.last() == d[d.len() - 1]);
    assert(is_digit(d[d.len() - 1]));
    assert forall|i: int| 0 <= i < gap.len() implies Class::White.holds(#[trigger] gap[i]) by {}
    law_trim_end(before, gap, Class::White);
    let seen = marks.take(q);
    assert forall|i: int| seen.len() - d.len() <= i < seen.len() implies #[trigger] seen[i] by {
        assert(seen[i] == marks[i]);
    }
    lemma_set_at_end(seen, d.len());
    assert(line.subrange(q - d.len(), q) =~= d);
}

/// In a line about a battery without a percent sign, the first number is the charge.
pub proof fn law_charge_without_percent(
    head: Seq<char>,
    charge: u64,
    tail: Seq<char>,
    marks: Seq<bool>,
)
    requires
        ({
            let line = head + decimal(charge as nat) + tail;
            let n = head.len() as int;
            let m = (head.len() + decimal(charge as nat).len()) as int;
            &&& has(line, "Battery"@)
            &&& marks.len() == line.len()
            &&& forall|i: int| 0 <= i < n ==> !#[trigger] marks[i]
            &&& forall|i: int| n <= i < m ==> #[trigger] marks[i]
            &&& m < marks.len() ==> !marks[m]
            &&& forall|i: int| 0 <= i < line.len() ==> #[trigger] line[i] != '%'
        }),
    ensures
        ({
            let line = head + decimal(charge as nat) + tail;
            marked_battery_line(line, marks) == Some((charge, battery_state(line)))
        }),
{
    let d = decimal(charge as nat);
    let line = head + d + tail;
    let k = Class::IsNot('%');
    law_decimal_form(charge as nat);
    law_decimal_reads_back(charge);
    assert forall|i: int| 0 <= i < line.len() implies k.holds(#[trigger] line[i]) by {}
    text::lemma_run_is(line, k, line.len());
    assert(share_given(line, marks) is None);
    lemma_leading(marks, false, head.len());
    let rest = marks.skip(head.len() as int);
    assert forall|i: int| 0 <= i < d.len() implies #[trigger] rest[i] == true by {
        assert(rest[i] == marks[i + head.len()]);
    }
    lemma_leading(rest, true, d.len());
    assert(line.subrange(head.len() as int, (head.len() + d.len()) as int) =~= d);
    assert(first_number(line, marks) == Some(charge));
}

/// A line that does not name a battery gives nothing, nor does one without a numeral.
pub proof fn law_no_charge(line: Seq<char>, marks: Seq<bool>)
    requires
        marks.len() == line.len(),
        !text::has(line, "Battery"@) || forall|i: int|
            0 <= i < marks.len() ==> !#[trigger] marks[i],
    ensures
        marked_battery_line(line, marks) is None,
{
    if has(line, "Battery"@) {
        let p = run(line, Class::IsNot('%')) as int;
        text::lemma_run(line, Class::IsNot('%'));
        let q = crate::text::trim_end(line.take(p), Class::White).len() as int;
        text::lemma_run_back(line.take(p), Class::White);
        let seen = marks.take(q);
        if q > 0 {
            assert(seen.last() == marks[q - 1]);
        }
        assert(set_at_end(seen) == 0);
        assert(line.subrange(q, q).len() == 0);
        lemma_leading(marks, false, marks.len());
        assert(leading(marks.skip(marks.len() as int), true) == 0);
        assert(line.subrange(marks.len() as int, marks.len() as int).len() == 0);
    }
}

/// A battery is discharging if its line says so, else charging if it says that, else full if it
/// says charged or fully, and else in an unknown state.
pub proof fn law_battery_state(line: Seq<char>, a: Seq<char>, b: Seq<char>)
    ensures
        battery_state(a + "discharging"@ + b) == "Discharging"@,
        !text::has(line, "discharging"@) && has(line, "charging"@) ==> battery_state(line)
            == "Charging"@,
        !text::has(line, "discharging"@) && !text::has(line, "charging"@) && (has(
            line,
            "charged"@,
        ) || has(line, "fully"@)) ==> battery_state(line) == "Fully Charged"@,
        !text::has(line, "discharging"@) && !text::has(line, "charging"@) && !text::has(
            line,
            "charged"@,
        ) && !text::has(line, "fully"@) ==> battery_state(line) == "Unknown"@,
{
    law_has(line, a, "discharging"@, b);
}

/// The first line that gives a charge counts, however many give none before it.
pub proof fn law_first_battery_counts(
    none: Seq<Seq<char>>,
    line: Seq<char>,
    rest: Seq<Seq<char>>,
)
    ensures
        (forall|i: int| 0 <= i < none.len() ==> battery_line(#[trigger] none[i]) is None)
            && battery_line(line) is Some ==> battery_lines(none + seq![line] + rest)
            == battery_line(line),
        (forall|i: int| 0 <= i < none.len() ==> battery_line(#[trigger] none[i]) is None)
            ==> battery_lines(none) is None,
        (forall|i: int| 0 <= i < none.len() ==> ascii_battery_line(#[trigger] none[i]) is None)
            && ascii_battery_line(line) is Some ==> ascii_battery_lines(none + seq![line] + rest)
            == ascii_battery_line(line),
        (forall|i: int| 0 <= i < none.len() ==> ascii_battery_line(#[trigger] none[i]) is None)
            ==> ascii_battery_lines(none) is None,
    decreases none.len(),
{
    let all = none + seq![line] + rest;
    if none.len() == 0 {
        assert(all[0] == line);
    } else {
        let fewer = none.skip(1);
        law_first_battery_counts(fewer, line, rest);
        assert(all[0] == none[0]);
        assert(all.skip(1) =~= fewer + seq![line] + rest);
        assert(forall|i: int| 0 <= i < fewer.len() ==> #[trigger] fewer[i] == none[i + 1]);
    }
}

/// The numerals of a line are marked one by one; among ASCII characters they are the decimal
/// digits.
pub proof fn law_marks(line: Seq<char>)
    ensures
        battery_line(line) == marked_battery_line(line, numerals_in(line)),
        ascii_battery_line(line) == marked_battery_line(line, digits_in(line)),
        numerals_in(line).len() == line.len(),
        digits_in(line).len() == line.len(),
        forall|i: int| 0 <= i < line.len() ==> #[trigger] numerals_in(line)[i] == numeric(line[i]),
        forall|i: int| 0 <= i < line.len() ==> #[trigger] digits_in(line)[i] == is_digit(line[i]),
        all_ascii(line) <==> forall|i: int|
            0 <= i < line.len() ==> (#[trigger] line[i] as u32) < 128,
{
}

} // verus!
