//! What the parts of a line show of their figures.
use vstd::arithmetic::power2::pow2;
use vstd::prelude::*;

use crate::binary::{double_of, law_order_is_by_value, units, Double};
use crate::display::{
    bar_shown, bar_style, battery_shown, block_bar, clipped, compact_parts, cpu_shown, memory_shown,
    memory_text, network_text, place, plain_bar, row, row_shown, storage_shown, storage_text,
    storage_used, top_lines,
};
use crate::laws::precision::law_whole_is_exact;
use crate::number::{decimal, law_decimal_reads_back, number};
use crate::options::Options;
use crate::paint::{
    bold_cyan, cyan, green, in_style, law_restyled_keeps, padded, painted, painted_wide, purple,
    red, reset, restyled, yellow,
};
use crate::percent::{cells, law_bar_ends, law_cells_grow, law_share_grows, percent};
use crate::readable::human;
use crate::stats::{CpuStats, MemStats};

verus! {

/// In a bar, exactly the first cells are full and all the others are empty, however many there
/// are; in plain characters it stands between brackets.
pub proof fn law_bar_cells(filled: nat, bars: u8)
    requires
        filled <= bars,
    ensures
        plain_bar(filled, bars).len() == bars + 2,
        plain_bar(filled, bars)[0] == '[',
        plain_bar(filled, bars)[bars + 1] == ']',
        forall|i: int| 0 <= i < filled ==> #[trigger] plain_bar(filled, bars)[1 + i] == '#',
        forall|i: int| filled <= i < bars ==> #[trigger] plain_bar(filled, bars)[1 + i] == '-',
        block_bar(filled, bars).len() == bars,
        forall|i: int| 0 <= i < filled ==> #[trigger] block_bar(filled, bars)[i] == '\u{2588}',
        forall|i: int| filled <= i < bars ==> #[trigger] block_bar(filled, bars)[i] == '\u{2591}',
{
}

/// The bar of a share has as many full cells as the share fills, from the left, and else empty
/// ones. With colours it may stand between the codes of a colour, which is red from 80 percent
/// on, yellow from 60 percent on, and green below.
pub proof fn law_bar_of_share(share: Double, bars: u8, r: Seq<char>)
    requires
        share.wf(),
        cells(share, bars) <= bars,
    ensures
        bar_shown(share, bars, true, r) ==> r.len() == bars + 2 && r[0] == '[' && r[bars + 1] == ']'
            && forall|i: int|
            0 <= i < bars ==> #[trigger] r[1 + i] == if i < cells(share, bars) {
                '#'
            } else {
                '-'
            },
        bar_shown(share, bars, false, r) ==> exists|bar: Seq<char>|
            {
                &&& bar.len() == bars
                &&& forall|i: int|
                    0 <= i < bars ==> #[trigger] bar[i] == if i < cells(share, bars) {
                        '\u{2588}'
                    } else {
                        '\u{2591}'
                    }
                &&& r == bar || r == #[trigger] in_style(true, bar_style(share), bar)
                &&& in_style(true, bar_style(share), bar) == bar_style(share) + bar + reset()
            },
        bar_style(share) == if units(share) >= 80 * pow2(3000) {
            red()
        } else if units(share) >= 60 * pow2(3000) {
            yellow()
        } else {
            green()
        },
{
    let filled = cells(share, bars);
    law_bar_cells(filled, bars);
    if bar_shown(share, bars, true, r) {
        assert forall|i: int| 0 <= i < bars implies #[trigger] r[1 + i] == if i < filled {
            '#'
        } else {
            '-'
        } by {
            assert(r[1 + i] == plain_bar(filled, bars)[1 + i]);
        }
    }
    if bar_shown(share, bars, false, r) {
        let bar = block_bar(filled, bars);
        assert forall|i: int| 0 <= i < bar.len() implies #[trigger] bar[i] != '\u{1b}' by {
            assert(bar[i] == '\u{2588}' || bar[i] == '\u{2591}');
        }
        law_restyled_keeps(bar, bar_style(share));
        assert(r == bar || r == in_style(true, bar_style(share), bar));
        assert(in_style(true, bar_style(share), bar) == bar_style(share) + bar + reset());
        assert forall|i: int| 0 <= i < bars implies #[trigger] bar[i] == if i < filled {
            '\u{2588}'
        } else {
            '\u{2591}'
        } by {}
    }
    law_whole_is_exact(80);
    law_whole_is_exact(60);
    law_order_is_by_value(share, double_of(80));
    law_order_is_by_value(share, double_of(60));
}

/// The bar of a hundred percent has no empty cell, and that of zero percent no full one.
pub proof fn law_bar_full_and_empty(bars: u8, r: Seq<char>)
    ensures
        bar_shown(double_of(100), bars, true, r) ==> r.len() == bars + 2 && forall|i: int|
            0 <= i < bars ==> #[trigger] r[1 + i] == '#',
        bar_shown(double_of(0), bars, true, r) ==> r.len() == bars + 2 && forall|i: int|
            0 <= i < bars ==> #[trigger] r[1 + i] == '-',
{
    law_bar_ends(bars);
    law_bar_cells(bars as nat, bars);
    law_bar_cells(0, bars);
    if bar_shown(double_of(100), bars, true, r) {
        assert forall|i: int| 0 <= i < bars implies #[trigger] r[1 + i] == '#' by {
            assert(r[1 + i] == plain_bar(bars as nat, bars)[1 + i]);
        }
    }
    if bar_shown(double_of(0), bars, true, r) {
        assert forall|i: int| 0 <= i < bars implies #[trigger] r[1 + i] == '-' by {
            assert(r[1 + i] == plain_bar(0, bars)[1 + i]);
        }
    }
}

/// The used and the available storage make up the total; where more is available than there is,
/// none is used.
pub proof fn law_storage_adds_up(total: u64, available: u64)
    ensures
        available <= total ==> storage_used((total, available)) + available == total,
        available > total ==> storage_used((total, available)) == 0,
{
}

/// With more storage available, neither the used amount nor its share nor its bar grows.
pub proof fn law_storage_falls(total: u64, less: u64, more: u64, bars: u8)
    requires
        less <= more,
    ensures
        storage_used((total, more)) <= storage_used((total, less)),
        percent(storage_used((total, less)) as nat, total as nat).at_least(
            percent(storage_used((total, more)) as nat, total as nat),
        ),
        cells(percent(storage_used((total, more)) as nat, total as nat), bars) <= cells(
            percent(storage_used((total, less)) as nat, total as nat),
            bars,
        ),
{
    let a = storage_used((total, more)) as nat;
    let b = storage_used((total, less)) as nat;
    crate::percent::law_share_grows(a, b, total as nat);
    crate::percent::lemma_share_range(a, total as nat);
    crate::percent::lemma_share_range(b, total as nat);
    law_cells_grow(percent(a, total as nat), percent(b, total as nat), bars);
}

/// The part on the storage shows what is used of what there is: a bar of the used share, then
/// the used amount and the total.
pub proof fn law_storage_part(total: u64, available: u64, options: Options, r: Option<Seq<char>>)
    requires
        storage_shown(Some((total, available)), options, r),
        options.all || options.storage,
        available <= total,
    ensures
        r is Some,
        exists|bar: Seq<char>|
            bar_shown(
                percent((total - available) as nat, total as nat),
                options.bars,
                options.no_color,
                bar,
            ) && r->0 == #[trigger] (bar + " DISK "@) + human((total - available) as nat) + " / "@
                + human(total as nat),
{
    let used = (total - available) as nat;
    let share = percent(used, total as nat);
    reveal_strlit(" DISK ");
    reveal_strlit("DISK ");
    reveal_strlit(" ");
    let bar = choose|bar: Seq<char>|
        #[trigger] bar_shown(share, options.bars, options.no_color, bar) && r->0 == bar + " "@
            + storage_text((total, available));
    assert(bar + " "@ + ("DISK "@ + human(used) + " / "@ + human(total as nat)) =~= (bar
        + " DISK "@) + human(used) + " / "@ + human(total as nat));
}

/// The text on the memory shows the used and the total amount, or, where changes are asked for
/// and a reading went before, how much the used amount grew or fell.
pub proof fn law_memory_words(stats: MemStats, previous: i64, grown: u64, fallen: u64)
    ensures
        memory_text(stats, false, Some(previous)) == "RAM "@ + human(stats.used_kb as nat) + " / "@
            + human(stats.total_kb as nat),
        memory_text(stats, true, None) == "RAM "@ + human(stats.used_kb as nat) + " / "@ + human(
            stats.total_kb as nat,
        ),
        stats.used_kb <= i64::MAX && grown > 0 && stats.used_kb == previous + grown ==> memory_text(
            stats,
            true,
            Some(previous),
        ) == "RAM "@ + ("+"@ + human(grown as nat)),
        stats.used_kb <= i64::MAX && fallen > 0 && stats.used_kb + fallen == previous
            ==> memory_text(stats, true, Some(previous)) == "RAM "@ + ("-"@ + human(
            fallen as nat,
        )),
{
}

/// The part on the memory is a bar of its used share and then its text.
pub proof fn law_memory_part(
    stats: MemStats,
    options: Options,
    previous: Option<i64>,
    r: Seq<char>,
)
    requires
        memory_shown(stats, options, previous, r),
    ensures
        exists|bar: Seq<char>|
            bar_shown(stats.used_percent, options.bars, options.no_color, bar) && r
                == #[trigger] (bar + " "@) + memory_text(stats, options.delta, previous),
{
    let bar = choose|bar: Seq<char>|
        #[trigger] bar_shown(stats.used_percent, options.bars, options.no_color, bar) && r == bar
            + " "@ + memory_text(stats, options.delta, previous);
    assert(r == (bar + " "@) + memory_text(stats, options.delta, previous));
}

/// The part on the load is there if it is asked for and known, and shows its number with a
/// percent sign, in purple where there are colours.
pub proof fn law_cpu_part(cpu: CpuStats, options: Options, r: Option<Seq<char>>)
    ensures
        cpu_shown(Some(cpu), options, r) && (options.all || options.cpu) ==> ({
            let s = "CPU "@ + cpu.usage_percent.text() + "%"@;
            &&& r is Some
            &&& options.no_color ==> r->0 == s
            &&& !options.no_color ==> r->0 == s || r->0 == purple() + restyled(s, purple())
                + reset()
        }),
        cpu_shown(Some(cpu), options, r) && !(options.all || options.cpu) ==> r is None,
        cpu_shown(None, options, r) ==> r is None,
{
}

/// The part on the battery is there if it is asked for and known, and shows its charge, which can
/// be read back, and its state, in cyan where there are colours.
pub proof fn law_battery_part(
    charge: u64,
    state: String,
    options: Options,
    r: Option<Seq<char>>,
)
    ensures
        battery_shown(Some((charge, state)), options, r) && (options.all || options.battery) ==> ({
            let s = "BAT "@ + decimal(charge as nat) + "% ("@ + state@ + ")"@;
            &&& r is Some
            &&& options.no_color ==> r->0 == s
            &&& !options.no_color ==> r->0 == s || r->0 == cyan() + restyled(s, cyan()) + reset()
        }),
        number(decimal(charge as nat)) == Some(charge),
        battery_shown(Some((charge, state)), options, r) && !(options.all || options.battery)
            ==> r is None,
        battery_shown(None, options, r) ==> r is None,
{
    law_decimal_reads_back(charge);
}

/// The part on the traffic shows what was received and what was sent, or, where changes are asked
/// for and a reading went before, how much each grew.
pub proof fn law_network_words(
    rx: u64,
    tx: u64,
    options: Options,
    prev_rx: i64,
    prev_tx: i64,
    more_rx: u64,
    more_tx: u64,
)
    requires
        options.all || options.network,
    ensures
        !options.delta ==> network_text(Some((rx, tx)), options, Some((prev_rx, prev_tx))) == Some(
            "NET "@ + seq!['\u{2193}'] + human(rx as nat) + " "@ + seq!['\u{2191}'] + human(
                tx as nat,
            ),
        ),
        !options.delta ==> network_text(Some((rx, tx)), options, None) == network_text(
            Some((rx, tx)),
            options,
            Some((prev_rx, prev_tx)),
        ),
        options.delta && rx <= i64::MAX && tx <= i64::MAX && more_rx > 0 && more_tx > 0 && rx
            == prev_rx + more_rx && tx == prev_tx + more_tx ==> network_text(
            Some((rx, tx)),
            options,
            Some((prev_rx, prev_tx)),
        ) == Some(
            "NET "@ + seq!['\u{2193}'] + ("+"@ + human(more_rx as nat)) + " "@ + seq!['\u{2191}']
                + ("+"@ + human(more_tx as nat)),
        ),
        network_text(None, options, Some((prev_rx, prev_tx))) is None,
{
}

/// How many of the parts before another are there.
pub open spec fn there(part: Option<Seq<char>>) -> int {
    if part is Some {
        1
    } else {
        0
    }
}

/// The parts of a line that are there stand in the order of memory, load, storage, battery and
/// traffic, each once, and no others.
pub proof fn law_parts_in_order(
    memory: Seq<char>,
    load: Option<Seq<char>>,
    disk: Option<Seq<char>>,
    charge: Option<Seq<char>>,
    traffic: Option<Seq<char>>,
)
    ensures
        ({
            let parts = compact_parts(memory, load, disk, charge, traffic);
            &&& parts.len() == 1 + there(load) + there(disk) + there(charge) + there(traffic)
            &&& parts[0] == memory
            &&& load is Some ==> parts[1] == load->0
            &&& disk is Some ==> parts[1 + there(load)] == disk->0
            &&& charge is Some ==> parts[1 + there(load) + there(disk)] == charge->0
            &&& traffic is Some ==> parts[1 + there(load) + there(disk) + there(charge)]
                == traffic->0
        }),
{
}

/// A command is shown by its first twenty characters, or whole if it has no more, in a field of
/// twenty characters that spaces fill.
pub proof fn law_command_field(command: Seq<char>)
    ensures
        padded(clipped(command), 20).len() == 20,
        forall|i: int|
            0 <= i < 20 ==> #[trigger] padded(clipped(command), 20)[i] == if i < command.len() {
                command[i]
            } else {
                ' '
            },
        clipped(command).len() <= command.len(),
        command.len() <= 20 ==> clipped(command) == command,
        command.len() > 20 ==> clipped(command).len() == 20,
{
}

/// Padding keeps the text, and puts spaces behind it up to the width.
pub proof fn law_padded(s: Seq<char>, width: nat)
    ensures
        s.len() >= width ==> padded(s, width) == s,
        s.len() < width ==> padded(s, width).len() == width,
        forall|i: int|
            0 <= i < padded(s, width).len() ==> #[trigger] padded(s, width)[i] == if i < s.len() {
                s[i]
            } else {
                ' '
            },
{
}

/// In a text, the style begins anew behind each code that ends a style, and nothing else
/// changes.
pub proof fn law_restyled(a: Seq<char>, b: Seq<char>, style: Seq<char>)
    requires
        forall|i: int| 0 <= i < a.len() ==> #[trigger] a[i] != '\u{1b}',
    ensures
        restyled(a + reset() + b, style) == a + reset() + style + restyled(b, style),
        restyled(a, style) == a,
    decreases a.len(),
{
    law_restyled_keeps(a, style);
    let s = a + reset() + b;
    if a.len() == 0 {
        assert(s.take(4) =~= reset());
        assert(s.skip(4) =~= b);
        assert(restyled(s, style) =~= a + reset() + style + restyled(b, style));
    } else {
        let t = a.skip(1);
        assert forall|i: int| 0 <= i < t.len() implies #[trigger] t[i] != '\u{1b}' by {
            assert(t[i] == a[i + 1]);
        }
        law_restyled(t, b, style);
        assert(s.skip(1) =~= t + reset() + b);
        assert(s.take(4)[0] == a[0]);
        assert(reset()[0] == '\u{1b}');
        assert(s[0] == a[0]);
        assert(restyled(s, style) =~= a + reset() + style + restyled(b, style));
    }
}

/// A row of the list of processes shows the place, counted from one, the command in its field and
/// the memory, each a space apart.
pub proof fn law_row(i: nat, command: Seq<char>, rss: u64, r: Seq<char>)
    requires
        i < u64::MAX,
    ensures
        row_shown(i as int, command, rss, true, r) ==> r == "  "@ + (decimal(i + 1) + "."@) + " "@
            + padded(clipped(command), 20) + " "@ + human(rss as nat),
        row_shown(i as int, command, rss, false, r) ==> exists|
            n: Seq<char>,
            c: Seq<char>,
            m: Seq<char>,
        |
            {
                &&& painted(cyan(), decimal(i + 1) + "."@, n)
                &&& painted_wide(crate::paint::blue(), clipped(command), 20, c)
                &&& painted(green(), human(rss as nat), m)
                &&& r == "  "@ + n + " "@ + c + " "@ + m
                &&& #[trigger] row(n, c, m) == r
            },
        number(decimal(i + 1)) == Some((i + 1) as u64),
{
    law_decimal_reads_back((i + 1) as u64);
    if row_shown(i as int, command, rss, false, r) {
        let (n, c, m) = choose|n: Seq<char>, c: Seq<char>, m: Seq<char>|
            {
                &&& painted(cyan(), place(i as int), n)
                &&& painted_wide(crate::paint::blue(), clipped(command), 20, c)
                &&& painted(green(), human(rss as nat), m)
                &&& r == #[trigger] row(n, c, m)
            };
        assert(row(n, c, m) == r);
    }
}

/// The list of processes has a heading and then one row for each process, in order.
pub proof fn law_list(processes: Seq<(String, u64)>, no_color: bool, r: Seq<Seq<char>>, i: int)
    requires
        top_lines(processes, no_color, r),
        0 <= i < processes.len(),
    ensures
        r.len() == processes.len() + 1,
        no_color ==> r[0] == "Top processes:"@,
        !no_color ==> painted(bold_cyan(), " Top processes "@, r[0]),
        row_shown(i, processes[i].0@, processes[i].1, no_color, r[i + 1]),
{
}

/// A painted text is the text, or the text between the codes of its style; where no style ends
/// in it, its characters stand between the codes as they are.
pub proof fn law_painted(style: Seq<char>, s: Seq<char>, r: Seq<char>)
    requires
        painted(style, s, r),
        forall|i: int| 0 <= i < s.len() ==> #[trigger] s[i] != '\u{1b}',
    ensures
        r == s || r == style + s + reset(),
{
    law_restyled_keeps(s, style);
}

/// A text painted in a field is the padded text, or the codes of its style with the text between
/// them padded; the codes do not count for the width.
pub proof fn law_painted_wide(style: Seq<char>, s: Seq<char>, width: nat, r: Seq<char>)
    requires
        painted_wide(style, s, width, r),
        forall|i: int| 0 <= i < s.len() ==> #[trigger] s[i] != '\u{1b}',
    ensures
        r == padded(s, width) || r == style + padded(s, width) + reset(),
{
    law_restyled_keeps(s, style);
}

} // verus!
