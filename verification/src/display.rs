//! The lines that show a machine's figures.
use vstd::prelude::*;

use crate::binary;
use crate::binary::{from_whole, push_tenths, Double};
use crate::readable;
use crate::readable::{format_delta_kb, format_human};
use crate::number;
use crate::number::push_decimal;
use crate::options::Options;
use crate::paint;
use crate::paint::{
    padded, paint_blue_wide, paint_bold_cyan, paint_cyan, paint_green, paint_purple, paint_red,
    paint_yellow, painted, painted_wide,
};
use crate::percent;
use crate::percent::{cells_of, percent_of};
use crate::stats::{CpuStats, MemStats};
use crate::text;
use crate::text::{chars, join, joined, slice, string, views};

verus! {

/// `n` times the character `c`.
pub open spec fn repeated(c: char, n: nat) -> Seq<char> {
    Seq::new(n, |i: int| c)
}

/// Writes `n` times the character `c` behind what `out` holds.
fn push_repeated(out: &mut String, c: char, n: u8)
    ensures
        final(out)@ == old(out)@ + repeated(c, n as nat),
{
    for i in 0..n
        invariant
            out@ == old(out)@ + repeated(c, i as nat),
    {
        out.push(c);
        assert(repeated(c, (i + 1) as nat) =~= repeated(c, i as nat).push(c));
        assert(out@ =~= old(out)@ + repeated(c, (i + 1) as nat));
    }
}

/// A bar of `bars` cells, of which the first `filled` are full, in plain characters.
pub open spec fn plain_bar(filled: nat, bars: u8) -> Seq<char> {
    seq!['['] + repeated('#', filled) + repeated('-', (bars - filled) as nat) + seq![']']
}

/// A bar of `bars` cells, of which the first `filled` are full, in block characters.
pub open spec fn block_bar(filled: nat, bars: u8) -> Seq<char> {
    repeated('\u{2588}', filled) + repeated('\u{2591}', (bars - filled) as nat)
}

/// The style of a bar: red from 80 percent on, yellow from 60 percent on, and green below.
pub open spec fn bar_style(percent: Double) -> Seq<char> {
    if percent.at_least(binary::double_of(80)) {
        paint::red()
    } else if percent.at_least(binary::double_of(60)) {
        paint::yellow()
    } else {
        paint::green()
    }
}

/// Whether `r` shows a share as a bar of `bars` cells.
pub open spec fn bar_shown(percent: Double, bars: u8, no_color: bool, r: Seq<char>) -> bool {
    let filled = percent::cells(percent, bars);
    if no_color {
        r == plain_bar(filled, bars)
    } else {
        painted(bar_style(percent), block_bar(filled, bars), r)
    }
}

/// Shows a share as a bar of `bars` cells.
pub fn create_bar(percent: Double, bars: u8, no_color: bool) -> (r: String)
    requires
        percent.wf(),
        percent::cells(percent, bars) <= bars,
    ensures
        bar_shown(percent, bars, no_color, r@),
{
    let filled: u8 = cells_of(percent, bars).unwrap();
    let mut bar = String::new();
    if no_color {
        bar.push('[');
        push_repeated(&mut bar, '#', filled);
        push_repeated(&mut bar, '-', bars - filled);
        bar.push(']');
        assert(bar@ =~= plain_bar(filled as nat, bars));
        bar
    } else {
        push_repeated(&mut bar, '\u{2588}', filled);
        push_repeated(&mut bar, '\u{2591}', bars - filled);
        assert(bar@ =~= block_bar(filled as nat, bars));
        if percent.reaches(from_whole(80)) {
            paint_red(bar.as_str())
        } else if percent.reaches(from_whole(60)) {
            paint_yellow(bar.as_str())
        } else {
            paint_green(bar.as_str())
        }
    }
}

/// Whether `r` is `s`, or, with colours, `s` in the style.
pub open spec fn tinted(no_color: bool, style: Seq<char>, s: Seq<char>, r: Seq<char>) -> bool {
    if no_color {
        r == s
    } else {
        painted(style, s, r)
    }
}

/// Whether the change from `previous` to `current` can be counted in 64 bits with a sign.
pub open spec fn change_fits(current: u64, previous: i64) -> bool {
    i64::MIN <= (current as i64) - previous <= i64::MAX
}

/// The text on the memory: its change since the previous reading, where changes are asked for
/// and there was one, and else the used and the total amount.
pub open spec fn memory_text(stats: MemStats, delta: bool, previous: Option<i64>) -> Seq<char> {
    if delta && previous is Some {
        "RAM "@ + readable::delta_text(stats.used_kb as i64 as int, previous->0 as int)
    } else {
        "RAM "@ + readable::human(stats.used_kb as nat) + " / "@ + readable::human(
            stats.total_kb as nat,
        )
    }
}

/// Writes the text on the memory.
fn write_memory(stats: &MemStats, delta: bool, previous: Option<i64>) -> (r: String)
    requires
        delta && previous is Some ==> change_fits(stats.used_kb, previous->0),
    ensures
        r@ == memory_text(*stats, delta, previous),
{
    let mut r = String::new();
    r.append("RAM ");
    match previous {
        Some(before) if delta => {
            let now: i64 = #[verifier::truncate] (stats.used_kb as i64);
            let change = format_delta_kb(now, before);
            r.append(change.as_str());
        },
        _ => {
            let used = format_human(stats.used_kb);
            let total = format_human(stats.total_kb);
            r.append(used.as_str());
            r.append(" / ");
            r.append(total.as_str());
        },
    }
    assert(r@ =~= memory_text(*stats, delta, previous));
    r
}

/// Whether `r` shows the memory: a bar of the used share, and the text.
pub open spec fn memory_shown(
    stats: MemStats,
    options: Options,
    previous: Option<i64>,
    r: Seq<char>,
) -> bool {
    exists|bar: Seq<char>|
        #[trigger] bar_shown(stats.used_percent, options.bars, options.no_color, bar) && r == bar
            + " "@ + memory_text(stats, options.delta, previous)
}

/// Puts a bar and a text together.
pub fn behind_bar(bar: &str, text: &str) -> (r: String)
    ensures
        r@ == bar@ + " "@ + text@,
{
    let mut r = String::new();
    r.append(bar);
    r.append(" ");
    r.append(text);
    assert(r@ =~= bar@ + " "@ + text@);
    r
}

/// A load that may be there, without the reference to it.
pub open spec fn owned(cpu: Option<&CpuStats>) -> Option<CpuStats> {
    match cpu {
        Some(stats) => Some(*stats),
        None => None,
    }
}

/// Whether `r` shows the load of the processor, if there is one to show and it is asked for.
pub open spec fn cpu_shown(cpu: Option<CpuStats>, options: Options, r: Option<Seq<char>>) -> bool {
    if options.wants_cpu() && cpu is Some {
        r is Some && tinted(
            options.no_color,
            paint::purple(),
            "CPU "@ + cpu->0.usage_percent.text() + "%"@,
            r->0,
        )
    } else {
        r is None
    }
}

/// Shows the load of the processor, if there is one to show and it is asked for.
fn show_cpu(cpu: Option<&CpuStats>, options: &Options) -> (r: Option<String>)
    requires
        cpu is Some ==> cpu->0.wf(),
    ensures
        cpu_shown(owned(cpu), *options, view_of(r)),
{
    if !(options.all || options.cpu) {
        return None;
    }
    match cpu {
        Some(stats) => {
            let mut plain = String::new();
            plain.append("CPU ");
            stats.usage_percent.push_text(&mut plain);
            plain.append("%");
            assert(plain@ =~= "CPU "@ + stats.usage_percent.text() + "%"@);
            if options.no_color {
                Some(plain)
            } else {
                Some(paint_purple(plain.as_str()))
            }
        },
        None => None,
    }
}

/// The contents of a text that may be there.
pub open spec fn view_of(s: Option<String>) -> Option<Seq<char>> {
    match s {
        Some(text) => Some(text@),
        None => None,
    }
}

/// How much of the storage is used: what is not available.
pub open spec fn storage_used(storage: (u64, u64)) -> u64 {
    if storage.1 <= storage.0 {
        (storage.0 - storage.1) as u64
    } else {
        0
    }
}

/// The text on the storage: the used and the total amount.
pub open spec fn storage_text(storage: (u64, u64)) -> Seq<char> {
    "DISK "@ + readable::human(storage_used(storage) as nat) + " / "@ + readable::human(
        storage.0 as nat,
    )
}

/// Whether `r` shows the storage, if there is one to show and it is asked for.
pub open spec fn storage_shown(
    storage: Option<(u64, u64)>,
    options: Options,
    r: Option<Seq<char>>,
) -> bool {
    if options.wants_storage() && storage is Some {
        let share = percent::percent(storage_used(storage->0) as nat, (storage->0).0 as nat);
        r is Some && exists|bar: Seq<char>|
            #[trigger] bar_shown(share, options.bars, options.no_color, bar) && r->0 == bar + " "@
                + storage_text(storage->0)
    } else {
        r is None
    }
}

/// Shows the storage, if there is one to show and it is asked for.
fn show_storage(storage: Option<(u64, u64)>, options: &Options) -> (r: Option<String>)
    ensures
        storage_shown(storage, *options, view_of(r)),
{
    if !(options.all || options.storage) {
        return None;
    }
    match storage {
        Some((total, available)) => {
            let used: u64 = total.saturating_sub(available);
            let share = percent_of(used, total);
            let mut plain = String::new();
            let used_text = format_human(used);
            let total_text = format_human(total);
            plain.append("DISK ");
            plain.append(used_text.as_str());
            plain.append(" / ");
            plain.append(total_text.as_str());
            assert(plain@ =~= storage_text((total, available)));
            proof {
                percent::law_part_fits_bar(used as nat, total as nat, options.bars);
            }
            let bar = create_bar(share, options.bars, options.no_color);
            Some(behind_bar(bar.as_str(), plain.as_str()))
        },
        None => None,
    }
}

/// The text on the battery: its charge and its state.
pub open spec fn battery_text(charge: u64, state: Seq<char>) -> Seq<char> {
    "BAT "@ + number::decimal(charge as nat) + "% ("@ + state + ")"@
}

/// Whether `r` shows the battery, if there is one to show and it is asked for.
pub open spec fn battery_shown(
    battery: Option<(u64, String)>,
    options: Options,
    r: Option<Seq<char>>,
) -> bool {
    if options.wants_battery() && battery is Some {
        r is Some && tinted(
            options.no_color,
            paint::cyan(),
            battery_text((battery->0).0, (battery->0).1@),
            r->0,
        )
    } else {
        r is None
    }
}

/// Shows the battery, if there is one to show and it is asked for.
fn show_battery(battery: &Option<(u64, String)>, options: &Options) -> (r: Option<String>)
    ensures
        battery_shown(*battery, *options, view_of(r)),
{
    if !(options.all || options.battery) {
        return None;
    }
    match battery {
        Some((charge, state)) => {
            let mut plain = String::new();
            plain.append("BAT ");
            push_decimal(&mut plain, *charge as u128);
            plain.append("% (");
            plain.append(state.as_str());
            plain.append(")");
            assert(plain@ =~= battery_text(*charge, state@));
            if options.no_color {
                Some(plain)
            } else {
                Some(paint_cyan(plain.as_str()))
            }
        },
        None => None,
    }
}

/// The text on the network's traffic, if there is any to show and it is asked for. Where
/// changes are asked for, there is one only from the second reading on.
pub open spec fn network_text(
    net: Option<(u64, u64)>,
    options: Options,
    previous: Option<(i64, i64)>,
) -> Option<Seq<char>> {
    if !options.wants_network() || net is None {
        None
    } else if !options.delta {
        Some(
            "NET "@ + seq!['\u{2193}'] + readable::human((net->0).0 as nat) + " "@ + seq!['\u{2191}']
                + readable::human((net->0).1 as nat),
        )
    } else if previous is Some {
        Some(
            "NET "@ + seq!['\u{2193}'] + readable::delta_text(
                (net->0).0 as i64 as int,
                (previous->0).0 as int,
            ) + " "@ + seq!['\u{2191}'] + readable::delta_text(
                (net->0).1 as i64 as int,
                (previous->0).1 as int,
            ),
        )
    } else {
        None
    }
}

/// Whether the changes of the network's traffic that would be shown can be counted in 64 bits
/// with a sign.
pub open spec fn network_fits(
    net: Option<(u64, u64)>,
    options: Options,
    previous: Option<(i64, i64)>,
) -> bool {
    options.wants_network() && options.delta && net is Some && previous is Some ==> change_fits(
        (net->0).0,
        (previous->0).0,
    ) && change_fits((net->0).1, (previous->0).1)
}

/// Writes the text on the network's traffic, if there is any to show and it is asked for.
fn write_network(
    net: Option<(u64, u64)>,
    options: &Options,
    previous: Option<(i64, i64)>,
) -> (r: Option<String>)
    requires
        network_fits(net, *options, previous),
    ensures
        view_of(r) == network_text(net, *options, previous),
{
    if !(options.all || options.network) {
        return None;
    }
    match net {
        Some((rx, tx)) => {
            let mut r = String::new();
            r.append("NET ");
            r.push('\u{2193}');
            if options.delta {
                match previous {
                    Some((prev_rx, prev_tx)) => {
                        let now_rx: i64 = #[verifier::truncate] (rx as i64);
                        let now_tx: i64 = #[verifier::truncate] (tx as i64);
                        let down = format_delta_kb(now_rx, prev_rx);
                        let up = format_delta_kb(now_tx, prev_tx);
                        r.append(down.as_str());
                        r.append(" ");
                        r.push('\u{2191}');
                        r.append(up.as_str());
                    },
                    None => {
                        return None;
                    },
                }
            } else {
                let down = format_human(rx);
                let up = format_human(tx);
                r.append(down.as_str());
                r.append(" ");
                r.push('\u{2191}');
                r.append(up.as_str());
            }
            assert(r@ =~= network_text(net, *options, previous)->0);
            Some(r)
        },
        None => None,
    }
}

/// A text that may be there, as a list of no or of one text.
pub open spec fn listed(part: Option<Seq<char>>) -> Seq<Seq<char>> {
    match part {
        Some(text) => seq![text],
        None => Seq::empty(),
    }
}

/// The parts of the full line that are there, in order.
pub open spec fn compact_parts(
    memory: Seq<char>,
    cpu: Option<Seq<char>>,
    storage: Option<Seq<char>>,
    battery: Option<Seq<char>>,
    network: Option<Seq<char>>,
) -> Seq<Seq<char>> {
    seq![memory] + listed(cpu) + listed(storage) + listed(battery) + listed(network)
}

/// Puts the parts of the full line that are there together, two spaces apart.
pub fn compact_line(
    memory: String,
    cpu: Option<String>,
    storage: Option<String>,
    battery: Option<String>,
    network: Option<String>,
) -> (r: String)
    ensures
        r@ == join(
            compact_parts(
                memory@,
                view_of(cpu),
                view_of(storage),
                view_of(battery),
                view_of(network),
            ),
            "  "@,
        ),
{
    let ghost want = compact_parts(
        memory@,
        view_of(cpu),
        view_of(storage),
        view_of(battery),
        view_of(network),
    );
    let ghost first = seq![memory@];
    let ghost with_cpu = first + listed(view_of(cpu));
    let ghost with_storage = with_cpu + listed(view_of(storage));
    let ghost with_battery = with_storage + listed(view_of(battery));
    let mut parts: Vec<String> = Vec::new();
    parts.push(memory);
    assert(views(parts@) =~= first);
    if let Some(part) = cpu {
        parts.push(part);
    }
    assert(views(parts@) =~= with_cpu);
    if let Some(part) = storage {
        parts.push(part);
    }
    assert(views(parts@) =~= with_storage);
    if let Some(part) = battery {
        parts.push(part);
    }
    assert(views(parts@) =~= with_battery);
    if let Some(part) = network {
        parts.push(part);
    }
    assert(views(parts@) =~= want);
    joined(&parts, "  ")
}

/// Whether `r` is a full line on these figures: the memory, then, as far as they are asked for
/// and there, the load, the storage, the battery and the traffic, two spaces apart.
pub open spec fn compact_shown(
    stats: MemStats,
    options: Options,
    cpu: Option<CpuStats>,
    prev_mem: Option<i64>,
    prev_net: Option<(i64, i64)>,
    storage: Option<(u64, u64)>,
    battery: Option<(u64, String)>,
    net: Option<(u64, u64)>,
    r: Seq<char>,
) -> bool {
    exists|
        memory: Seq<char>,
        load: Option<Seq<char>>,
        disk: Option<Seq<char>>,
        charge: Option<Seq<char>>,
    |
        {
            &&& memory_shown(stats, options, prev_mem, memory)
            &&& cpu_shown(cpu, options, load)
            &&& storage_shown(storage, options, disk)
            &&& battery_shown(battery, options, charge)
            &&& r == join(
                #[trigger] compact_parts(
                    memory,
                    load,
                    disk,
                    charge,
                    network_text(net, options, prev_net),
                ),
                "  "@,
            )
        }
}

/// Whether the memory fits its bar, and all the changes that would be shown can be counted in
/// 64 bits with a sign.
pub open spec fn compact_fits(
    stats: MemStats,
    options: Options,
    prev_mem: Option<i64>,
    prev_net: Option<(i64, i64)>,
    net: Option<(u64, u64)>,
) -> bool {
    &&& percent::cells(stats.used_percent, options.bars) <= options.bars
    &&& options.delta && prev_mem is Some ==> change_fits(stats.used_kb, prev_mem->0)
    &&& network_fits(net, options, prev_net)
}

/// Decides whether the change from `previous` to `current` can be counted.
fn change_counts(current: u64, previous: i64) -> (r: bool)
    ensures
        r == change_fits(current, previous),
{
    let now: i64 = #[verifier::truncate] (current as i64);
    let change: i128 = now as i128 - previous as i128;
    i64::MIN as i128 <= change && change <= i64::MAX as i128
}

/// Decides whether the figures can be shown as a full line.
pub fn can_show_compact(
    stats: &MemStats,
    options: &Options,
    prev_mem: Option<i64>,
    prev_net: Option<(i64, i64)>,
    net: Option<(u64, u64)>,
) -> (r: bool)
    requires
        stats.used_percent.wf(),
    ensures
        r == compact_fits(*stats, *options, prev_mem, prev_net, net),
{
    if cells_of(stats.used_percent, options.bars).is_none() {
        return false;
    }
    if let Some(before) = prev_mem {
        if options.delta && !change_counts(stats.used_kb, before) {
            return false;
        }
    }
    if let (Some((rx, tx)), Some((prev_rx, prev_tx))) = (net, prev_net) {
        if (options.all || options.network) && options.delta && !(change_counts(rx, prev_rx)
            && change_counts(tx, prev_tx)) {
            return false;
        }
    }
    true
}

/// Shows the figures as a full line.
pub fn display_compact(
    stats: &MemStats,
    options: &Options,
    cpu: Option<&CpuStats>,
    prev_mem: Option<i64>,
    prev_net: Option<(i64, i64)>,
    storage: Option<(u64, u64)>,
    battery: &Option<(u64, String)>,
    net: Option<(u64, u64)>,
) -> (r: String)
    requires
        stats.used_percent.wf(),
        cpu is Some ==> cpu->0.wf(),
        compact_fits(*stats, *options, prev_mem, prev_net, net),
    ensures
        compact_shown(
            *stats,
            *options,
            owned(cpu),
            prev_mem,
            prev_net,
            storage,
            *battery,
            net,
            r@,
        ),
{
    let text = write_memory(stats, options.delta, prev_mem);
    let bar = create_bar(stats.used_percent, options.bars, options.no_color);
    let memory = behind_bar(bar.as_str(), text.as_str());
    let load = show_cpu(cpu, options);
    let disk = show_storage(storage, options);
    let charge = show_battery(battery, options);
    let network = write_network(net, options, prev_net);
    assert(memory_shown(*stats, *options, prev_mem, memory@));
    let ghost parts = compact_parts(
        memory@,
        view_of(load),
        view_of(disk),
        view_of(charge),
        network_text(net, *options, prev_net),
    );
    compact_line(memory, load, disk, charge, network)
}

/// Shows the used share of the memory, in percent.
pub fn display_minimal(stats: &MemStats) -> (r: String)
    requires
        stats.used_percent.wf(),
    ensures
        r@ == number::one_decimal(stats.used_percent.tenths()) + "%"@,
{
    let mut r = String::new();
    push_tenths(&mut r, stats.used_percent.mant, stats.used_percent.exp);
    r.append("%");
    assert(r@ =~= number::one_decimal(stats.used_percent.tenths()) + "%"@);
    r
}

/// The first 20 characters of a command, or all where there are no more.
pub open spec fn clipped(command: Seq<char>) -> Seq<char> {
    if command.len() <= 20 {
        command
    } else {
        command.take(20)
    }
}

/// Clips a command to 20 characters.
fn clip(command: &str) -> (r: String)
    ensures
        r@ == clipped(command@),
{
    let all = chars(command);
    let end: usize = if all.len() <= 20 { all.len() } else { 20 };
    let r = string(&slice(&all, 0, end));
    assert(r@ =~= clipped(command@));
    r
}

/// The place of a process in the list, which counts from one.
pub open spec fn place(i: int) -> Seq<char> {
    number::decimal((i + 1) as nat) + "."@
}

/// A row of the list of processes.
pub open spec fn row(num: Seq<char>, command: Seq<char>, mem: Seq<char>) -> Seq<char> {
    "  "@ + num + " "@ + command + " "@ + mem
}

/// Puts a row of the list of processes together.
pub fn process_row(num: &str, command: &str, mem: &str) -> (r: String)
    ensures
        r@ == row(num@, command@, mem@),
{
    let mut r = String::new();
    r.append("  ");
    r.append(num);
    r.append(" ");
    r.append(command);
    r.append(" ");
    r.append(mem);
    assert(r@ =~= row(num@, command@, mem@));
    r
}

/// Whether `r` shows the process at position `i` of the list: its place, its command in a
/// field of 20 characters, and its memory.
pub open spec fn row_shown(
    i: int,
    command: Seq<char>,
    rss: u64,
    no_color: bool,
    r: Seq<char>,
) -> bool {
    let mem = readable::human(rss as nat);
    if no_color {
        r == row(place(i), padded(clipped(command), 20), mem)
    } else {
        exists|n: Seq<char>, c: Seq<char>, m: Seq<char>|
            {
                &&& painted(paint::cyan(), place(i), n)
                &&& painted_wide(paint::blue(), clipped(command), 20, c)
                &&& painted(paint::green(), mem, m)
                &&& r == #[trigger] row(n, c, m)
            }
    }
}

/// Whether `r` is the heading of the list of processes.
pub open spec fn heading_shown(no_color: bool, r: Seq<char>) -> bool {
    if no_color {
        r == "Top processes:"@
    } else {
        painted(paint::bold_cyan(), " Top processes "@, r)
    }
}

/// Whether `r` are the lines of the list of processes: a heading, and a row for each.
pub open spec fn top_lines(
    processes: Seq<(String, u64)>,
    no_color: bool,
    r: Seq<Seq<char>>,
) -> bool {
    &&& r.len() == processes.len() + 1
    &&& heading_shown(no_color, r[0])
    &&& forall|i: int|
        #![trigger processes[i]]
        0 <= i < processes.len() ==> row_shown(
            i,
            processes[i].0@,
            processes[i].1,
            no_color,
            r[i + 1],
        )
}

/// Pads a text with spaces to `width` characters.
fn pad(s: &str, width: usize) -> (r: String)
    ensures
        r@ == padded(s@, width as nat),
{
    let mut r = s.to_owned();
    let have: usize = chars(s).len();
    let mut n: usize = have;
    assert(s@ =~= s@ + Seq::new(0, |i: int| ' '));
    while n < width
        invariant
            have == s@.len(),
            have <= n,
            n <= width || n == have,
            r@ == s@ + Seq::new((n - have) as nat, |i: int| ' '),
        decreases width - n,
    {
        r.push(' ');
        n = n + 1;
        assert(r@ =~= s@ + Seq::new((n - have) as nat, |i: int| ' '));
    }
    assert(r@ =~= padded(s@, width as nat));
    r
}

/// Shows one process.
fn show_process(i: usize, command: &str, rss: u64, no_color: bool) -> (r: String)
    requires
        i < usize::MAX,
    ensures
        row_shown(i as int, command@, rss, no_color, r@),
{
    let mut num = String::new();
    push_decimal(&mut num, i as u128 + 1);
    num.append(".");
    assert(num@ =~= place(i as int));
    let short = clip(command);
    let mem = format_human(rss);
    if no_color {
        let field = pad(short.as_str(), 20);
        process_row(num.as_str(), field.as_str(), mem.as_str())
    } else {
        let n = paint_cyan(num.as_str());
        let c = paint_blue_wide(short.as_str(), 20);
        let m = paint_green(mem.as_str());
        process_row(n.as_str(), c.as_str(), m.as_str())
    }
}

/// Shows the processes as a list.
pub fn display_top_processes(processes: &[(String, u64)], no_color: bool) -> (r: String)
    ensures
        exists|ls: Seq<Seq<char>>|
            #[trigger] top_lines(processes@, no_color, ls) && r@ == join(ls, "\n"@),
{
    let mut ls: Vec<String> = Vec::new();
    let heading = if no_color {
        "Top processes:".to_owned()
    } else {
        paint_bold_cyan(" Top processes ")
    };
    ls.push(heading);
    for i in 0..processes.len()
        invariant
            ls@.len() == i + 1,
            heading_shown(no_color, ls@[0]@),
            forall|j: int|
                #![trigger processes@[j]]
                0 <= j < i ==> row_shown(
                    j,
                    processes@[j].0@,
                    processes@[j].1,
                    no_color,
                    ls@[j + 1]@,
                ),
    {
        let shown = show_process(i, processes[i].0.as_str(), processes[i].1, no_color);
        ls.push(shown);
    }
    let r = joined(&ls, "\n");
    proof {
        let shown = views(ls@);
        assert(shown[0] == ls@[0]@);
        assert forall|i: int|
            #![trigger processes@[i]]
            0 <= i < processes@.len() implies row_shown(
            i,
            processes@[i].0@,
            processes@[i].1,
            no_color,
            shown[i + 1],
        ) by {
            assert(shown[i + 1] == ls@[i + 1]@);
        }
        assert(top_lines(processes@, no_color, shown));
    }
    r
}

/// A bar has as many cells as it is asked to have, whatever the share; in plain characters it
/// stands between brackets.
pub proof fn law_bar_width(filled: nat, bars: u8)
    requires
        filled <= bars,
    ensures
        block_bar(filled, bars).len() == bars,
        plain_bar(filled, bars).len() == bars + 2,
{
}

/// Without colours, the full line is determined by the figures.
pub proof fn law_plain_line_is_fixed(
    stats: MemStats,
    options: Options,
    cpu: Option<CpuStats>,
    prev_mem: Option<i64>,
    prev_net: Option<(i64, i64)>,
    storage: Option<(u64, u64)>,
    battery: Option<(u64, String)>,
    net: Option<(u64, u64)>,
    one: Seq<char>,
    other: Seq<char>,
)
    requires
        options.no_color,
        compact_shown(stats, options, cpu, prev_mem, prev_net, storage, battery, net, one),
        compact_shown(stats, options, cpu, prev_mem, prev_net, storage, battery, net, other),
    ensures
        one == other,
{
    let network = network_text(net, options, prev_net);
    let (m1, l1, d1, c1) = choose|
        memory: Seq<char>,
        load: Option<Seq<char>>,
        disk: Option<Seq<char>>,
        charge: Option<Seq<char>>,
    |
        {
            &&& memory_shown(stats, options, prev_mem, memory)
            &&& cpu_shown(cpu, options, load)
            &&& storage_shown(storage, options, disk)
            &&& battery_shown(battery, options, charge)
            &&& one == join(#[trigger] compact_parts(memory, load, disk, charge, network), "  "@)
        };
    let (m2, l2, d2, c2) = choose|
        memory: Seq<char>,
        load: Option<Seq<char>>,
        disk: Option<Seq<char>>,
        charge: Option<Seq<char>>,
    |
        {
            &&& memory_shown(stats, options, prev_mem, memory)
            &&& cpu_shown(cpu, options, load)
            &&& storage_shown(storage, options, disk)
            &&& battery_shown(battery, options, charge)
            &&& other == join(#[trigger] compact_parts(memory, load, disk, charge, network), "  "@)
        };
    assert(m1 == m2);
    assert(l1 == l2);
    assert(d1 == d2);
    assert(c1 == c2);
}

/// Without colours, the list of processes is determined by the processes.
pub proof fn law_plain_list_is_fixed(
    processes: Seq<(String, u64)>,
    one: Seq<Seq<char>>,
    other: Seq<Seq<char>>,
)
    requires
        top_lines(processes, true, one),
        top_lines(processes, true, other),
    ensures
        one == other,
{
    assert forall|i: int| 0 <= i < one.len() implies one[i] == other[i] by {
        if i > 0 {
            let p = processes[i - 1];
        }
    }
    assert(one =~= other);
}

/// Before there is a reading to compare with, the amounts of memory are shown even where
/// changes are asked for, and the traffic is not shown there.
pub proof fn law_first_reading(stats: MemStats, options: Options, net: Option<(u64, u64)>)
    ensures
        memory_text(stats, options.delta, None) == memory_text(stats, false, None),
        options.delta ==> network_text(net, options, None) is None,
{
}

/// Where nothing changed since the previous reading, a change of zero is shown, without sign.
pub proof fn law_unchanged_reading(stats: MemStats)
    ensures
        memory_text(stats, true, Some(stats.used_kb as i64)) == "RAM "@ + readable::human(0),
{
    readable::law_delta_of_nothing(stats.used_kb as i64 as int);
}

/// What is not asked for is not shown.
pub proof fn law_not_asked_not_shown(
    options: Options,
    cpu: Option<CpuStats>,
    storage: Option<(u64, u64)>,
    battery: Option<(u64, String)>,
    net: Option<(u64, u64)>,
    prev_net: Option<(i64, i64)>,
    part: Option<Seq<char>>,
)
    requires
        !options.all,
    ensures
        !options.cpu && cpu_shown(cpu, options, part) ==> part is None,
        !options.storage && storage_shown(storage, options, part) ==> part is None,
        !options.battery && battery_shown(battery, options, part) ==> part is None,
        !options.network ==> network_text(net, options, prev_net) is None,
{
}

} // verus!
