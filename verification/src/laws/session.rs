//! What is printed for a reading, and what is kept of it.
use vstd::prelude::*;

use crate::display::{change_fits, compact_fits, compact_shown, owned, plain_bar, view_of};
use crate::laws::display::{law_battery_part, law_cpu_part};
use crate::number::{decimal, one_decimal};
use crate::options::Options;
use crate::percent::{cells, percent};
use crate::readable::{clock, human};
use crate::session::{is_minimal, printed, screen_text, stamp, Output, Sample, Session};
use crate::stats::{CpuStats, MemStats};
use crate::text::join;

verus! {

/// A part is asked for by its own option or by that for all parts. JSON for a single reading
/// asks for it with an interval of zero.
pub proof fn law_what_is_asked_for(options: Options)
    ensures
        options.wants_cpu() <==> options.all || options.cpu,
        options.wants_storage() <==> options.all || options.storage,
        options.wants_battery() <==> options.all || options.battery,
        options.wants_network() <==> options.all || options.network,
        options.single_json() <==> options.interval == 0 && options.json,
        is_minimal(options) <==> options.style@ == "minimal"@,
{
}

/// What is kept of a reading are its used memory and its traffic, or the traffic kept before
/// where it has none. Nothing is kept before the first.
pub proof fn law_what_is_kept(session: Session, sample: Sample)
    ensures
        Session::start().prev_mem is None,
        Session::start().prev_net is None,
        sample.memory.used_kb <= i64::MAX ==> session.with_sample(sample).prev_mem is Some
            && session.with_sample(sample).prev_mem->0 == sample.memory.used_kb,
        sample.network is None ==> session.with_sample(sample).prev_net == session.prev_net,
        sample.network is Some && (sample.network->0).0 <= i64::MAX && (sample.network->0).1
            <= i64::MAX ==> session.with_sample(sample).prev_net is Some && (session.with_sample(
            sample,
        ).prev_net->0).0 == (sample.network->0).0 && (session.with_sample(sample).prev_net->0).1
            == (sample.network->0).1,
{
}

/// In the short style a reading is shown by the used share of the memory with one decimal and a
/// percent sign, and in any other by the full line on all its figures, against what was kept.
pub proof fn law_how_it_is_shown(session: Session, options: Options, sample: Sample, r: Seq<char>)
    ensures
        options.style@ == "minimal"@ ==> (session.shown(options, sample, r) <==> r == one_decimal(
            sample.memory.used_percent.tenths(),
        ) + "%"@),
        options.style@ != "minimal"@ ==> (session.shown(options, sample, r) <==> compact_shown(
            sample.memory,
            options,
            sample.cpu,
            session.prev_mem,
            session.prev_net,
            sample.storage,
            sample.battery,
            sample.network,
            r,
        )),
{
}

/// The time stands before the line, between brackets, if it is asked for, and else nothing does.
pub proof fn law_stamp(options: Options, secs: u64)
    ensures
        options.timestamp ==> stamp(options, secs) == "["@ + clock(secs as nat) + "] "@,
        !options.timestamp ==> stamp(options, secs) == Seq::<char>::empty(),
{
}

/// A message is printed as it is, behind a carriage return where readings follow each other, and
/// with a line feed behind it where there is one; nothing is printed where silence is asked for.
pub proof fn law_printed(options: Options, message: Seq<char>, out: Output)
    ensures
        options.quiet ==> (printed(options, message, out) <==> out is Nothing),
        !options.quiet && options.interval > 0 ==> (printed(options, message, out) <==> out is Text
            && out->Text_0@ == "\r"@ + message),
        !options.quiet && options.interval == 0 ==> (printed(options, message, out)
            <==> out is Text && out->Text_0@ == message + "\n"@),
        options.interval > 0 ==> screen_text(options, message) == "\r"@ + message,
        options.interval == 0 ==> screen_text(options, message) == message + "\n"@,
{
}

/// A reading can be shown if its memory fits its bar and the changes that it would show can be
/// counted, and in the short style always.
pub proof fn law_what_can_be_shown(session: Session, options: Options, sample: Sample)
    ensures
        options.style@ == "minimal"@ ==> session.fits(options, sample),
        options.style@ != "minimal"@ ==> (session.fits(options, sample) <==> compact_fits(
            sample.memory,
            options,
            session.prev_mem,
            session.prev_net,
            sample.network,
        )),
        sample.wf() <==> sample.memory.used_percent.wf() && (sample.cpu is Some
            ==> sample.cpu->0.wf()),
{
}

/// A full line can be shown if the memory fits its bar and, where changes are asked for and a
/// reading went before, each change lies within 64 bits with a sign.
pub proof fn law_what_fits_a_line(
    stats: MemStats,
    options: Options,
    prev_mem: Option<i64>,
    prev_net: Option<(i64, i64)>,
    net: Option<(u64, u64)>,
    current: u64,
    previous: i64,
)
    ensures
        compact_fits(stats, options, prev_mem, prev_net, net) <==> {
            &&& cells(stats.used_percent, options.bars) <= options.bars
            &&& options.delta && prev_mem is Some ==> change_fits(stats.used_kb, prev_mem->0)
            &&& options.delta && (options.all || options.network) && net is Some && prev_net is Some
                ==> change_fits((net->0).0, (prev_net->0).0) && change_fits(
                (net->0).1,
                (prev_net->0).1,
            )
        },
        current <= i64::MAX ==> (change_fits(current, previous) <==> current - previous
            <= 0x7fff_ffff_ffff_ffff),
{
}

/// The contents of what may be there are those of what is there.
pub proof fn law_contents(s: Option<String>, cpu: Option<CpuStats>)
    ensures
        s is Some ==> view_of(s) == Some(s->0@),
        s is None ==> view_of(s) is None,
        owned(None) is None,
        cpu is Some ==> owned(Some(&cpu->0)) == cpu,
{
}

/// Without colours and without changes, the line on all figures is the memory, the load, the
/// storage, the battery and the traffic, two spaces apart: each with its words, and the memory and
/// the storage behind bars of their used shares.
pub proof fn law_plain_line(
    stats: MemStats,
    options: Options,
    cpu: CpuStats,
    prev_mem: Option<i64>,
    prev_net: Option<(i64, i64)>,
    total: u64,
    available: u64,
    charge: u64,
    state: String,
    rx: u64,
    tx: u64,
    r: Seq<char>,
)
    requires
        options.no_color,
        !options.delta,
        options.all || (options.cpu && options.storage && options.battery && options.network),
        available <= total,
        compact_shown(
            stats,
            options,
            Some(cpu),
            prev_mem,
            prev_net,
            Some((total, available)),
            Some((charge, state)),
            Some((rx, tx)),
            r,
        ),
    ensures
        ({
            let memory = plain_bar(cells(stats.used_percent, options.bars), options.bars) + " "@ + (
            "RAM "@ + human(stats.used_kb as nat) + " / "@ + human(stats.total_kb as nat));
            let load = "CPU "@ + cpu.usage_percent.text() + "%"@;
            let used = (total - available) as nat;
            let disk = plain_bar(
                cells(percent(used, total as nat), options.bars),
                options.bars,
            ) + " "@ + ("DISK "@ + human(used) + " / "@ + human(total as nat));
            let battery = "BAT "@ + decimal(charge as nat) + "% ("@ + state@ + ")"@;
            let traffic = "NET "@ + seq!['\u{2193}'] + human(rx as nat) + " "@ + seq!['\u{2191}']
                + human(tx as nat);
            r == memory + "  "@ + load + "  "@ + disk + "  "@ + battery + "  "@ + traffic
        }),
{
    let network = crate::display::network_text(Some((rx, tx)), options, prev_net);
    let (m, l, d, c) = choose|
        memory: Seq<char>,
        load: Option<Seq<char>>,
        disk: Option<Seq<char>>,
        charge_part: Option<Seq<char>>,
    |
        {
            &&& crate::display::memory_shown(stats, options, prev_mem, memory)
            &&& crate::display::cpu_shown(Some(cpu), options, load)
            &&& crate::display::storage_shown(Some((total, available)), options, disk)
            &&& crate::display::battery_shown(Some((charge, state)), options, charge_part)
            &&& r == join(
                #[trigger] crate::display::compact_parts(
                    memory,
                    load,
                    disk,
                    charge_part,
                    network,
                ),
                "  "@,
            )
        };
    law_cpu_part(cpu, options, l);
    law_battery_part(charge, state, options, c);
    let parts = crate::display::compact_parts(m, l, d, c, network);
    let sep = "  "@;
    assert(parts =~= seq![m, l->0, d->0, c->0, network->0]);
    let p4 = parts.drop_last();
    let p3 = p4.drop_last();
    let p2 = p3.drop_last();
    let p1 = p2.drop_last();
    assert(join(p1, sep) == m);
    assert(join(p2, sep) == m + sep + l->0);
    assert(join(p3, sep) == m + sep + l->0 + sep + d->0);
    assert(join(p4, sep) == m + sep + l->0 + sep + d->0 + sep + c->0);
    assert(join(parts, sep) == m + sep + l->0 + sep + d->0 + sep + c->0 + sep + network->0);
}

} // verus!
