//! What a full line depends on, and what it does not.
use vstd::prelude::*;

use crate::binary;
use crate::binary::Double;
use crate::display::{
    bar_shown, bar_style, battery_shown, battery_text, block_bar, compact_fits, compact_parts,
    compact_shown, cpu_shown, law_plain_line_is_fixed, memory_shown, memory_text, network_text,
    plain_bar, storage_shown, storage_text, storage_used,
};
use crate::number;
use crate::options::Options;
use crate::paint::{cyan, in_style, purple};
use crate::percent;
use crate::readable;
use crate::stats::{CpuStats, MemStats};
use crate::text;
use crate::text::join;

verus! {

/// A share as a bar, where colours are on or off.
pub open spec fn bar_at(on: bool, percent: Double, options: Options) -> Seq<char> {
    let filled = percent::cells(percent, options.bars);
    if options.no_color {
        plain_bar(filled, options.bars)
    } else {
        in_style(on, bar_style(percent), block_bar(filled, options.bars))
    }
}

/// A text in a style, where colours are on or off, unless none are asked for.
pub open spec fn tinted_at(
    on: bool,
    options: Options,
    style: Seq<char>,
    s: Seq<char>,
) -> Seq<char> {
    if options.no_color {
        s
    } else {
        in_style(on, style, s)
    }
}

/// All that a full line is made of, besides the options.
pub struct Figures {
    pub stats: MemStats,
    pub cpu: Option<CpuStats>,
    pub prev_mem: Option<i64>,
    pub prev_net: Option<(i64, i64)>,
    pub storage: Option<(u64, u64)>,
    pub battery: Option<(u64, String)>,
    pub net: Option<(u64, u64)>,
}

impl Figures {
    /// Whether `r` is a full line on these figures.
    pub open spec fn shown(self, options: Options, r: Seq<char>) -> bool {
        compact_shown(
            self.stats,
            options,
            self.cpu,
            self.prev_mem,
            self.prev_net,
            self.storage,
            self.battery,
            self.net,
            r,
        )
    }

    /// The part on the memory, where colours are on or off.
    pub open spec fn memory_at(self, options: Options, on: bool) -> Seq<char> {
        bar_at(on, self.stats.used_percent, options) + " "@ + memory_text(
            self.stats,
            options.delta,
            self.prev_mem,
        )
    }

    /// The part on the load, where colours are on or off.
    pub open spec fn cpu_at(self, options: Options, on: bool) -> Option<Seq<char>> {
        if options.wants_cpu() && self.cpu is Some {
            Some(
                tinted_at(
                    on,
                    options,
                    purple(),
                    "CPU "@ + self.cpu->0.usage_percent.text() + "%"@,
                ),
            )
        } else {
            None
        }
    }

    /// The part on the storage, where colours are on or off.
    pub open spec fn storage_at(self, options: Options, on: bool) -> Option<Seq<char>> {
        if options.wants_storage() && self.storage is Some {
            let share = percent::percent(
                storage_used(self.storage->0) as nat,
                (self.storage->0).0 as nat,
            );
            Some(bar_at(on, share, options) + " "@ + storage_text(self.storage->0))
        } else {
            None
        }
    }

    /// The part on the battery, where colours are on or off.
    pub open spec fn battery_at(self, options: Options, on: bool) -> Option<Seq<char>> {
        if options.wants_battery() && self.battery is Some {
            Some(
                tinted_at(
                    on,
                    options,
                    cyan(),
                    battery_text((self.battery->0).0, (self.battery->0).1@),
                ),
            )
        } else {
            None
        }
    }

    /// The full line on these figures, where colours are on or off throughout.
    pub open spec fn line_at(self, options: Options, on: bool) -> Seq<char> {
        join(
            compact_parts(
                self.memory_at(options, on),
                self.cpu_at(options, on),
                self.storage_at(options, on),
                self.battery_at(options, on),
                network_text(self.net, options, self.prev_net),
            ),
            "  "@,
        )
    }

    /// Whether these figures can be shown as a full line.
    pub open spec fn fits(self, options: Options) -> bool {
        compact_fits(self.stats, options, self.prev_mem, self.prev_net, self.net)
    }
}

/// Whether the figures `f` with the options `a` and the figures `g` with the options `b` give
/// the same lines: they can be shown in the same cases, the same texts are lines on them, their
/// lines are equal where colours are on for both or off for both, and without colours their
/// lines are equal in any case.
pub open spec fn same_line(f: Figures, a: Options, g: Figures, b: Options) -> bool {
    &&& f.fits(a) == g.fits(b)
    &&& forall|r: Seq<char>| #[trigger] f.shown(a, r) <==> g.shown(b, r)
    &&& forall|on: bool| #[trigger] f.line_at(a, on) == g.line_at(b, on)
    &&& a.no_color ==> forall|one: Seq<char>, other: Seq<char>|
        #[trigger] f.shown(a, one) && #[trigger] g.shown(b, other) ==> one == other
}

/// Where each part shown of `f` is one shown of `g`, a line on `f` is one on `g`.
proof fn lemma_line_carries(f: Figures, a: Options, g: Figures, b: Options, r: Seq<char>)
    requires
        forall|m: Seq<char>|
            memory_shown(f.stats, a, f.prev_mem, m) ==> #[trigger] memory_shown(
                g.stats,
                b,
                g.prev_mem,
                m,
            ),
        forall|m: Option<Seq<char>>| cpu_shown(f.cpu, a, m) ==> #[trigger] cpu_shown(g.cpu, b, m),
        forall|m: Option<Seq<char>>|
            storage_shown(f.storage, a, m) ==> #[trigger] storage_shown(g.storage, b, m),
        forall|m: Option<Seq<char>>|
            battery_shown(f.battery, a, m) ==> #[trigger] battery_shown(g.battery, b, m),
        network_text(f.net, a, f.prev_net) == network_text(g.net, b, g.prev_net),
        f.shown(a, r),
    ensures
        g.shown(b, r),
{
    let network = network_text(g.net, b, g.prev_net);
    let (memory, load, disk, charge) = choose|
        memory: Seq<char>,
        load: Option<Seq<char>>,
        disk: Option<Seq<char>>,
        charge: Option<Seq<char>>,
    |
        {
            &&& memory_shown(f.stats, a, f.prev_mem, memory)
            &&& cpu_shown(f.cpu, a, load)
            &&& storage_shown(f.storage, a, disk)
            &&& battery_shown(f.battery, a, charge)
            &&& r == join(#[trigger] compact_parts(memory, load, disk, charge, network), "  "@)
        };
    assert(memory_shown(g.stats, b, g.prev_mem, memory));
    assert(cpu_shown(g.cpu, b, load));
    assert(storage_shown(g.storage, b, disk));
    assert(battery_shown(g.battery, b, charge));
}

/// Whether the options that the line goes by, besides those on its parts, are the same.
pub open spec fn alike(a: Options, b: Options) -> bool {
    a.no_color == b.no_color && a.delta == b.delta && a.bars == b.bars
}

/// Figures of which the same parts are shown give the same line.
proof fn lemma_same_line(f: Figures, a: Options, g: Figures, b: Options)
    requires
        alike(a, b),
        f.fits(a) == g.fits(b),
        g.stats.total_kb == f.stats.total_kb,
        g.stats.used_kb == f.stats.used_kb,
        g.stats.used_percent == f.stats.used_percent,
        memory_text(f.stats, a.delta, f.prev_mem) == memory_text(g.stats, b.delta, g.prev_mem),
        (a.wants_cpu() && f.cpu is Some) == (b.wants_cpu() && g.cpu is Some),
        a.wants_cpu() && f.cpu is Some ==> g.cpu->0.usage_percent == f.cpu->0.usage_percent,
        (a.wants_storage() && f.storage is Some) == (b.wants_storage() && g.storage is Some),
        a.wants_storage() && f.storage is Some ==> g.storage == f.storage,
        (a.wants_battery() && f.battery is Some) == (b.wants_battery() && g.battery is Some),
        a.wants_battery() && f.battery is Some ==> g.battery == f.battery,
        network_text(f.net, a, f.prev_net) == network_text(g.net, b, g.prev_net),
    ensures
        same_line(f, a, g, b),
{
    assert forall|r: Seq<char>| #[trigger] f.shown(a, r) <==> g.shown(b, r) by {
        if f.shown(a, r) {
            lemma_line_carries(f, a, g, b, r);
        }
        if g.shown(b, r) {
            lemma_line_carries(g, b, f, a, r);
        }
    }
    assert forall|one: Seq<char>, other: Seq<char>|
        a.no_color && #[trigger] f.shown(a, one) && #[trigger] g.shown(b, other) implies one
        == other by {
        assert(f.shown(a, other));
        law_plain_line_is_fixed(
            f.stats,
            a,
            f.cpu,
            f.prev_mem,
            f.prev_net,
            f.storage,
            f.battery,
            f.net,
            one,
            other,
        );
    }
}

/// Whether colours are on or off, the line with or without them is a full line on the figures;
/// and where none are asked for there is no other.
pub proof fn law_line_is_shown(f: Figures, options: Options, on: bool)
    ensures
        f.shown(options, f.line_at(options, on)),
        options.no_color ==> forall|r: Seq<char>| #[trigger]
            f.shown(options, r) ==> r == f.line_at(options, on),
{
    let line = f.line_at(options, on);
    let memory = f.memory_at(options, on);
    let bar = bar_at(on, f.stats.used_percent, options);
    assert(bar_shown(f.stats.used_percent, options.bars, options.no_color, bar));
    assert(memory_shown(f.stats, options, f.prev_mem, memory));
    assert(cpu_shown(f.cpu, options, f.cpu_at(options, on)));
    if options.wants_storage() && f.storage is Some {
        let share = percent::percent(
            storage_used(f.storage->0) as nat,
            (f.storage->0).0 as nat,
        );
        assert(bar_shown(share, options.bars, options.no_color, bar_at(on, share, options)));
    }
    assert(storage_shown(f.storage, options, f.storage_at(options, on)));
    assert(battery_shown(f.battery, options, f.battery_at(options, on)));
    assert(f.shown(options, line));
    assert forall|r: Seq<char>| options.no_color && #[trigger] f.shown(options, r) implies r
        == line by {
        law_plain_line_is_fixed(
            f.stats,
            options,
            f.cpu,
            f.prev_mem,
            f.prev_net,
            f.storage,
            f.battery,
            f.net,
            r,
            line,
        );
    }
}

/// Asking for all shows what asking for the load, the storage, the battery and the traffic one
/// by one shows, whatever is asked for besides.
pub proof fn law_all_is_all_four(f: Figures, a: Options, b: Options)
    requires
        a.all,
        b.cpu && b.storage && b.battery && b.network,
        alike(a, b),
    ensures
        same_line(f, a, f, b),
{
    lemma_same_line(f, a, f, b);
}

/// A figure that is not asked for leaves the line as if it were absent.
pub proof fn law_not_asked_is_absent(f: Figures, options: Options)
    ensures
        !options.wants_cpu() ==> same_line(f, options, Figures { cpu: None, ..f }, options),
        !options.wants_storage() ==> same_line(f, options, Figures { storage: None, ..f }, options),
        !options.wants_battery() ==> same_line(f, options, Figures { battery: None, ..f }, options),
        !options.wants_network() ==> same_line(f, options, Figures { net: None, ..f }, options),
{
    if !options.wants_cpu() {
        lemma_same_line(f, options, Figures { cpu: None, ..f }, options);
    }
    if !options.wants_storage() {
        lemma_same_line(f, options, Figures { storage: None, ..f }, options);
    }
    if !options.wants_battery() {
        lemma_same_line(f, options, Figures { battery: None, ..f }, options);
    }
    if !options.wants_network() {
        lemma_same_line(f, options, Figures { net: None, ..f }, options);
    }
}

/// Where no changes are asked for, the previous reading does not count.
pub proof fn law_previous_only_for_changes(
    f: Figures,
    options: Options,
    prev_mem: Option<i64>,
    prev_net: Option<(i64, i64)>,
)
    requires
        !options.delta,
    ensures
        same_line(f, options, Figures { prev_mem, prev_net, ..f }, options),
{
    lemma_same_line(f, options, Figures { prev_mem, prev_net, ..f }, options);
}

/// Where changes are asked for and there is no previous traffic, the line is the one without
/// traffic.
pub proof fn law_first_line_without_traffic(f: Figures, options: Options)
    requires
        options.delta,
        f.prev_net is None,
    ensures
        same_line(f, options, Figures { net: None, ..f }, options),
{
    lemma_same_line(f, options, Figures { net: None, ..f }, options);
}

/// The line does not depend on the available memory, on the single cores, nor on the options on
/// silence, interval, JSON, processes, style and time.
pub proof fn law_unused_figures(f: Figures, a: Options, b: Options, stats: MemStats, cpu: CpuStats)
    requires
        alike(a, b),
        a.all == b.all,
        a.cpu == b.cpu,
        a.storage == b.storage,
        a.battery == b.battery,
        a.network == b.network,
        stats.total_kb == f.stats.total_kb,
        stats.used_kb == f.stats.used_kb,
        stats.used_percent == f.stats.used_percent,
        f.cpu is Some ==> cpu.usage_percent == f.cpu->0.usage_percent,
    ensures
        same_line(
            f,
            a,
            (Figures {
                stats,
                cpu: if f.cpu is Some {
                    Some(cpu)
                } else {
                    None
                },
                ..f
            }),
            b,
        ),
{
    let g = Figures {
        stats,
        cpu: if f.cpu is Some {
            Some(cpu)
        } else {
            None
        },
        ..f
    };
    lemma_same_line(f, a, g, b);
}

/// Whether all spaces in `s` are single ones between other characters.
pub open spec fn is_spaced(s: Seq<char>) -> bool {
    &&& s.len() > 0
    &&& s[0] != ' '
    &&& s.last() != ' '
    &&& forall|i: int| 0 <= i < s.len() - 1 && #[trigger] s[i] == ' ' ==> s[i + 1] != ' '
}

/// Text without spaces has no two of them in a row.
proof fn lemma_solid(s: Seq<char>)
    requires
        s.len() > 0,
        forall|i: int| 0 <= i < s.len() ==> #[trigger] s[i] != ' ',
    ensures
        is_spaced(s),
{
}

/// A single space between two texts leaves all spaces single.
proof fn lemma_spaced_joined(a: Seq<char>, b: Seq<char>)
    requires
        is_spaced(a),
        is_spaced(b),
    ensures
        is_spaced(a + " "@ + b),
        is_spaced(a + b),
{
    reveal_strlit(" ");
    let s = a + " "@ + b;
    let k = a.len() as int;
    assert forall|i: int| 0 <= i < s.len() - 1 && #[trigger] s[i] == ' ' implies s[i + 1]
        != ' ' by {
        if i < k - 1 {
            assert(s[i] == a[i] && s[i + 1] == a[i + 1]);
        } else if i == k - 1 {
            assert(s[i] == a.last());
        } else if i == k {
            assert(s[i + 1] == b[0]);
        } else {
            assert(s[i] == b[i - k - 1] && s[i + 1] == b[i - k]);
        }
    }
    assert(s[0] == a[0]);
    assert(s.last() == b.last());
    let t = a + b;
    assert forall|i: int| 0 <= i < t.len() - 1 && #[trigger] t[i] == ' ' implies t[i + 1]
        != ' ' by {
        if i < k - 1 {
            assert(t[i] == a[i] && t[i + 1] == a[i + 1]);
        } else if i == k - 1 {
            assert(t[i] == a.last());
        } else {
            assert(t[i] == b[i - k] && t[i + 1] == b[i - k + 1]);
        }
    }
    assert(t[0] == a[0]);
    assert(t.last() == b.last());
}

/// Where all spaces are single ones, two of them stand nowhere.
proof fn lemma_spaced_has_no_gap(s: Seq<char>)
    requires
        is_spaced(s),
    ensures
        !text::has(s, "  "@),
{
    reveal_strlit("  ");
    assert forall|i: int| !text::stands_at(s, "  "@, i) by {
        if text::stands_at(s, "  "@, i) {
            assert(s.subrange(i, i + 2)[0] == s[i]);
            assert(s.subrange(i, i + 2)[1] == s[i + 1]);
        }
    }
}

/// An amount has single spaces only.
proof fn lemma_human_spaced(kb: nat)
    ensures
        is_spaced(readable::human(kb)),
{
    let k = binary::held(kb);
    let gib = k >= readable::KB_PER_GIB;
    let tenths = if gib {
        binary::nearest(10 * k, readable::KB_PER_GIB as nat)
    } else {
        binary::nearest(10 * k, readable::KB_PER_MIB as nat)
    };
    let amount = number::one_decimal(tenths);
    number::lemma_decimal(tenths / 10);
    let whole = number::decimal(tenths / 10);
    assert forall|i: int| 0 <= i < amount.len() implies #[trigger] amount[i] != ' ' by {
        if i < whole.len() {
            assert(number::is_digit(whole[i]));
            assert(amount[i] == whole[i]);
        }
    }
    lemma_solid(amount);
    reveal_strlit(" ");
    reveal_strlit(" GiB");
    reveal_strlit(" MiB");
    lemma_solid(seq!['G', 'i', 'B']);
    lemma_solid(seq!['M', 'i', 'B']);
    lemma_spaced_joined(amount, seq!['G', 'i', 'B']);
    lemma_spaced_joined(amount, seq!['M', 'i', 'B']);
    assert(amount + " GiB"@ =~= amount + " "@ + seq!['G', 'i', 'B']);
    assert(amount + " MiB"@ =~= amount + " "@ + seq!['M', 'i', 'B']);
}

/// The text on the memory has single spaces only.
proof fn lemma_memory_spaced(stats: MemStats, delta: bool, previous: Option<i64>)
    ensures
        is_spaced(memory_text(stats, delta, previous)),
{
    let ram = seq!['R', 'A', 'M'];
    reveal_strlit(" ");
    reveal_strlit("RAM ");
    lemma_solid(ram);
    if delta && previous is Some {
        let change = stats.used_kb as i64 - previous->0;
        let amount = readable::human(binary::abs(change) as nat);
        let shown = readable::sign(change) + amount;
        reveal_strlit("+");
        reveal_strlit("-");
        lemma_human_spaced(binary::abs(change) as nat);
        if change == 0 {
            assert(shown =~= amount);
        } else {
            lemma_solid(readable::sign(change));
            lemma_spaced_joined(readable::sign(change), amount);
        }
        lemma_spaced_joined(ram, shown);
        assert(memory_text(stats, delta, previous) =~= ram + " "@ + shown);
    } else {
        let used = readable::human(stats.used_kb as nat);
        let total = readable::human(stats.total_kb as nat);
        reveal_strlit(" / ");
        lemma_human_spaced(stats.used_kb as nat);
        lemma_human_spaced(stats.total_kb as nat);
        lemma_solid(seq!['/']);
        lemma_spaced_joined(ram, used);
        lemma_spaced_joined(ram + " "@ + used, seq!['/']);
        lemma_spaced_joined(ram + " "@ + used + " "@ + seq!['/'], total);
        assert(memory_text(stats, delta, previous) =~= ram + " "@ + used + " "@ + seq!['/'] + " "@
            + total);
    }
}

/// Where nothing else is asked for, the line is the part on the memory, and has no part behind
/// it: without colours, no two spaces stand in it.
pub proof fn law_memory_alone(f: Figures, options: Options, r: Seq<char>)
    requires
        !options.wants_cpu(),
        !options.wants_storage(),
        !options.wants_battery(),
        !options.wants_network(),
    ensures
        f.shown(options, r) <==> memory_shown(f.stats, options, f.prev_mem, r),
        options.no_color && f.shown(options, r) ==> !text::has(r, "  "@),
{
    let nothing: Option<Seq<char>> = None;
    assert forall|m: Seq<char>|
        join(#[trigger] compact_parts(m, nothing, nothing, nothing, nothing), "  "@) == m by {
        assert(compact_parts(m, nothing, nothing, nothing, nothing) =~= seq![m]);
    }
    assert(network_text(f.net, options, f.prev_net) == nothing);
    if memory_shown(f.stats, options, f.prev_mem, r) {
        assert(cpu_shown(f.cpu, options, nothing));
        assert(storage_shown(f.storage, options, nothing));
        assert(battery_shown(f.battery, options, nothing));
        assert(r == join(compact_parts(r, nothing, nothing, nothing, nothing), "  "@));
    }
    if options.no_color && memory_shown(f.stats, options, f.prev_mem, r) {
        let bar = plain_bar(percent::cells(f.stats.used_percent, options.bars), options.bars);
        lemma_memory_spaced(f.stats, options.delta, f.prev_mem);
        lemma_solid(bar);
        lemma_spaced_joined(bar, memory_text(f.stats, options.delta, f.prev_mem));
        lemma_spaced_has_no_gap(r);
    }
}

} // verus!
