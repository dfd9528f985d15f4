//! The course of a run: what is printed for each reading, and what is kept for the next.
use vstd::prelude::*;

use crate::display;
use crate::display::{can_show_compact, display_compact, display_minimal};
use crate::linux::MemScan;
use crate::number;
use crate::options::Options;
use crate::readable;
use crate::readable::chrono_lite_timestamp;
use crate::stats::{CpuStats, MemStats};

verus! {

/// What was read of a machine at one time. What was not asked for, or could not be had, is
/// not there.
#[derive(Debug)]
pub struct Sample {
    pub memory: MemStats,
    pub cpu: Option<CpuStats>,
    pub storage: Option<(u64, u64)>,
    pub battery: Option<(u64, String)>,
    pub network: Option<(u64, u64)>,
}

impl Sample {
    /// Whether all shares are values that the formats of their precision have.
    pub open spec fn wf(self) -> bool {
        &&& self.memory.used_percent.wf()
        &&& self.cpu is Some ==> self.cpu->0.wf()
    }
}

/// What to do for a reading.
#[derive(Debug)]
pub enum Output {
    /// Print nothing.
    Nothing,
    /// Print the memory and the processor's load as JSON.
    Json,
    /// Print the text, and nothing behind it.
    Text(String),
}

/// The figures of the previous reading, to which changes are counted.
#[derive(Clone, Copy, Debug, PartialEq, Eq)]
pub struct Session {
    pub prev_mem: Option<i64>,
    pub prev_net: Option<(i64, i64)>,
}

/// Whether the style asked for is the short one.
pub open spec fn is_minimal(options: Options) -> bool {
    options.style@ == "minimal"@
}

impl Session {
    /// No reading yet.
    pub open spec fn start() -> Session {
        Session { prev_mem: None, prev_net: None }
    }

    /// What is kept once `sample` has been read too. Where it has no traffic, the traffic
    /// from before is kept.
    pub open spec fn with_sample(self, sample: Sample) -> Session {
        Session {
            prev_mem: Some(sample.memory.used_kb as i64),
            prev_net: match sample.network {
                Some((rx, tx)) => Some((rx as i64, tx as i64)),
                None => self.prev_net,
            },
        }
    }

    /// Whether `r` shows a sample in the style asked for.
    pub open spec fn shown(self, options: Options, sample: Sample, r: Seq<char>) -> bool {
        if is_minimal(options) {
            r == number::one_decimal(sample.memory.used_percent.tenths()) + "%"@
        } else {
            display::compact_shown(
                sample.memory,
                options,
                sample.cpu,
                self.prev_mem,
                self.prev_net,
                sample.storage,
                sample.battery,
                sample.network,
                r,
            )
        }
    }

    /// Whether a sample can be shown in the style asked for.
    pub open spec fn fits(self, options: Options, sample: Sample) -> bool {
        is_minimal(options) || display::compact_fits(
            sample.memory,
            options,
            self.prev_mem,
            self.prev_net,
            sample.network,
        )
    }

    /// Begins a run.
    pub fn new() -> (r: Session)
        ensures
            r == Session::start(),
    {
        Session { prev_mem: None, prev_net: None }
    }

    /// Decides whether a sample can be shown in the style asked for.
    pub fn can_show(&self, options: &Options, sample: &Sample) -> (r: bool)
        requires
            sample.wf(),
        ensures
            r == self.fits(*options, *sample),
    {
        minimal(options) || can_show_compact(
            &sample.memory,
            options,
            self.prev_mem,
            self.prev_net,
            sample.network,
        )
    }

    /// Shows a sample in the style asked for.
    pub fn show(&self, options: &Options, sample: &Sample) -> (r: String)
        requires
            sample.wf(),
            self.fits(*options, *sample),
        ensures
            self.shown(*options, *sample, r@),
    {
        if minimal(options) {
            display_minimal(&sample.memory)
        } else {
            display_compact(
                &sample.memory,
                options,
                sample.cpu.as_ref(),
                self.prev_mem,
                self.prev_net,
                sample.storage,
                &sample.battery,
                sample.network,
            )
        }
    }

    /// Keeps what the next reading needs of a sample.
    pub fn record(&mut self, sample: &Sample)
        ensures
            *final(self) == old(self).with_sample(*sample),
    {
        self.prev_mem = Some(#[verifier::truncate] (sample.memory.used_kb as i64));
        if let Some((rx, tx)) = sample.network {
            self.prev_net =
            Some((#[verifier::truncate] (rx as i64), #[verifier::truncate] (tx as i64)));
        }
    }
}

/// Decides whether the style asked for is the short one.
fn minimal(options: &Options) -> (r: bool)
    ensures
        r == is_minimal(*options),
{
    options.style == "minimal".to_owned()
}

/// What stands before a line: the time, where it is asked for.
pub open spec fn stamp(options: Options, secs: u64) -> Seq<char> {
    if options.timestamp {
        "["@ + readable::clock(secs as nat) + "] "@
    } else {
        Seq::empty()
    }
}

/// Writes what stands before a line.
fn write_stamp(options: &Options, secs: u64) -> (r: String)
    ensures
        r@ == stamp(*options, secs),
{
    let mut r = String::new();
    if options.timestamp {
        let clock = chrono_lite_timestamp(secs);
        r.append("[");
        r.append(clock.as_str());
        r.append("] ");
        assert(r@ =~= stamp(*options, secs));
    }
    r
}

/// The text that puts a message on the screen: over the line before in a run of many
/// readings, and on a line of its own behind a single one.
pub open spec fn screen_text(options: Options, message: Seq<char>) -> Seq<char> {
    if options.interval > 0 {
        "\r"@ + message
    } else {
        message + "\n"@
    }
}

/// Whether `out` puts a message on the screen, unless silence is asked for.
pub open spec fn printed(options: Options, message: Seq<char>, out: Output) -> bool {
    if options.quiet {
        out is Nothing
    } else {
        out is Text && out->Text_0@ == screen_text(options, message)
    }
}

/// Puts a message on the screen, unless silence is asked for.
pub fn output(options: &Options, message: &str) -> (out: Output)
    ensures
        printed(*options, message@, out),
{
    if options.quiet {
        return Output::Nothing;
    }
    let mut r = String::new();
    if options.interval > 0 {
        r.append("\r");
        r.append(message);
    } else {
        r.append(message);
        r.append("\n");
    }
    assert(r@ =~= screen_text(*options, message@));
    Output::Text(r)
}

/// Decides what to print for a single reading.
pub fn snapshot(options: &Options, sample: &Sample) -> (out: Output)
    requires
        sample.wf(),
        options.json || Session::start().fits(*options, *sample),
    ensures
        if options.quiet {
            out is Nothing
        } else if options.json {
            out is Json
        } else {
            exists|line: Seq<char>|
                #[trigger] Session::start().shown(*options, *sample, line) && printed(
                    *options,
                    line,
                    out,
                )
        },
{
    if options.quiet {
        return Output::Nothing;
    }
    if options.json {
        return Output::Json;
    }
    let line = Session::new().show(options, sample);
    output(options, line.as_str())
}

/// Decides what to print for one of many readings, taken at `secs` seconds after the start of
/// 1970, and keeps what the next one needs.
pub fn advance(session: &mut Session, options: &Options, sample: &Sample, secs: u64) -> (out:
    Output)
    requires
        sample.wf(),
        options.json || old(session).fits(*options, *sample),
    ensures
        *final(session) == old(session).with_sample(*sample),
        if options.quiet {
            out is Nothing
        } else if options.json {
            out is Json
        } else {
            exists|line: Seq<char>|
                #[trigger] old(session).shown(*options, *sample, line) && printed(
                    *options,
                    stamp(*options, secs) + line,
                    out,
                )
        },
{
    let out = if options.quiet {
        Output::Nothing
    } else if options.json {
        Output::Json
    } else {
        let line = session.show(options, sample);
        let mut message = write_stamp(options, secs);
        message.append(line.as_str());
        output(options, message.as_str())
    };
    session.record(sample);
    out
}

/// Whether the figures kept for the next reading are amounts.
pub open spec fn keeps_amounts(session: Session) -> bool {
    &&& session.prev_mem is Some ==> session.prev_mem->0 >= 0
    &&& session.prev_net is Some ==> (session.prev_net->0).0 >= 0 && (session.prev_net->0).1 >= 0
}

/// Whether the amounts of a sample are below 2 to the power 63.
pub open spec fn has_amounts(sample: Sample) -> bool {
    &&& sample.memory.used_kb <= i64::MAX
    &&& sample.network is Some ==> (sample.network->0).0 <= i64::MAX && (sample.network->0).1
        <= i64::MAX
}

/// From one reading to the next, what is kept stays amounts.
pub proof fn law_run_keeps_amounts(session: Session, sample: Sample)
    requires
        keeps_amounts(session),
        has_amounts(sample),
    ensures
        keeps_amounts(Session::start()),
        keeps_amounts(session.with_sample(sample)),
{
}

/// In a run on a Linux machine, every reading can be shown, whatever is asked for.
pub proof fn law_linux_run_always_shows(
    session: Session,
    options: Options,
    scan: MemScan,
    sample: Sample,
)
    requires
        keeps_amounts(session),
        has_amounts(sample),
        sample.memory == scan.stats(),
    ensures
        session.fits(options, sample),
{
    crate::linux::law_memory_fits_bar(scan, options.bars);
}

/// From the second reading on, the changes that are shown, where they are asked for, are those
/// since the reading before.
pub proof fn law_change_since_last(
    session: Session,
    options: Options,
    before: Sample,
    now: Sample,
)
    requires
        has_amounts(before),
        has_amounts(now),
        options.delta,
    ensures
        display::memory_text(now.memory, options.delta, session.with_sample(before).prev_mem)
            == "RAM "@ + readable::delta_text(
            now.memory.used_kb as int,
            before.memory.used_kb as int,
        ),
        options.wants_network() && before.network is Some && now.network is Some
            ==> display::network_text(now.network, options, session.with_sample(before).prev_net)
            == Some(
            "NET "@ + seq!['\u{2193}'] + readable::delta_text(
                (now.network->0).0 as int,
                (before.network->0).0 as int,
            ) + " "@ + seq!['\u{2191}'] + readable::delta_text(
                (now.network->0).1 as int,
                (before.network->0).1 as int,
            ),
        ),
{
}

/// A reading without traffic leaves the traffic to compare with as it was.
pub proof fn law_traffic_is_kept(session: Session, sample: Sample)
    requires
        sample.network is None,
    ensures
        session.with_sample(sample).prev_net == session.prev_net,
{
}

} // verus!
