//! What the user asks for.
use vstd::prelude::*;

verus! {

/// What the user asks for on the command line.
#[derive(Debug)]
pub struct Options {
    /// Print errors only.
    pub quiet: bool,
    /// Seconds between two readings; zero for a single one.
    pub interval: u64,
    /// Print JSON.
    pub json: bool,
    /// Print without colours.
    pub no_color: bool,
    /// Show the storage.
    pub storage: bool,
    /// Show the battery.
    pub battery: bool,
    /// Show the network's traffic.
    pub network: bool,
    /// Show the processor's load.
    pub cpu: bool,
    /// Show all of these.
    pub all: bool,
    /// How many processes to list.
    pub top: u8,
    /// Show changes between readings.
    pub delta: bool,
    /// The style of the line: `minimal`, or any other for the full line.
    pub style: String,
    /// How many cells a bar has.
    pub bars: u8,
    /// Show the time of each reading.
    pub timestamp: bool,
}

/// The greatest interval, in seconds: a day.
pub const MAX_INTERVAL: u64 = 86_400;

/// The readings to take besides that of the memory.
#[derive(Clone, Copy, Debug, PartialEq, Eq, Structural)]
pub struct Wanted {
    pub cpu: bool,
    pub storage: bool,
    pub battery: bool,
    pub network: bool,
}

impl Options {
    /// Whether the processor's load is asked for.
    pub open spec fn wants_cpu(self) -> bool {
        self.all || self.cpu
    }

    /// Whether the storage is asked for.
    pub open spec fn wants_storage(self) -> bool {
        self.all || self.storage
    }

    /// Whether the battery is asked for.
    pub open spec fn wants_battery(self) -> bool {
        self.all || self.battery
    }

    /// Whether the network's traffic is asked for.
    pub open spec fn wants_network(self) -> bool {
        self.all || self.network
    }

    /// Whether a single reading is to be printed as JSON, which shows the memory and the
    /// processor's load only.
    pub open spec fn single_json(self) -> bool {
        self.interval == 0 && self.json
    }

    /// Decides whether the interval is one that is accepted.
    pub fn interval_accepted(&self) -> (r: bool)
        ensures
            r == (self.interval <= MAX_INTERVAL),
    {
        self.interval <= MAX_INTERVAL
    }

    /// The readings to take besides that of the memory.
    pub fn wanted(&self) -> (r: Wanted)
        ensures
            r.cpu == self.wants_cpu(),
            r.storage == (self.wants_storage() && !self.single_json()),
            r.battery == (self.wants_battery() && !self.single_json()),
            r.network == (self.wants_network() && !self.single_json()),
    {
        let more: bool = !(self.interval == 0 && self.json);
        Wanted {
            cpu: self.all || self.cpu,
            storage: (self.all || self.storage) && more,
            battery: (self.all || self.battery) && more,
            network: (self.all || self.network) && more,
        }
    }

    /// How many processes to list: those asked for, behind a single reading that is printed,
    /// and not as JSON.
    pub fn listed_processes(&self) -> (r: u8)
        ensures
            r == if self.interval == 0 && !self.json && !self.quiet {
                self.top
            } else {
                0
            },
    {
        if self.interval == 0 && !self.json && !self.quiet {
            self.top
        } else {
            0
        }
    }
}

} // verus!
