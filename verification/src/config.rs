//! The immutable selection configuration: the filter criteria, the sort key
//! and the numeric limits, as handed over by the command-line layer.

use vstd::prelude::*;
use crate::status::{Protocol, MAX_TIME, PCT_SCALE};

verus! {

/// The key by which the final list is ordered.
#[derive(Clone, Copy, Debug, PartialEq, Eq, Structural)]
pub enum SortKey {
    /// Ascending elapsed time since the last synchronization.
    Age,
    /// Descending measured throughput.
    Rate,
    /// The order of the country selector list, then country name.
    Country,
    /// Ascending feed-reported score.
    Score,
    /// Ascending reported delay.
    Delay,
}

/// All optional criteria; a mirror survives only when it meets every one
/// that is enabled.
pub struct FilterConfig {
    /// Greatest accepted age of `last_sync`, in seconds.
    pub age: Option<i64>,
    /// Greatest accepted reported delay, in seconds.
    pub delay: Option<i64>,
    /// Country selectors in preference order: names or codes, ASCII case
    /// ignored, or the wildcard `*` standing for every country not named.
    pub countries: Vec<String>,
    /// Probe only this many candidates and keep the fastest of them.
    pub fastest: Option<usize>,
    /// Keep only mirrors whose url or details match this pattern.
    pub must_match: Option<String>,
    /// Drop mirrors whose url or details match this pattern.
    pub exclude: Option<String>,
    /// Keep only the n most recently synchronized mirrors.
    pub latest: Option<usize>,
    /// Keep only the n best-scored mirrors.
    pub score: Option<usize>,
    /// Final cap on the length of the returned list.
    pub number: Option<usize>,
    /// Accepted protocols; `None` accepts every protocol.
    pub protocols: Option<Vec<Protocol>>,
    /// Least accepted completion, hundredths of a percent.
    pub completion_percent: u64,
    pub isos: bool,
    pub ipv4: bool,
    pub ipv6: bool,
}

/// Well-formedness of a configuration: enabled numeric criteria are
/// non-negative and bounded like the feed's own values.
pub open spec fn valid_config(c: FilterConfig) -> bool {
    &&& (c.age matches Some(a) ==> 0 <= a <= MAX_TIME)
    &&& (c.delay matches Some(d) ==> 0 <= d <= MAX_TIME)
    &&& c.completion_percent <= PCT_SCALE
}

/// A moment in time the engine can reason about, epoch seconds.
pub open spec fn valid_now(now: i64) -> bool {
    0 <= now <= MAX_TIME
}

impl FilterConfig {
    /// The configuration that filters nothing: no criterion enabled and the
    /// completion threshold at its floor.
    pub fn unfiltered() -> (r: FilterConfig)
        ensures
            r.age is None,
            r.delay is None,
            r.countries@.len() == 0,
            r.fastest is None,
            r.must_match is None,
            r.exclude is None,
            r.latest is None,
            r.score is None,
            r.number is None,
            r.protocols is None,
            r.completion_percent == 0,
            !r.isos,
            !r.ipv4,
            !r.ipv6,
            valid_config(r),
    {
        FilterConfig {
            age: None,
            delay: None,
            countries: Vec::new(),
            fastest: None,
            must_match: None,
            exclude: None,
            latest: None,
            score: None,
            number: None,
            protocols: None,
            completion_percent: 0,
            isos: false,
            ipv4: false,
            ipv6: false,
        }
    }

    /// Runtime check for `valid_config`.
    pub fn check_valid(&self) -> (r: bool)
        ensures
            r == valid_config(*self),
    {
        let ok_age = match self.age {
            Some(a) => 0 <= a && a <= MAX_TIME,
            None => true,
        };
        let ok_delay = match self.delay {
            Some(d) => 0 <= d && d <= MAX_TIME,
            None => true,
        };
        ok_age && ok_delay && self.completion_percent <= PCT_SCALE
    }
}

} // verus!
