//! The typed mirror status feed: one record per mirror server, plus feed
//! metadata, exactly as the selection engine reads it.
//!
//! Times are epoch seconds; `completion_pct` and the score are kept in
//! hundredths, so that `99.90%` is `9990`; durations are milliseconds. A
//! numeric field that the feed may omit is an `Option` and an absent value
//! is never defaulted to zero.

use vstd::prelude::*;

verus! {

/// Upper bound accepted for any time-like quantity (seconds, milliseconds,
/// or scaled scores); generous enough for any real feed, small enough that
/// every difference and sum the engine forms stays inside `i64`.
pub const MAX_TIME: i64 = 0x4000_0000_0000;

/// Scale of completion percentages: hundredths of a percent, so 100% is 10000.
pub const PCT_SCALE: u64 = 10000;

/// The transfer protocol of a mirror, as derived from its URL scheme.
#[derive(Clone, Copy, Debug, PartialEq, Eq, Structural)]
pub enum Protocol {
    Ftp,
    Http,
    Https,
    Rsync,
}

impl Protocol {
    /// A small stable code for each protocol, used by the cache encoding.
    pub open spec fn code(self) -> u8 {
        match self {
            Protocol::Ftp => 0,
            Protocol::Http => 1,
            Protocol::Https => 2,
            Protocol::Rsync => 3,
        }
    }

    pub fn tag(&self) -> (r: u8)
        ensures
            r == self.code(),
    {
        match self {
            Protocol::Ftp => 0,
            Protocol::Http => 1,
            Protocol::Https => 2,
            Protocol::Rsync => 3,
        }
    }

    /// The protocol encoded by `t`, if any; inverse of `code`.
    pub open spec fn spec_from_code(t: u8) -> Option<Protocol> {
        if t == 0 {
            Some(Protocol::Ftp)
        } else if t == 1 {
            Some(Protocol::Http)
        } else if t == 2 {
            Some(Protocol::Https)
        } else if t == 3 {
            Some(Protocol::Rsync)
        } else {
            None
        }
    }

    pub fn from_tag(t: u8) -> (r: Option<Protocol>)
        ensures
            r == Protocol::spec_from_code(t),
            r is Some ==> r->0.code() == t,
    {
        if t == 0 {
            Some(Protocol::Ftp)
        } else if t == 1 {
            Some(Protocol::Http)
        } else if t == 2 {
            Some(Protocol::Https)
        } else if t == 3 {
            Some(Protocol::Rsync)
        } else {
            None
        }
    }

    /// The lower-case scheme name of each protocol.
    pub open spec fn scheme_chars(self) -> Seq<char> {
        match self {
            Protocol::Ftp => seq!['f', 't', 'p'],
            Protocol::Http => seq!['h', 't', 't', 'p'],
            Protocol::Https => seq!['h', 't', 't', 'p', 's'],
            Protocol::Rsync => seq!['r', 's', 'y', 'n', 'c'],
        }
    }

    /// The protocol whose scheme name is `s` (after ASCII lower-casing).
    pub open spec fn spec_from_scheme(s: Seq<char>) -> Option<Protocol> {
        if crate::strutil::lower_seq(s) == Protocol::Ftp.scheme_chars() {
            Some(Protocol::Ftp)
        } else if crate::strutil::lower_seq(s) == Protocol::Http.scheme_chars() {
            Some(Protocol::Http)
        } else if crate::strutil::lower_seq(s) == Protocol::Https.scheme_chars() {
            Some(Protocol::Https)
        } else if crate::strutil::lower_seq(s) == Protocol::Rsync.scheme_chars() {
            Some(Protocol::Rsync)
        } else {
            None
        }
    }

    pub fn name(&self) -> (r: &'static str)
        ensures
            r@ == self.scheme_chars(),
    {
        proof {
            reveal_strlit("ftp");
            reveal_strlit("http");
            reveal_strlit("https");
            reveal_strlit("rsync");
        }
        let r = match self {
            Protocol::Ftp => "ftp",
            Protocol::Http => "http",
            Protocol::Https => "https",
            Protocol::Rsync => "rsync",
        };
        proof {
            assert(r@ =~= self.scheme_chars());
        }
        r
    }

    /// Parses a scheme name, ignoring ASCII case.
    pub fn from_scheme(s: &str) -> (r: Option<Protocol>)
        ensures
            r == Protocol::spec_from_scheme(s@),
    {
        proof {
            reveal_strlit("ftp");
            reveal_strlit("http");
            reveal_strlit("https");
            reveal_strlit("rsync");
            assert("ftp"@ =~= Protocol::Ftp.scheme_chars());
            assert("http"@ =~= Protocol::Http.scheme_chars());
            assert("https"@ =~= Protocol::Https.scheme_chars());
            assert("rsync"@ =~= Protocol::Rsync.scheme_chars());
            assert(crate::strutil::lower_seq(Protocol::Ftp.scheme_chars())
                =~= Protocol::Ftp.scheme_chars());
            assert(crate::strutil::lower_seq(Protocol::Http.scheme_chars())
                =~= Protocol::Http.scheme_chars());
            assert(crate::strutil::lower_seq(Protocol::Https.scheme_chars())
                =~= Protocol::Https.scheme_chars());
            assert(crate::strutil::lower_seq(Protocol::Rsync.scheme_chars())
                =~= Protocol::Rsync.scheme_chars());
        }
        if crate::strutil::eq_ci(s, "ftp") {
            Some(Protocol::Ftp)
        } else if crate::strutil::eq_ci(s, "http") {
            Some(Protocol::Http)
        } else if crate::strutil::eq_ci(s, "https") {
            Some(Protocol::Https)
        } else if crate::strutil::eq_ci(s, "rsync") {
            Some(Protocol::Rsync)
        } else {
            None
        }
    }
}

/// One mirror server's entry in the status feed.
#[derive(Clone, Debug, PartialEq)]
pub struct Mirror {
    pub url: String,
    pub protocol: Protocol,
    /// Epoch seconds of the last successful synchronization, if known.
    pub last_sync: Option<i64>,
    /// Completion in hundredths of a percent, `0..=10000`.
    pub completion_pct: u64,
    /// Reported synchronization delay, seconds, if known.
    pub delay: Option<i64>,
    /// Average probe duration, milliseconds, if known.
    pub duration_avg: Option<i64>,
    /// Standard deviation of the probe duration, milliseconds, if known.
    pub duration_stddev: Option<i64>,
    /// Feed-reported score in hundredths; lower is better; absent when unrated.
    pub score: Option<i64>,
    pub active: bool,
    pub country: String,
    pub country_code: String,
    pub isos: bool,
    pub ipv4: bool,
    pub ipv6: bool,
    pub details: String,
}

/// Well-formedness of one record: the completion percentage is in range and
/// every present numeric field is non-negative and modest enough that the
/// engine's arithmetic stays inside `i64`.
pub open spec fn valid_mirror(m: Mirror) -> bool {
    &&& m.completion_pct <= PCT_SCALE
    &&& (m.last_sync matches Some(t) ==> 0 <= t <= MAX_TIME)
    &&& (m.delay matches Some(d) ==> 0 <= d <= MAX_TIME)
    &&& (m.duration_avg matches Some(d) ==> 0 <= d <= MAX_TIME)
    &&& (m.duration_stddev matches Some(d) ==> 0 <= d <= MAX_TIME)
    &&& (m.score matches Some(s) ==> 0 <= s <= MAX_TIME)
}

pub open spec fn valid_catalog(s: Seq<Mirror>) -> bool {
    forall|i: int| 0 <= i < s.len() ==> valid_mirror(#[trigger] s[i])
}

impl Mirror {
    /// Runtime check for `valid_mirror`, for callers that receive a record
    /// from outside the engine.
    pub fn check_valid(&self) -> (r: bool)
        ensures
            r == valid_mirror(*self),
    {
        let ok_pct = self.completion_pct <= PCT_SCALE;
        let ok_sync = match self.last_sync {
            Some(t) => 0 <= t && t <= MAX_TIME,
            None => true,
        };
        let ok_delay = match self.delay {
            Some(d) => 0 <= d && d <= MAX_TIME,
            None => true,
        };
        let ok_avg = match self.duration_avg {
            Some(d) => 0 <= d && d <= MAX_TIME,
            None => true,
        };
        let ok_dev = match self.duration_stddev {
            Some(d) => 0 <= d && d <= MAX_TIME,
            None => true,
        };
        let ok_score = match self.score {
            Some(s) => 0 <= s && s <= MAX_TIME,
            None => true,
        };
        ok_pct && ok_sync && ok_delay && ok_avg && ok_dev && ok_score
    }
}

/// The whole status document: feed metadata and the ordered mirror records.
#[derive(Clone, Debug, PartialEq)]
pub struct MirrorStatus {
    pub cutoff: i64,
    pub last_check: String,
    pub num_checks: i64,
    pub check_frequency: i64,
    pub urls: Vec<Mirror>,
    pub version: i64,
}

pub open spec fn valid_status(s: MirrorStatus) -> bool {
    valid_catalog(s.urls@)
}

/// Runtime check for `valid_status`.
pub fn check_valid_status(s: &MirrorStatus) -> (r: bool)
    ensures
        r == valid_status(*s),
{
    let mut i: usize = 0;
    while i < s.urls.len()
        invariant
            i <= s.urls@.len(),
            forall|k: int| 0 <= k < i ==> valid_mirror(#[trigger] s.urls@[k]),
        decreases s.urls@.len() - i,
    {
        if !s.urls[i].check_valid() {
            return false;
        }
        i += 1;
    }
    true
}

} // verus!
