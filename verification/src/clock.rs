//! Points in time.
use vstd::prelude::*;

verus! {

/// The first second that a `Timestamp` can hold.
pub const MIN_SECS: i64 = -8_334_601_228_800;

/// The last second that a `Timestamp` can hold.
pub const MAX_SECS: i64 = 8_210_266_876_799;

/// A point in time in UTC: seconds since the start of 1970 and nanoseconds. During a leap
/// second, which only the last second of a minute can be, the nanoseconds exceed 10^9.
#[derive(Debug, Clone, Copy, PartialEq, Eq, Structural)]
pub struct Timestamp {
    secs: i64,
    nanos: u32,
}

/// Whether seconds and nanoseconds name a point in time.
pub open spec fn is_timestamp(secs: i64, nanos: u32) -> bool {
    &&& MIN_SECS <= secs <= MAX_SECS
    &&& nanos < 1_000_000_000 || nanos < 2_000_000_000 && secs as int % 60 == 59
}

/// A point in time in the notation of RFC 3339, with as many digits of the second as it
/// takes, in groups of three, and `Z` for UTC.
pub uninterp spec fn rfc3339(secs: i64, nanos: u32) -> Seq<char>;

impl Timestamp {
    #[verifier::type_invariant]
    spec fn in_range(self) -> bool {
        is_timestamp(self.secs, self.nanos)
    }

    pub closed spec fn spec_secs(self) -> i64 {
        self.secs
    }

    pub closed spec fn spec_nanos(self) -> u32 {
        self.nanos
    }

    /// Whether the value is one that a reading of the clock can give: a point in time that is
    /// no leap second.
    pub open spec fn is_reading(self) -> bool {
        is_timestamp(self.spec_secs(), self.spec_nanos()) && self.spec_nanos() < 1_000_000_000
    }

    /// The timestamp in the notation of RFC 3339.
    pub open spec fn text(self) -> Seq<char> {
        rfc3339(self.spec_secs(), self.spec_nanos())
    }

    /// The point in time of the given seconds and nanoseconds, if there is one.
    pub fn new(secs: i64, nanos: u32) -> (r: Option<Timestamp>)
        ensures
            r is Some == is_timestamp(secs, nanos),
            r matches Some(t) ==> t.spec_secs() == secs && t.spec_nanos() == nanos,
    {
        if secs < MIN_SECS || MAX_SECS < secs {
            return None;
        }
        let second: i64 = if secs >= 0 { secs % 60 } else { 59 - (-(secs + 1)) % 60 };
        proof {
            if secs < 0 {
                lemma_second_of_minute(secs as int);
            }
        }
        if nanos < 1_000_000_000 || nanos < 2_000_000_000 && second == 59 {
            Some(Timestamp { secs, nanos })
        } else {
            None
        }
    }

    /// The seconds since the start of 1970.
    pub fn timestamp(&self) -> (r: i64)
        ensures
            r == self.spec_secs(),
            MIN_SECS <= r <= MAX_SECS,
    {
        proof {
            use_type_invariant(*self);
        }
        self.secs
    }

    /// The nanoseconds since the last full second.
    pub fn timestamp_subsec_nanos(&self) -> (r: u32)
        ensures
            r == self.spec_nanos(),
    {
        self.nanos
    }

    /// The timestamp in the notation of RFC 3339.
    pub(crate) fn to_rfc3339(&self) -> (r: String)
        ensures
            r@ == self.text(),
    {
        proof {
            use_type_invariant(*self);
        }
        rfc3339_text(self.secs, self.nanos)
    }

    /// The current time, which is never given as a leap second.
    pub fn now() -> (r: Timestamp)
        ensures
            r.is_reading(),
    {
        let (secs, nanos) = utc_now();
        Timestamp { secs, nanos }
    }

    /// The point in time a number of days later (earlier where it is negative), where
    /// every day has 86400 seconds; `None` if it is out of range. A leap second does not
    /// outlast the move.
    pub fn plus_days(&self, days: i64) -> (r: Option<Timestamp>)
        requires
            self.spec_nanos() < 1_000_000_000,
        ensures
            r is Some == (MIN_SECS <= self.spec_secs() + days * 86_400 <= MAX_SECS),
            r matches Some(t) ==> {
                &&& t.spec_secs() == self.spec_secs() + days * 86_400
                &&& t.spec_nanos() == self.spec_nanos()
            },
    {
        proof {
            use_type_invariant(*self);
        }
        if days < -200_000_000 || 200_000_000 < days {
            return None;
        }
        let secs: i64 = self.secs + days * 86_400;
        if secs < MIN_SECS || MAX_SECS < secs {
            return None;
        }
        Some(Timestamp { secs, nanos: self.nanos })
    }
}

/// A point in time in the notation of RFC 3339.
///
/// `chrono::DateTime::<Utc>::to_rfc3339_opts`, with fractions of a second as needed. Claimed
/// of it: the text depends on the seconds and the nanoseconds alone. The numbers of a point
/// in time are those that `DateTime::from_timestamp` accepts.
#[verifier::external_body]
fn rfc3339_text(secs: i64, nanos: u32) -> (r: String)
    requires
        is_timestamp(secs, nanos),
    ensures
        r@ == rfc3339(secs, nanos),
{
    let t = chrono::DateTime::<chrono::Utc>::from_timestamp(secs, nanos).expect("in range");
    t.to_rfc3339_opts(chrono::SecondsFormat::AutoSi, true)
}

/// `chrono::Utc::now`, as seconds and nanoseconds. Claimed of it: the numbers are those of a
/// point in time, and not of a leap second. Nothing is claimed of which it is. It panics
/// where the system's clock stands before 1970.
#[verifier::external_body]
fn utc_now() -> (r: (i64, u32))
    ensures
        is_timestamp(r.0, r.1),
        r.1 < 1_000_000_000,
{
    let t = chrono::Utc::now();
    (t.timestamp(), t.timestamp_subsec_nanos())
}

proof fn lemma_second_of_minute(secs: int)
    requires
        secs < 0,
    ensures
        secs % 60 == 59 - (-(secs + 1)) % 60,
{
}

/// `SystemTime::elapsed` of `SystemTime::UNIX_EPOCH`: the seconds since the start of
/// 1970, or `None` where the clock stands before it. Nothing is claimed of the number.
#[verifier::external_body]
fn unix_elapsed_secs() -> (r: Option<u64>) {
    std::time::SystemTime::UNIX_EPOCH.elapsed().ok().map(|d| d.as_secs())
}

/// The time that a reading of the clock stands for, in seconds since the start of 1970: zero
/// where the clock stands before it.
pub fn secs_of_reading(elapsed: Option<u64>) -> (r: u64)
    ensures
        r == (match elapsed {
            Some(secs) => secs,
            None => 0,
        }),
{
    match elapsed {
        Some(secs) => secs,
        None => 0,
    }
}

/// The seconds since the start of 1970, or zero where the clock stands before it.
pub fn unix_time_secs() -> u64 {
    secs_of_reading(unix_elapsed_secs())
}

} // verus!
