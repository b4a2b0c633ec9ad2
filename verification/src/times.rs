//! Points in time, and the timestamps that entries and groups carry.

use vstd::prelude::*;
use crate::content::Content;

verus! {

/// The seconds of the earliest representable point in time, counted from the epoch.
pub const EARLIEST_SECOND: i64 = -8334601228800;

/// The seconds of the latest representable point in time, counted from the epoch.
pub const LATEST_SECOND: i64 = 8210266876799;

/// Whether seconds since the epoch and nanoseconds make up a representable point in time. A
/// second that ends a minute may be a leap second, which lasts for two thousand million
/// nanoseconds.
pub open spec fn representable(seconds: i64, nanos: u32) -> bool {
    &&& EARLIEST_SECOND <= seconds <= LATEST_SECOND
    &&& nanos < 2_000_000_000
    &&& nanos >= 1_000_000_000 ==> seconds as int % 60 == 59
}

/// A point in time (UTC, without a time zone).
#[derive(Debug, Clone, Copy, PartialEq, Eq, Hash, Structural)]
pub struct Timestamp {
    seconds: i64,
    nanos: u32,
}

/// What `chrono::NaiveDateTime`'s `Display` writes for a point in time.
pub uninterp spec fn timestamp_text(seconds: i64, nanos: u32) -> Seq<char>;

/// The text of a point in time, by `Display` of the `chrono::NaiveDateTime` that
/// `chrono::DateTime::from_timestamp` makes of it. The text depends on the two numbers alone.
#[verifier::external_body]
fn timestamp_to_text(seconds: i64, nanos: u32) -> (result: String)
    requires
        representable(seconds, nanos),
    ensures
        result@ == timestamp_text(seconds, nanos),
{
    chrono::DateTime::from_timestamp(seconds, nanos).unwrap().naive_utc().to_string()
}

/// The seconds since the epoch that the system's clock shows, by `chrono::Utc::now` and
/// `timestamp`. Nothing is claimed of it but that it is representable and not before the epoch.
#[verifier::external_body]
fn clock_seconds() -> (result: i64)
    ensures
        0 <= result <= LATEST_SECOND,
{
    chrono::Utc::now().timestamp()
}

impl Timestamp {
    #[verifier::type_invariant]
    spec fn well_formed(&self) -> bool {
        representable(self.seconds, self.nanos)
    }

    /// The seconds since the epoch.
    pub closed spec fn spec_seconds(self) -> i64 {
        self.seconds
    }

    /// The nanoseconds since the last full second.
    pub closed spec fn spec_nanos(self) -> u32 {
        self.nanos
    }

    /// Whether this point in time is earlier than the other.
    pub open spec fn before(self, other: Timestamp) -> bool {
        ||| self.spec_seconds() < other.spec_seconds()
        ||| self.spec_seconds() == other.spec_seconds() && self.spec_nanos() < other.spec_nanos()
    }

    /// Whether a clock can show this point in time: it is a full second, and not before the epoch.
    pub open spec fn is_reading(self) -> bool {
        &&& 0 <= self.spec_seconds() <= LATEST_SECOND
        &&& self.spec_nanos() == 0
    }

    /// Two points in time with the same numbers are the same.
    pub broadcast proof fn numbers_decide(a: Timestamp, b: Timestamp)
        ensures
            #![trigger a.before(b)]
            a.before(b) || b.before(a) || a == b,
            a == b ==> !a.before(b),
    {
    }

    /// The point in time so many seconds and nanoseconds after the epoch, if it is representable.
    pub fn new(seconds: i64, nanos: u32) -> (result: Option<Timestamp>)
        ensures
            match result {
                Some(timestamp) => {
                    &&& representable(seconds, nanos)
                    &&& timestamp.spec_seconds() == seconds
                    &&& timestamp.spec_nanos() == nanos
                },
                None => !representable(seconds, nanos),
            },
    {
        if seconds < EARLIEST_SECOND || seconds > LATEST_SECOND || nanos >= 2_000_000_000 {
            return None;
        }
        if nanos >= 1_000_000_000 {
            // Counted from the earliest second, which starts a minute, the count is not negative.
            let count: u64 = (seconds - EARLIEST_SECOND) as u64;
            if count % 60 != 59 {
                return None;
            }
        }
        Some(Timestamp { seconds, nanos })
    }

    /// The seconds since the epoch.
    pub fn seconds(&self) -> (result: i64)
        ensures
            result == self.spec_seconds(),
            EARLIEST_SECOND <= result <= LATEST_SECOND,
    {
        proof {
            use_type_invariant(self);
        }
        self.seconds
    }

    /// The nanoseconds since the last full second.
    pub fn nanos(&self) -> (result: u32)
        ensures
            result == self.spec_nanos(),
            representable(self.spec_seconds(), result),
    {
        proof {
            use_type_invariant(self);
        }
        self.nanos
    }

    /// Whether this point in time is earlier than the other.
    pub fn is_before(&self, other: &Timestamp) -> (result: bool)
        ensures
            result == self.before(*other),
    {
        self.seconds < other.seconds || (self.seconds == other.seconds && self.nanos < other.nanos)
    }

    /// The text of the point in time, such as `2024-02-29 12:00:00`.
    pub fn text(&self) -> (result: String)
        ensures
            result@ == timestamp_text(self.spec_seconds(), self.spec_nanos()),
    {
        proof {
            use_type_invariant(self);
        }
        timestamp_to_text(self.seconds, self.nanos)
    }
}

impl DeepView for Timestamp {
    type V = Timestamp;

    open spec fn deep_view(&self) -> Timestamp {
        *self
    }
}

impl Content for Timestamp {
    fn duplicate(&self) -> (result: Self) {
        *self
    }

    fn same_as(&self, other: &Self) -> (result: bool) {
        *self == *other
    }
}

/// Timestamps of an entry or a group.
#[derive(Debug, Clone, Copy, PartialEq, Eq)]
pub struct Times {
    /// When the object was created.
    pub creation: Option<Timestamp>,
    /// When the object's contents were last changed.
    pub last_modification: Option<Timestamp>,
    /// When the object was last looked at.
    pub last_access: Option<Timestamp>,
    /// When the object expires.
    pub expiry: Option<Timestamp>,
    /// When the object was last moved to another group.
    pub location_changed: Option<Timestamp>,
    /// Whether the object expires.
    pub expires: Option<bool>,
    /// How often the object was used.
    pub usage_count: Option<usize>,
}

/// Whether both points in time are the same, or both are missing.
fn same_timestamp(a: &Option<Timestamp>, b: &Option<Timestamp>) -> (result: bool)
    ensures
        result == (*a == *b),
{
    match (a, b) {
        (Some(x), Some(y)) => *x == *y,
        (None, None) => true,
        _ => false,
    }
}

impl Times {
    /// Timestamps that are all missing.
    pub open spec fn blank() -> Times {
        Times {
            creation: None,
            last_modification: None,
            last_access: None,
            expiry: None,
            location_changed: None,
            expires: None,
            usage_count: None,
        }
    }

    /// The timestamps of an object that was created at the given time.
    pub open spec fn fresh(now: Timestamp) -> Times {
        Times {
            creation: Some(now),
            last_modification: Some(now),
            last_access: Some(now),
            expiry: Some(now),
            location_changed: Some(now),
            expires: Some(false),
            usage_count: Some(0),
        }
    }

    /// When the object was last changed: the last modification, or the last move where no
    /// modification time is there.
    pub open spec fn updated(self) -> Option<Timestamp> {
        if self.last_modification is Some {
            self.last_modification
        } else {
            self.location_changed
        }
    }

    /// The current time, to the second. It is not before the epoch.
    pub fn now() -> (result: Timestamp)
        ensures
            result.is_reading(),
    {
        Timestamp { seconds: clock_seconds(), nanos: 0 }
    }

    /// The start of the Unix epoch.
    pub fn epoch() -> (result: Timestamp)
        ensures
            result == Times::spec_epoch(),
            result.spec_seconds() == 0,
            result.spec_nanos() == 0,
    {
        Timestamp { seconds: 0, nanos: 0 }
    }

    /// The start of the Unix epoch.
    pub closed spec fn spec_epoch() -> Timestamp {
        Timestamp { seconds: 0, nanos: 0 }
    }

    /// The epoch starts at zero.
    pub proof fn epoch_starts_at_zero()
        ensures
            Times::spec_epoch().spec_seconds() == 0,
            Times::spec_epoch().spec_nanos() == 0,
    {
    }

    /// Timestamps of an object that is created now.
    pub fn new() -> (result: Times)
        ensures
            exists|now: Timestamp|
                now.is_reading() && #[trigger] Times::fresh(now) == result,
    {
        let now = Times::now();
        let result = Times {
            creation: Some(now),
            last_modification: Some(now),
            last_access: Some(now),
            expiry: Some(now),
            location_changed: Some(now),
            expires: Some(false),
            usage_count: Some(0),
        };
        assert(result == Times::fresh(now));
        result
    }

    /// When the object was last changed: the last modification, or the last move where no
    /// modification time is there.
    pub fn last_update(&self) -> (result: Option<Timestamp>)
        ensures
            result == self.updated(),
    {
        if self.last_modification.is_some() {
            self.last_modification
        } else {
            self.location_changed
        }
    }
}

impl Default for Times {
    fn default() -> (result: Self)
        ensures
            result == Times::blank(),
    {
        Times {
            creation: None,
            last_modification: None,
            last_access: None,
            expiry: None,
            location_changed: None,
            expires: None,
            usage_count: None,
        }
    }
}

impl DeepView for Times {
    type V = Times;

    open spec fn deep_view(&self) -> Times {
        *self
    }
}

impl Content for Times {
    fn duplicate(&self) -> (result: Self) {
        *self
    }

    fn same_as(&self, other: &Self) -> (result: bool) {
        same_timestamp(&self.creation, &other.creation) && same_timestamp(
            &self.last_modification,
            &other.last_modification,
        ) && same_timestamp(&self.last_access, &other.last_access) && same_timestamp(
            &self.expiry,
            &other.expiry,
        ) && same_timestamp(&self.location_changed, &other.location_changed) && (match (
            self.expires,
            other.expires,
        ) {
            (Some(x), Some(y)) => x == y,
            (None, None) => true,
            _ => false,
        }) && (match (self.usage_count, other.usage_count) {
            (Some(x), Some(y)) => x == y,
            (None, None) => true,
            _ => false,
        })
    }
}

} // verus!
