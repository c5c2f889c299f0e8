//! Windows `FILETIME` timestamps and their conversion to and from wall-clock
//! time measured from the Unix epoch.

use vstd::prelude::*;
use vstd::std_specs::convert::FromSpecImpl;

verus! {

/// Number of 100-nanosecond intervals between 1601-01-01 and 1970-01-01 (UTC).
pub const MS_EPOCH: u64 = 116_444_736_000_000_000;

/// Number of 100-nanosecond intervals in one second.
pub const INTERVALS_PER_SEC: u64 = 10_000_000;

/// Number of nanoseconds in one interval of a `FILETIME`.
pub const NANOS_PER_INTERVAL: u32 = 100;

/// Number of nanoseconds in one second.
pub const NANOS_PER_SEC: u32 = 1_000_000_000;

/// A point in time at or after 1970-01-01 00:00:00 UTC, held as whole seconds
/// and nanoseconds since then. Every value is early enough to be written as a
/// [`FILETIME`].
#[derive(Clone, Copy, Debug, PartialEq, Eq, Structural)]
pub struct UnixTime {
    secs: u64,
    nanos: u32,
}

impl UnixTime {
    /// Whether `secs` seconds and `nanos` nanoseconds since the Unix epoch is
    /// a time that a `FILETIME` can hold.
    pub open spec fn representable(secs: u64, nanos: u32) -> bool {
        &&& nanos < NANOS_PER_SEC
        &&& secs * INTERVALS_PER_SEC + nanos / NANOS_PER_INTERVAL + MS_EPOCH <= u64::MAX
    }

    #[verifier::type_invariant]
    spec fn inv(self) -> bool {
        Self::representable(self.secs, self.nanos)
    }

    /// Whole seconds since the Unix epoch.
    pub closed spec fn spec_secs(self) -> u64 {
        self.secs
    }

    /// Nanoseconds past the last whole second.
    pub closed spec fn spec_subsec_nanos(self) -> u32 {
        self.nanos
    }

    /// The time `secs` seconds and `nanos` nanoseconds after the Unix epoch.
    pub closed spec fn spec_new(secs: u64, nanos: u32) -> Self {
        UnixTime { secs, nanos }
    }

    /// Whether this value is one that executable code can hold.
    pub open spec fn wf(self) -> bool {
        Self::representable(self.spec_secs(), self.spec_subsec_nanos())
    }

    /// The number of 100-nanosecond intervals from 1601-01-01 to this time,
    /// with what is left of an interval dropped.
    pub open spec fn spec_intervals(self) -> int {
        self.spec_secs() * INTERVALS_PER_SEC + self.spec_subsec_nanos() / NANOS_PER_INTERVAL
            + MS_EPOCH
    }

    /// A value is determined by its seconds and nanoseconds.
    pub proof fn lemma_new_fields(secs: u64, nanos: u32)
        ensures
            Self::spec_new(secs, nanos).spec_secs() == secs,
            Self::spec_new(secs, nanos).spec_subsec_nanos() == nanos,
    {
    }

    /// Two values with the same seconds and nanoseconds are the same value.
    pub proof fn lemma_ext_equal(a: Self, b: Self)
        requires
            a.spec_secs() == b.spec_secs(),
            a.spec_subsec_nanos() == b.spec_subsec_nanos(),
        ensures
            a == b,
    {
    }

    /// The time `secs` seconds and `nanos` nanoseconds after the Unix epoch,
    /// or `None` where `nanos` is not below one second or the time is too late
    /// for a `FILETIME`.
    pub fn new(secs: u64, nanos: u32) -> (r: Option<Self>)
        ensures
            r is Some <==> Self::representable(secs, nanos),
            r is Some ==> r->Some_0 == Self::spec_new(secs, nanos),
    {
        if nanos >= NANOS_PER_SEC {
            return None;
        }
        let room: u64 = u64::MAX - MS_EPOCH - (nanos / NANOS_PER_INTERVAL) as u64;
        if secs > room / INTERVALS_PER_SEC {
            assert(secs * INTERVALS_PER_SEC > room) by (nonlinear_arith)
                requires
                    secs > room / INTERVALS_PER_SEC,
                    INTERVALS_PER_SEC == 10_000_000,
            ;
            return None;
        }
        assert(secs * INTERVALS_PER_SEC <= room) by (nonlinear_arith)
            requires
                secs <= room / INTERVALS_PER_SEC,
                INTERVALS_PER_SEC == 10_000_000,
        ;
        Some(UnixTime { secs, nanos })
    }

    /// Whole seconds since the Unix epoch.
    pub fn secs(&self) -> (r: u64)
        ensures
            r == self.spec_secs(),
            self.wf(),
    {
        proof {
            use_type_invariant(self);
        }
        self.secs
    }

    /// Nanoseconds past the last whole second.
    pub fn subsec_nanos(&self) -> (r: u32)
        ensures
            r == self.spec_subsec_nanos(),
            self.wf(),
    {
        proof {
            use_type_invariant(self);
        }
        self.nanos
    }
}

/// A Windows timestamp: the number of 100-nanosecond intervals since
/// 1601-01-01 00:00:00 UTC, split into its low and high 32 bits.
#[allow(non_snake_case)]
#[derive(Clone, Copy, Debug, PartialEq, Eq, Structural)]
pub struct FILETIME {
    pub dwLowDateTime: u32,
    pub dwHighDateTime: u32,
}

impl Default for FILETIME {
    fn default() -> (r: Self)
        ensures
            r.dwLowDateTime == 0,
            r.dwHighDateTime == 0,
    {
        FILETIME { dwLowDateTime: 0, dwHighDateTime: 0 }
    }
}

impl FILETIME {
    /// The number of intervals that the two halves stand for.
    pub open spec fn spec_intervals(self) -> int {
        self.dwHighDateTime * 0x1_0000_0000 + self.dwLowDateTime
    }

    /// The timestamp that stands for `intervals`.
    pub open spec fn spec_from_intervals(intervals: int) -> Self {
        FILETIME {
            dwLowDateTime: (intervals % 0x1_0000_0000) as u32,
            dwHighDateTime: (intervals / 0x1_0000_0000) as u32,
        }
    }

    /// The timestamp of `time`: its intervals since 1601, with what is left of
    /// an interval dropped.
    pub open spec fn spec_from(time: UnixTime) -> Self {
        Self::spec_from_intervals(time.spec_intervals())
    }

    /// The wall-clock time of this timestamp, where it is not before 1970.
    pub open spec fn spec_into_systime(self) -> Option<UnixTime> {
        if self.spec_intervals() < MS_EPOCH {
            None
        } else {
            let since = self.spec_intervals() - MS_EPOCH;
            Some(
                UnixTime::spec_new(
                    (since / (INTERVALS_PER_SEC as int)) as u64,
                    ((since % (INTERVALS_PER_SEC as int)) * NANOS_PER_INTERVAL) as u32,
                ),
            )
        }
    }

    /// The number of intervals that the two halves stand for.
    pub fn intervals(self) -> (r: u64)
        ensures
            r == self.spec_intervals(),
    {
        (self.dwHighDateTime as u64) * 0x1_0000_0000 + (self.dwLowDateTime as u64)
    }

    /// The timestamp that stands for `intervals`.
    pub fn from_intervals(intervals: u64) -> (r: Self)
        ensures
            r == Self::spec_from_intervals(intervals as int),
            r.spec_intervals() == intervals,
    {
        FILETIME {
            dwLowDateTime: (intervals % 0x1_0000_0000) as u32,
            dwHighDateTime: (intervals / 0x1_0000_0000) as u32,
        }
    }

    /// The timestamp of a reading of the clock: of the time `secs` seconds and
    /// `nanos` nanoseconds after the Unix epoch where the clock gave one that
    /// a timestamp can hold, and of the Unix epoch itself where it gave none.
    pub fn from_clock(reading: Option<(u64, u32)>) -> (r: Self)
        ensures
            r == (match reading {
                Some((secs, nanos)) if UnixTime::representable(secs, nanos) => Self::spec_from(
                    UnixTime::spec_new(secs, nanos),
                ),
                _ => Self::spec_from_intervals(MS_EPOCH as int),
            }),
            r.spec_intervals() >= MS_EPOCH,
    {
        let at: Option<UnixTime> = match reading {
            Some((secs, nanos)) => UnixTime::new(secs, nanos),
            None => None,
        };
        match at {
            Some(time) => {
                proof {
                    UnixTime::lemma_new_fields(reading->Some_0.0, reading->Some_0.1);
                }
                FILETIME::from(time)
            },
            None => FILETIME::from_intervals(MS_EPOCH),
        }
    }

    /// The timestamp of the present moment, as the system clock gives it. A
    /// clock that reads before 1970 gives the timestamp of the Unix epoch.
    pub fn now() -> (r: Self)
        ensures
            r.spec_intervals() >= MS_EPOCH,
    {
        Self::from_clock(clock_reading())
    }

    /// The wall-clock time of this timestamp, or `None` where it lies before
    /// the Unix epoch.
    pub fn into_systime(self) -> (r: Option<UnixTime>)
        ensures
            r == self.spec_into_systime(),
            r is None <==> self.spec_intervals() < MS_EPOCH,
            r is Some ==> r->Some_0.wf(),
    {
        let ftime: u64 = self.intervals();
        if ftime < MS_EPOCH {
            return None;
        }
        let since: u64 = ftime - MS_EPOCH;
        let secs: u64 = since / INTERVALS_PER_SEC;
        let nanos: u32 = ((since % INTERVALS_PER_SEC) as u32) * NANOS_PER_INTERVAL;
        assert(nanos / NANOS_PER_INTERVAL == since % INTERVALS_PER_SEC);
        assert(secs * INTERVALS_PER_SEC + since % INTERVALS_PER_SEC == since) by (nonlinear_arith)
            requires
                secs == since / INTERVALS_PER_SEC,
                INTERVALS_PER_SEC == 10_000_000,
        ;
        proof {
            UnixTime::lemma_new_fields(secs, nanos);
        }
        UnixTime::new(secs, nanos)
    }
}

impl From<UnixTime> for FILETIME {
    fn from(time: UnixTime) -> (r: Self) {
        let secs: u64 = time.secs();
        let nanos: u32 = time.subsec_nanos();
        assert(secs * INTERVALS_PER_SEC <= u64::MAX) by (nonlinear_arith)
            requires
                secs * INTERVALS_PER_SEC + nanos / NANOS_PER_INTERVAL + MS_EPOCH <= u64::MAX,
                nanos / NANOS_PER_INTERVAL >= 0,
                MS_EPOCH >= 0,
        ;
        let ftime: u64 = secs * INTERVALS_PER_SEC + (nanos / NANOS_PER_INTERVAL) as u64 + MS_EPOCH;
        FILETIME::from_intervals(ftime)
    }
}

impl FromSpecImpl<UnixTime> for FILETIME {
    open spec fn obeys_from_spec() -> bool {
        true
    }

    open spec fn from_spec(time: UnixTime) -> Self {
        FILETIME::spec_from(time)
    }
}

/// Reads the system clock through `std::time::SystemTime::now` and hands the
/// reading back as whole seconds and nanoseconds since the Unix epoch, or
/// `None` where the clock is set before 1970. Nothing is claimed of the time
/// read but that the nanoseconds are below one second.
#[verifier::external_body]
fn clock_reading() -> (r: Option<(u64, u32)>)
    ensures
        r is Some ==> r->Some_0.1 < NANOS_PER_SEC,
{
    match std::time::SystemTime::now().duration_since(std::time::UNIX_EPOCH) {
        Ok(elapsed) => Some((elapsed.as_secs(), elapsed.subsec_nanos())),
        Err(_) => None,
    }
}

/// A timestamp written from a time that is a whole number of intervals, and
/// read back, is that time again.
pub proof fn lemma_filetime_roundtrip(time: UnixTime)
    requires
        time.wf(),
        time.spec_subsec_nanos() % NANOS_PER_INTERVAL == 0,
    ensures
        FILETIME::spec_from(time).spec_into_systime() == Some(time),
{
    let ft = FILETIME::spec_from(time);
    let n = time.spec_intervals();
    assert(ft.spec_intervals() == n);
    let since = n - MS_EPOCH;
    let secs = time.spec_secs() as int;
    let sub = (time.spec_subsec_nanos() / NANOS_PER_INTERVAL) as int;
    assert(since == secs * 10_000_000 + sub);
    assert(0 <= sub < 10_000_000);
    assert(since / 10_000_000 == secs && since % 10_000_000 == sub) by (nonlinear_arith)
        requires
            since == secs * 10_000_000 + sub,
            0 <= sub < 10_000_000,
    ;
    let back = ft.spec_into_systime()->Some_0;
    UnixTime::lemma_new_fields(
        (since / (INTERVALS_PER_SEC as int)) as u64,
        ((since % (INTERVALS_PER_SEC as int)) * NANOS_PER_INTERVAL) as u32,
    );
    UnixTime::lemma_ext_equal(back, time);
}

/// A timestamp at or after the Unix epoch, read as a time and written again,
/// is that timestamp again.
pub proof fn lemma_systime_roundtrip(ft: FILETIME)
    requires
        ft.spec_intervals() >= MS_EPOCH,
    ensures
        ft.spec_into_systime() is Some,
        ft.spec_into_systime()->Some_0.wf(),
        FILETIME::spec_from(ft.spec_into_systime()->Some_0) == ft,
{
    let since = ft.spec_intervals() - MS_EPOCH;
    let secs = since / 10_000_000;
    let sub = since % 10_000_000;
    UnixTime::lemma_new_fields(secs as u64, (sub * NANOS_PER_INTERVAL) as u32);
    assert(secs * 10_000_000 + sub == since) by (nonlinear_arith)
        requires
            secs == since / 10_000_000,
            sub == since % 10_000_000,
    ;
    assert((sub * 100) / 100 == sub);
}

} // verus!
