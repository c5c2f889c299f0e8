use pk2::filetime::{UnixTime, FILETIME, MS_EPOCH};
use std::time::{SystemTime, UNIX_EPOCH};

#[test]
fn test_convert_roundtrip() {
    let since = SystemTime::now().duration_since(UNIX_EPOCH).unwrap();
    // A timestamp counts in intervals of 100 ns: the clock is read to that
    // precision.
    let now = UnixTime::new(since.as_secs(), since.subsec_nanos() / 100 * 100).unwrap();
    let ftime = FILETIME::from(now);
    assert_eq!(Some(now), ftime.into_systime());
}

#[test]
fn unix_epoch_is_the_known_filetime() {
    let epoch = UnixTime::new(0, 0).unwrap();
    let ftime = FILETIME::from(epoch);
    assert_eq!(ftime.intervals(), 116_444_736_000_000_000);
    assert_eq!(ftime.intervals(), MS_EPOCH);
    assert_eq!(ftime.dwHighDateTime, 0x019D_B1DE);
    assert_eq!(ftime.dwLowDateTime, 0xD53E_8000);
}

#[test]
fn filetime_formula_has_exact_values() {
    // 2001-09-09 01:46:40 UTC is 1_000_000_000 s after the epoch.
    let time = UnixTime::new(1_000_000_000, 123_456_700).unwrap();
    let ftime = FILETIME::from(time);
    assert_eq!(ftime.intervals(), 1_000_000_000 * 10_000_000 + 1_234_567 + 116_444_736_000_000_000);
    let back = ftime.into_systime().unwrap();
    assert_eq!(back.secs(), 1_000_000_000);
    assert_eq!(back.subsec_nanos(), 123_456_700);
}

#[test]
fn filetime_drops_what_is_left_of_an_interval() {
    let time = UnixTime::new(1, 199).unwrap();
    let back = FILETIME::from(time).into_systime().unwrap();
    assert_eq!(back, UnixTime::new(1, 100).unwrap());
    assert_ne!(back, time);
}

#[test]
fn filetime_before_the_epoch_has_no_time() {
    assert_eq!(FILETIME { dwLowDateTime: 0, dwHighDateTime: 0 }.into_systime(), None);
    assert_eq!(FILETIME::default().into_systime(), None);
    assert_eq!(FILETIME::from_intervals(MS_EPOCH - 1).into_systime(), None);
    assert_eq!(FILETIME::from_intervals(MS_EPOCH).into_systime(), UnixTime::new(0, 0));
}

#[test]
fn last_filetime_has_a_time() {
    let last = FILETIME { dwLowDateTime: u32::MAX, dwHighDateTime: u32::MAX };
    assert_eq!(last.intervals(), u64::MAX);
    let time = last.into_systime().unwrap();
    assert_eq!(time.secs(), (u64::MAX - MS_EPOCH) / 10_000_000);
    assert_eq!(time.subsec_nanos() as u64, (u64::MAX - MS_EPOCH) % 10_000_000 * 100);
    assert_eq!(FILETIME::from(time), last);
}

#[test]
fn unix_time_refuses_what_no_filetime_holds() {
    assert!(UnixTime::new(0, 999_999_999).is_some());
    assert!(UnixTime::new(0, 1_000_000_000).is_none());
    let last_secs = (u64::MAX - MS_EPOCH) / 10_000_000;
    assert!(UnixTime::new(last_secs, 0).is_some());
    assert!(UnixTime::new(last_secs + 1, 0).is_none());
    assert!(UnixTime::new(u64::MAX, 0).is_none());
}

#[test]
fn filetime_halves() {
    let ftime = FILETIME::from_intervals(0x0123_4567_89AB_CDEF);
    assert_eq!(ftime.dwHighDateTime, 0x0123_4567);
    assert_eq!(ftime.dwLowDateTime, 0x89AB_CDEF);
    assert_eq!(ftime.intervals(), 0x0123_4567_89AB_CDEF);
}

#[test]
fn clock_readings_become_filetimes() {
    assert_eq!(FILETIME::from_clock(Some((0, 0))).intervals(), MS_EPOCH);
    assert_eq!(FILETIME::from_clock(Some((2, 300))).intervals(), MS_EPOCH + 20_000_003);
    assert_eq!(FILETIME::from_clock(None).intervals(), MS_EPOCH);
    assert_eq!(FILETIME::from_clock(Some((u64::MAX, 0))).intervals(), MS_EPOCH);
    assert_eq!(FILETIME::from_clock(Some((0, 2_000_000_000))).intervals(), MS_EPOCH);
}

#[test]
fn now_is_a_time_of_this_century() {
    let now = FILETIME::now();
    let time = now.into_systime().unwrap();
    // 2020-01-01 is 1_577_836_800 s after the epoch.
    assert!(time.secs() > 1_577_836_800);
    let clock = SystemTime::now().duration_since(UNIX_EPOCH).unwrap().as_secs();
    assert!(time.secs() <= clock);
    assert!(clock - time.secs() < 60);
}
