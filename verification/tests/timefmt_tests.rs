use diode::timefmt::{fmt_now, fmt_timestamp};

#[test]
fn epoch() {
    assert_eq!(fmt_timestamp(0, 0), "1970-01-01 00:00:00,000");
}

#[test]
fn known_instant() {
    assert_eq!(fmt_timestamp(1725029869, 123), "2024-08-30 14:57:49,123");
}

#[test]
fn leap_day() {
    assert_eq!(fmt_timestamp(951782400, 5), "2000-02-29 00:00:00,005");
}

#[test]
fn before_the_epoch() {
    assert_eq!(fmt_timestamp(-86400, 0), "1969-12-31 00:00:00,000");
}

#[test]
fn now_has_the_shape() {
    let s = fmt_now();
    assert_eq!(s.len(), 23);
    assert_eq!(&s[4..5], "-");
    assert_eq!(&s[19..20], ",");
}

#[test]
fn century_without_leap_day() {
    assert_eq!(fmt_timestamp(4107456000, 0), "2100-02-28 00:00:00,000");
    assert_eq!(fmt_timestamp(4107542400, 0), "2100-03-01 00:00:00,000");
}

#[test]
fn later_times_sort_later() {
    let times: [(i64, u32); 6] = [
        (0, 0),
        (59, 999),
        (60, 0),
        (86399, 999),
        (951782400, 5),
        (253402300799, 999),
    ];
    let texts: Vec<String> = times.iter().map(|&(s, ms)| fmt_timestamp(s, ms)).collect();
    for w in texts.windows(2) {
        assert!(w[0] < w[1], "{} !< {}", w[0], w[1]);
    }
    assert_eq!(texts[5], "9999-12-31 23:59:59,999");
    assert!(texts.iter().all(|t| t.len() == 23));
}

#[test]
fn clock_before_the_epoch_shows_the_epoch() {
    assert_eq!(diode::timefmt::fmt_clock(None), "1970-01-01 00:00:00,000");
    assert_eq!(diode::timefmt::fmt_clock(Some((86400, 7))), "1970-01-02 00:00:00,007");
    assert_eq!(diode::timefmt::clock_reading(None), (0, 0));
}
