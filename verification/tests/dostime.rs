use unalz_rs::dostime::{dos_datetime_to_string, dos_datetime_to_systime};

fn pack(year: u32, month: u32, day: u32, hour: u32, min: u32, sec: u32) -> u32 {
    ((year - 1980) << 25) | (month << 21) | (day << 16) | (hour << 11) | (min << 5) | (sec / 2)
}

#[test]
fn test_dos_datetime_to_string() {
    // 2019-04-12 04:16:18
    assert_eq!(dos_datetime_to_string(0x4E8C2209), "2019-04-12 04:16:18");
    // 1980-01-01 00:00:00 (minimum DOS date)
    assert_eq!(dos_datetime_to_string(0x00210000), "1980-01-01 00:00:00");
}

#[test]
fn test_dos_datetime_to_systime() {
    // 2019-04-12 04:16:18 -> Unix timestamp 1555042578
    let secs = dos_datetime_to_systime(0x4E8C2209).unwrap();
    assert_eq!(secs, 1555042578);
}

#[test]
fn test_invalid_date() {
    // Month 0 is invalid
    assert!(dos_datetime_to_systime(0).is_none());
}

#[test]
fn invalid_fields_are_refused_one_by_one() {
    // day 0
    assert!(dos_datetime_to_systime(pack(2000, 1, 0, 0, 0, 0)).is_none());
    // month 13, 14, 15
    assert!(dos_datetime_to_systime(pack(2000, 13, 1, 0, 0, 0)).is_none());
    assert!(dos_datetime_to_systime(pack(2000, 14, 1, 0, 0, 0)).is_none());
    assert!(dos_datetime_to_systime(pack(2000, 15, 1, 0, 0, 0)).is_none());
    // the bounds themselves are accepted
    assert!(dos_datetime_to_systime(pack(2000, 1, 1, 0, 0, 0)).is_some());
    assert!(dos_datetime_to_systime(pack(2000, 12, 31, 0, 0, 0)).is_some());
}

#[test]
fn epoch_seconds_of_known_dates() {
    assert_eq!(dos_datetime_to_systime(pack(1980, 1, 1, 0, 0, 0)), Some(315532800));
    assert_eq!(dos_datetime_to_systime(pack(2000, 1, 1, 0, 0, 0)), Some(946684800));
    // leap day of a year divisible by 400
    assert_eq!(dos_datetime_to_systime(pack(2000, 2, 29, 12, 0, 0)), Some(951825600));
    assert_eq!(dos_datetime_to_systime(pack(2000, 3, 1, 0, 0, 0)), Some(951868800));
    // 2100 is no leap year
    assert_eq!(dos_datetime_to_systime(pack(2100, 3, 1, 0, 0, 0)), Some(4107542400));
    // the last moment a DOS timestamp can name
    assert_eq!(dos_datetime_to_systime(pack(2107, 12, 31, 23, 59, 58)), Some(4354819198));
}

#[test]
fn day_past_the_end_of_a_month_counts_on() {
    // February 31 is taken as two or three days past February 28/29.
    assert_eq!(
        dos_datetime_to_systime(pack(2001, 2, 31, 0, 0, 0)),
        dos_datetime_to_systime(pack(2001, 3, 3, 0, 0, 0))
    );
    assert_eq!(
        dos_datetime_to_systime(pack(2004, 2, 31, 0, 0, 0)),
        dos_datetime_to_systime(pack(2004, 3, 2, 0, 0, 0))
    );
}

#[test]
fn text_shows_fields_as_stored() {
    assert_eq!(dos_datetime_to_string(0), "1980-00-00 00:00:00");
    assert_eq!(dos_datetime_to_string(0xffff_ffff), "2107-15-31 31:63:62");
    assert_eq!(dos_datetime_to_string(pack(2024, 2, 29, 23, 59, 58)), "2024-02-29 23:59:58");
}
