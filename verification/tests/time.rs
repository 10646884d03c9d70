use type_sorter::time::Timestamp;

#[test]
fn timestamp_of_a_date_keeps_its_parts() {
    let t = Timestamp::from_unix(1431648000, 0);
    assert_eq!(t, Some(Timestamp { secs: 1431648000, nanos: 0 }));
    let t = Timestamp::from_unix(-1, 999_999_999);
    assert_eq!(t, Some(Timestamp { secs: -1, nanos: 999_999_999 }));
}

#[test]
fn timestamp_out_of_range_is_none() {
    assert_eq!(Timestamp::from_unix(i64::MAX, 0), None);
    assert_eq!(Timestamp::from_unix(i64::MIN, 0), None);
    assert_eq!(Timestamp::from_unix(0, 2_000_000_000), None);
    assert_eq!(Timestamp::from_unix(0, 1_500_000_000), None);
}

#[test]
fn leap_second_is_kept() {
    let t = Timestamp::from_unix(59, 1_500_000_000);
    assert_eq!(t, Some(Timestamp { secs: 59, nanos: 1_500_000_000 }));
}

#[test]
fn from_parts_copies_the_parts() {
    assert_eq!(Timestamp::from_parts(None), None);
    assert_eq!(
        Timestamp::from_parts(Some((7, 9))),
        Some(Timestamp { secs: 7, nanos: 9 })
    );
}
