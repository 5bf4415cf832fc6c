use rsk::clock::timestamp_of;

#[test]
fn timestamp_after_the_epoch_is_the_offset() {
    assert_eq!(timestamp_of(Ok((5, 7))), Some((5, 7)));
    assert_eq!(timestamp_of(Ok((0, 0))), Some((0, 0)));
    assert_eq!(timestamp_of(Ok((u64::MAX, 0))), None);
}

#[test]
fn timestamp_before_the_epoch_borrows_a_second() {
    assert_eq!(timestamp_of(Err((5, 0))), Some((-5, 0)));
    assert_eq!(timestamp_of(Err((5, 250_000_000))), Some((-6, 750_000_000)));
    assert_eq!(timestamp_of(Err((i64::MAX as u64, 1))), Some((i64::MIN, 999_999_999)));
    assert_eq!(timestamp_of(Err((i64::MAX as u64 + 1, 0))), None);
}
