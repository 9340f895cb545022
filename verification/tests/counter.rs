use smeagol::counter::Counter;

#[test]
fn histogram() {
    let buckets = Counter::new()
        .add(0x0000000F00000000)
        .add(0x000000FFF0000000)
        .add(0x00000FFFFF000000)
        .add(0x0000FFFFFFF00000)
        .add(0x000FFFFFFFFF0000)
        .add(0x00FFFFFFFFFFF000)
        .add(0x0FFFFFFFFFFFFF00)
        .add(0xFFFFFFFFFFFFFFF0)
        .finish();
    assert_eq!(0x0000000F00000000, buckets[8]);
    assert_eq!(0x000000F0F0000000, buckets[7]);
    assert_eq!(0x00000F000F000000, buckets[6]);
    assert_eq!(0x0000F00000F00000, buckets[5]);
    assert_eq!(0x000F0000000F0000, buckets[4]);
    assert_eq!(0x00F000000000F000, buckets[3]);
    assert_eq!(0x0F00000000000F00, buckets[2]);
    assert_eq!(0xF0000000000000F0, buckets[1]);
    assert_eq!(0x000000000000000F, buckets[0]);
}

#[test]
fn counter_add_order_and_zero() {
    let base = || Counter::new().add(0xF0F0).add(0x00FF);
    let x: u64 = 0x1234_5678_9ABC_DEF0;
    let y: u64 = 0x0FF0_0FF0_F00F_F00F;
    assert_eq!(base().add(x).add(y).finish(), base().add(y).add(x).finish());
    assert_eq!(base().add(0).finish(), base().finish());
    // after two adds, bucket 2 holds the bits set in both words
    assert_eq!(base().finish()[2], 0x00F0);
    assert_eq!(base().finish()[1], 0xF00F);
}
