use smeagol::bitgrid::SimdExt;

#[test]
fn bitgrid_test() {
    let mut x = [0u16; 16];
    x[4] = 201;
    x[11] = 230;
    println!("{:?}", x);
    // 201 is 0b1100_1001
    assert_eq!(x.get(4, 0), Some(true));
    assert_eq!(x.get(4, 1), Some(false));
    assert_eq!(x.get(4, 7), Some(true));
    assert_eq!(x.get(16, 0), None);
    assert_eq!(x.get(0, 16), None);
    let y = x.set(11, 0, true).unwrap();
    assert_eq!(y[11], 231);
    let z = y.set(11, 1, false).unwrap();
    assert_eq!(z[11], 229);
    assert_eq!(z.set(3, 20, true), None);
}
