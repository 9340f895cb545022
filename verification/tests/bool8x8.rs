use smeagol::bool8x8::Bool8x8;
use smeagol::coords::Offset;

fn b(bits: u64) -> Bool8x8 {
    Bool8x8(bits)
}

#[test]
fn bool8x8_partitions() {
    // the masks of each case xor to the whole grid
    let cases: Vec<Vec<Bool8x8>> = vec![
        vec![b(Bool8x8::TRUE)],
        vec![b(Bool8x8::NORTH), b(Bool8x8::SOUTH)],
        vec![b(Bool8x8::EAST), b(Bool8x8::WEST)],
        vec![
            b(Bool8x8::NORTHWEST),
            b(Bool8x8::NORTHEAST),
            b(Bool8x8::SOUTHWEST),
            b(Bool8x8::SOUTHEAST),
        ],
        vec![b(Bool8x8::FALSE), b(Bool8x8::FALSE), b(Bool8x8::TRUE), b(Bool8x8::FALSE)],
        vec![b(Bool8x8::SOUTHWEST), b(Bool8x8::NORTH), b(Bool8x8::FALSE), b(Bool8x8::SOUTHEAST)],
    ];
    for case in &cases {
        assert!(Bool8x8::fold_xor(b(Bool8x8::FALSE), case) == b(Bool8x8::TRUE));
    }

    // the masks of each partition cover the grid and are pairwise disjoint
    let partitions: Vec<Vec<Bool8x8>> = vec![
        vec![b(Bool8x8::TRUE)],
        vec![b(Bool8x8::NORTH), b(Bool8x8::SOUTH)],
        vec![b(Bool8x8::EAST), b(Bool8x8::WEST)],
        vec![
            b(Bool8x8::NORTHWEST),
            b(Bool8x8::NORTHEAST),
            b(Bool8x8::SOUTHWEST),
            b(Bool8x8::SOUTHEAST),
        ],
        vec![b(Bool8x8::NORTH), b(Bool8x8::SOUTHWEST), b(Bool8x8::SOUTHEAST)],
        vec![b(Bool8x8::FALSE), b(Bool8x8::FALSE), b(Bool8x8::FALSE), b(Bool8x8::TRUE), b(Bool8x8::FALSE)],
    ];
    for partition in &partitions {
        let covers_grid = Bool8x8::fold_or(b(Bool8x8::FALSE), partition) == b(Bool8x8::TRUE);
        assert!(covers_grid);
        let mut pairwise_disjoint = true;
        for i in 0..partition.len() {
            for j in (i + 1)..partition.len() {
                if partition[i].and(partition[j]) != b(Bool8x8::FALSE) {
                    pairwise_disjoint = false;
                }
            }
        }
        assert!(pairwise_disjoint);
    }
}

#[test]
fn bool8x8_shift() {
    let center = Bool8x8(0x0000_0018_1800_0000);
    let north = Bool8x8(0x0000_1818_0000_0000);
    let south = Bool8x8(0x0000_0000_1818_0000);
    let east = Bool8x8(0x0000_000C_0C00_0000);
    let west = Bool8x8(0x0000_0030_3000_0000);

    assert_eq!(center.offset(1, 0), east);
    assert_eq!(center.offset(-1, 0), west);
    assert_eq!(center.offset(0, 1), north);
    assert_eq!(center.offset(0, -1), south);

    let c = b(Bool8x8::CENTER);
    assert_eq!(c.shift(Offset::Northwest(2)), b(Bool8x8::NORTHWEST));
    assert_eq!(c.shift(Offset::Northeast(2)), b(Bool8x8::NORTHEAST));
    assert_eq!(c.shift(Offset::Southwest(2)), b(Bool8x8::SOUTHWEST));
    assert_eq!(c.shift(Offset::Southeast(2)), b(Bool8x8::SOUTHEAST));
}

#[test]
fn bool8x8_adder() {
    let buckets = Bool8x8::sum(&[
        Bool8x8(0x00000000F0000000),
        Bool8x8(0x0000000FFF000000),
        Bool8x8(0x000000FFFFF00000),
        Bool8x8(0x00000FFFFFFF0000),
        Bool8x8(0x0000FFFFFFFFF000),
        Bool8x8(0x000FFFFFFFFFFF00),
        Bool8x8(0x00FFFFFFFFFFFFF0),
        Bool8x8(0x0FFFFFFFFFFFFFFF),
    ]);

    assert_eq!(Bool8x8(0x00000000F0000000), buckets[8]);
    assert_eq!(Bool8x8(0x0000000F0F000000), buckets[7]);
    assert_eq!(Bool8x8(0x000000F000F00000), buckets[6]);
    assert_eq!(Bool8x8(0x00000F00000F0000), buckets[5]);
    assert_eq!(Bool8x8(0x0000F0000000F000), buckets[4]);
    assert_eq!(Bool8x8(0x000F000000000F00), buckets[3]);
    assert_eq!(Bool8x8(0x00F00000000000F0), buckets[2]);
    assert_eq!(Bool8x8(0x0F0000000000000F), buckets[1]);
    assert_eq!(Bool8x8(0xF000000000000000), buckets[0]);

    let buckets = Bool8x8::sum(&[
        Bool8x8(0x0000000F00000000),
        Bool8x8(0x000000FFF0000000),
        Bool8x8(0x00000FFFFF000000),
        Bool8x8(0x0000FFFFFFF00000),
        Bool8x8(0x000FFFFFFFFF0000),
        Bool8x8(0x00FFFFFFFFFFF000),
        Bool8x8(0x0FFFFFFFFFFFFF00),
        Bool8x8(0xFFFFFFFFFFFFFFF0),
    ]);

    assert_eq!(Bool8x8(0x0000000F00000000), buckets[8]);
    assert_eq!(Bool8x8(0x000000F0F0000000), buckets[7]);
    assert_eq!(Bool8x8(0x00000F000F000000), buckets[6]);
    assert_eq!(Bool8x8(0x0000F00000F00000), buckets[5]);
    assert_eq!(Bool8x8(0x000F0000000F0000), buckets[4]);
    assert_eq!(Bool8x8(0x00F000000000F000), buckets[3]);
    assert_eq!(Bool8x8(0x0F00000000000F00), buckets[2]);
    assert_eq!(Bool8x8(0xF0000000000000F0), buckets[1]);
    assert_eq!(Bool8x8(0x000000000000000F), buckets[0]);
}

#[test]
fn bool8x8_bits() {
    let g = Bool8x8(0).set_bit(5).set_bit(63);
    assert_eq!(g, Bool8x8((1u64 << 5) | (1u64 << 63)));
    assert!(g.get_bit(5));
    assert!(!g.get_bit(6));
    assert_eq!(g.unset_bit(5), Bool8x8(1u64 << 63));
    assert_eq!(g.not().not(), g);
    assert_eq!(g.xor(g), Bool8x8(0));
    assert_eq!(Bool8x8::all(&[]), Bool8x8(u64::MAX));
    assert_eq!(Bool8x8::any(&[]), Bool8x8(0));
    assert_eq!(
        Bool8x8::any_both(&[Bool8x8(0b1100), Bool8x8(0b0011)], &[Bool8x8(0b0100), Bool8x8(0b0001)]),
        Bool8x8(0b0101)
    );
}
