use smeagol::grid::{Grid2, Grid3, Grid4};

#[test]
fn grid_try_map() {
    let odd_cube = |x: u32| if x % 2 == 1 { Ok(x.pow(3)) } else { Err(()) };

    let odds = Grid2([1, 3, 5, 7]);
    assert_eq!(odds.try_map(odd_cube), Ok(Grid2([1, 27, 125, 343])));

    let evens = Grid2([2, 4, 6, 8]);
    assert_eq!(evens.try_map(odd_cube), Err(()));

    let not_odds = Grid2([1, 4, 3, 8]);
    assert_eq!(not_odds.try_map(odd_cube), Err(()));
}

#[test]
fn grid_flatten() {
    // 0 0 1 1
    // 0 0 1 1
    // 2 2 3 3
    // 2 2 3 3
    let zeros = Grid2([0; 4]);
    let ones = Grid2([1; 4]);
    let twos = Grid2([2; 4]);
    let threes = Grid2([3; 4]);
    let nested = Grid2([zeros, ones, twos, threes]);
    let flattened = nested.flatten();

    assert_eq!(flattened, Grid4([0, 0, 1, 1, 0, 0, 1, 1, 2, 2, 3, 3, 2, 2, 3, 3]));
}

#[test]
fn grid_shrink() {
    let sum = |grid: Grid2<u32>| -> Result<u32, ()> { Ok(grid.0.iter().sum()) };
    let ones = Grid4([1; 16]);

    let fours = ones.shrink(sum).unwrap();
    assert_eq!(fours, Grid3([4; 9]));

    let sixteens = fours.shrink(sum).unwrap();
    assert_eq!(sixteens, Grid2([16; 4]));
}

#[test]
fn grid_first_error_wins() {
    // the error of the first window that fails is returned, row by row
    let grid = Grid4([0u32, 1, 2, 3, 4, 5, 6, 7, 8, 9, 10, 11, 12, 13, 14, 15]);
    let nw_below_five = |g: Grid2<u32>| if g.nw() < 5 { Ok(g.nw()) } else { Err(g.nw()) };
    assert_eq!(grid.shrink(nw_below_five), Err(5));
    let distinct = Grid2([10u32, 20, 30, 40]);
    let over = |x: u32| if x < 25 { Ok(x) } else { Err(x) };
    assert_eq!(distinct.try_map(over), Err(30));
    assert_eq!(distinct.map(|x: u32| x / 10), Grid2([1, 2, 3, 4]));
    assert_eq!((distinct.nw(), distinct.ne(), distinct.sw(), distinct.se()), (10, 20, 30, 40));
    assert_eq!(grid.center(), Grid2([5, 6, 9, 10]));
}
