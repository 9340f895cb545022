//! Small square grids of values: 2 by 2, 3 by 3 and 4 by 4, stored row by
//! row from the northwest corner.

use vstd::prelude::*;

verus! {

/// A 2 by 2 grid: `[nw, ne, sw, se]`.
#[derive(Clone, Copy, Debug, PartialEq, Eq)]
pub struct Grid2<T>(pub [T; 4]);

/// A 3 by 3 grid, row by row.
#[derive(Clone, Copy, Debug, PartialEq, Eq)]
pub struct Grid3<T>(pub [T; 9]);

/// A 4 by 4 grid, row by row.
#[derive(Clone, Copy, Debug, PartialEq, Eq)]
pub struct Grid4<T>(pub [T; 16]);

/// `f` gave `Ok(ys[i])` for each `xs[i]`.
pub open spec fn all_ok<T, U, E, F: Fn(T) -> Result<U, E>>(f: F, xs: Seq<T>, ys: Seq<U>) -> bool {
    &&& xs.len() == ys.len()
    &&& forall|i: int| 0 <= i < xs.len() ==> f.ensures((xs[i],), Ok::<U, E>(#[trigger] ys[i]))
}

/// `f` can give an `Ok` for `x`.
pub open spec fn can_be_ok<T, U, E, F: Fn(T) -> Result<U, E>>(f: F, x: T) -> bool {
    exists|v: U| f.ensures((x,), Ok::<U, E>(v))
}

/// `f` gave `Ok` for each of `xs` before `xs[k]`, and `Err(e)` for `xs[k]`.
pub open spec fn fails_at<T, U, E, F: Fn(T) -> Result<U, E>>(f: F, xs: Seq<T>, k: int, e: E) -> bool {
    &&& 0 <= k < xs.len()
    &&& f.ensures((xs[k],), Err::<U, E>(e))
    &&& forall|j: int| 0 <= j < k ==> #[trigger] can_be_ok(f, xs[j])
}

/// `f` gave `Ok` for each of `xs` up to one for which it gave `Err(e)`.
pub open spec fn fails_on<T, U, E, F: Fn(T) -> Result<U, E>>(f: F, xs: Seq<T>, e: E) -> bool {
    exists|k: int| #[trigger] fails_at(f, xs, k, e)
}

/// The windows of a 3 by 3 grid, northwest, northeast, southwest, southeast.
pub open spec fn windows3<T>(a: Seq<T>) -> Seq<Grid2<T>> {
    seq![
        Grid2([a[0], a[1], a[3], a[4]]),
        Grid2([a[1], a[2], a[4], a[5]]),
        Grid2([a[3], a[4], a[6], a[7]]),
        Grid2([a[4], a[5], a[7], a[8]]),
    ]
}

/// The nine 2 by 2 windows of a 4 by 4 grid, row by row.
pub open spec fn windows4<T>(a: Seq<T>) -> Seq<Grid2<T>> {
    seq![
        Grid2([a[0], a[1], a[4], a[5]]),
        Grid2([a[1], a[2], a[5], a[6]]),
        Grid2([a[2], a[3], a[6], a[7]]),
        Grid2([a[4], a[5], a[8], a[9]]),
        Grid2([a[5], a[6], a[9], a[10]]),
        Grid2([a[6], a[7], a[10], a[11]]),
        Grid2([a[8], a[9], a[12], a[13]]),
        Grid2([a[9], a[10], a[13], a[14]]),
        Grid2([a[10], a[11], a[14], a[15]]),
    ]
}

impl<T: Copy> Grid2<T> {
    /// The grid with `value` in each place.
    pub fn repeat(value: T) -> (r: Self)
        ensures
            r.0@ == seq![value, value, value, value],
    {
        let r = Grid2([value, value, value, value]);
        assert(r.0@ =~= seq![value, value, value, value]);
        r
    }

    /// The northwest value.
    pub fn nw(&self) -> (v: T)
        ensures
            v == self.0@[0],
    {
        self.0[0]
    }

    /// The northeast value.
    pub fn ne(&self) -> (v: T)
        ensures
            v == self.0@[1],
    {
        self.0[1]
    }

    /// The southwest value.
    pub fn sw(&self) -> (v: T)
        ensures
            v == self.0@[2],
    {
        self.0[2]
    }

    /// The southeast value.
    pub fn se(&self) -> (v: T)
        ensures
            v == self.0@[3],
    {
        self.0[3]
    }

    /// The grid of `f` applied to each value.
    pub fn map<U, F: Fn(T) -> U>(&self, f: F) -> (r: Grid2<U>)
        requires
            forall|i: int| 0 <= i < 4 ==> f.requires((#[trigger] self.0@[i],)),
        ensures
            forall|i: int| 0 <= i < 4 ==> f.ensures((#[trigger] self.0@[i],), r.0@[i]),
    {
        let a = f(self.0[0]);
        let b = f(self.0[1]);
        let c = f(self.0[2]);
        let d = f(self.0[3]);
        let r = Grid2([a, b, c, d]);
        assert(forall|i: int| 0 <= i < 4 ==> f.ensures((#[trigger] self.0@[i],), r.0@[i])) by {
            assert(r.0@[0] == a && r.0@[1] == b && r.0@[2] == c && r.0@[3] == d);
        }
        r
    }

    /// The grid of `f` applied to each value, if it gives `Ok` for each;
    /// else the first error, in the order nw, ne, sw, se.
    pub fn try_map<E, U, F: Fn(T) -> Result<U, E>>(&self, f: F) -> (r: Result<Grid2<U>, E>)
        requires
            forall|i: int| 0 <= i < 4 ==> f.requires((#[trigger] self.0@[i],)),
        ensures
            r matches Ok(g) ==> all_ok(f, self.0@, g.0@),
            r matches Err(e) ==> fails_on(f, self.0@, e),
    {
        let xs = Ghost(self.0@);
        let a = match f(self.0[0]) {
            Ok(v) => v,
            Err(e) => {
                assert(fails_at(f, xs@, 0, e));
                assert(fails_on(f, xs@, e));
                return Err(e);
            },
        };
        let b = match f(self.0[1]) {
            Ok(v) => v,
            Err(e) => {
                assert(can_be_ok(f, xs@[0]));
                assert(fails_at(f, xs@, 1, e));
                assert(fails_on(f, xs@, e));
                return Err(e);
            },
        };
        let c = match f(self.0[2]) {
            Ok(v) => v,
            Err(e) => {
                assert(can_be_ok(f, xs@[0]) && can_be_ok(f, xs@[1]));
                assert(fails_at(f, xs@, 2, e));
                assert(fails_on(f, xs@, e));
                return Err(e);
            },
        };
        let d = match f(self.0[3]) {
            Ok(v) => v,
            Err(e) => {
                assert(can_be_ok(f, xs@[0]) && can_be_ok(f, xs@[1]) && can_be_ok(f, xs@[2]));
                assert(fails_at(f, xs@, 3, e));
                assert(fails_on(f, xs@, e));
                return Err(e);
            },
        };
        let g = Grid2([a, b, c, d]);
        assert(all_ok(f, xs@, g.0@)) by {
            assert(g.0@[0] == a && g.0@[1] == b && g.0@[2] == c && g.0@[3] == d);
        }
        Ok(g)
    }
}

impl<T: Copy> Grid2<Grid2<T>> {
    /// The 4 by 4 grid that the four 2 by 2 grids make.
    pub fn flatten(&self) -> (r: Grid4<T>)
        ensures
            r.0@ == seq![
                self.0@[0].0@[0], self.0@[0].0@[1], self.0@[1].0@[0], self.0@[1].0@[1],
                self.0@[0].0@[2], self.0@[0].0@[3], self.0@[1].0@[2], self.0@[1].0@[3],
                self.0@[2].0@[0], self.0@[2].0@[1], self.0@[3].0@[0], self.0@[3].0@[1],
                self.0@[2].0@[2], self.0@[2].0@[3], self.0@[3].0@[2], self.0@[3].0@[3],
            ],
    {
        let nw = self.0[0].0;
        let ne = self.0[1].0;
        let sw = self.0[2].0;
        let se = self.0[3].0;
        let r = Grid4([
            nw[0], nw[1], ne[0], ne[1],
            nw[2], nw[3], ne[2], ne[3],
            sw[0], sw[1], se[0], se[1],
            sw[2], sw[3], se[2], se[3],
        ]);
        assert(r.0@ =~= seq![
            nw@[0], nw@[1], ne@[0], ne@[1],
            nw@[2], nw@[3], ne@[2], ne@[3],
            sw@[0], sw@[1], se@[0], se@[1],
            sw@[2], sw@[3], se@[2], se@[3],
        ]);
        r
    }
}

/// `f` applied to each of `xs` in turn, up to the first error.
fn try_map_all<T: Copy, U, E, F: Fn(T) -> Result<U, E>>(xs: &[T], f: F) -> (r: Result<Vec<U>, E>)
    requires
        forall|i: int| 0 <= i < xs@.len() ==> f.requires((#[trigger] xs@[i],)),
    ensures
        r matches Ok(ys) ==> all_ok(f, xs@, ys@),
        r matches Err(e) ==> fails_on(f, xs@, e),
{
    let mut ys: Vec<U> = Vec::new();
    let mut i: usize = 0;
    while i < xs.len()
        invariant
            i <= xs@.len(),
            forall|j: int| 0 <= j < xs@.len() ==> f.requires((#[trigger] xs@[j],)),
            all_ok(f, xs@.take(i as int), ys@),
        decreases xs@.len() - i,
    {
        match f(xs[i]) {
            Ok(y) => {
                proof {
                    assert forall|j: int| 0 <= j < i + 1 implies f.ensures(
                        (#[trigger] xs@.take(i + 1)[j],),
                        Ok::<U, E>(ys@.push(y)[j]),
                    ) by {
                        if j < i {
                            assert(xs@.take(i + 1)[j] == xs@.take(i as int)[j]);
                            assert(f.ensures((xs@.take(i as int)[j],), Ok::<U, E>(ys@[j])));
                        }
                    }
                }
                ys.push(y);
                i = i + 1;
            },
            Err(e) => {
                proof {
                    assert forall|j: int| 0 <= j < i implies #[trigger] can_be_ok(f, xs@[j]) by {
                        assert(xs@.take(i as int)[j] == xs@[j]);
                        assert(f.ensures((xs@.take(i as int)[j],), Ok::<U, E>(ys@[j])));
                    }
                    assert(fails_at(f, xs@, i as int, e));
                }
                return Err(e);
            },
        }
    }
    assert(xs@.take(i as int) == xs@);
    Ok(ys)
}

impl<T: Copy> Grid3<T> {
    /// The 2 by 2 grid of `func` applied to each 2 by 2 window, if it gives
    /// `Ok` for each; else the first error, in the order nw, ne, sw, se.
    pub fn shrink<E, U: Copy, F: Fn(Grid2<T>) -> Result<U, E>>(&self, func: F) -> (r: Result<Grid2<U>, E>)
        requires
            forall|i: int| 0 <= i < 4 ==> func.requires((#[trigger] windows3(self.0@)[i],)),
        ensures
            r matches Ok(g) ==> all_ok(func, windows3(self.0@), g.0@),
            r matches Err(e) ==> fails_on(func, windows3(self.0@), e),
    {
        let a = self.0;
        let windows = [
            Grid2([a[0], a[1], a[3], a[4]]),
            Grid2([a[1], a[2], a[4], a[5]]),
            Grid2([a[3], a[4], a[6], a[7]]),
            Grid2([a[4], a[5], a[7], a[8]]),
        ];
        assert(windows@ =~= windows3(self.0@));
        match try_map_all(&windows, func) {
            Ok(v) => {
                let g = Grid2([v[0], v[1], v[2], v[3]]);
                assert(g.0@ =~= v@);
                Ok(g)
            },
            Err(e) => Err(e),
        }
    }
}

impl<T: Copy> Grid4<T> {
    /// The 2 by 2 grid at the center.
    pub fn center(&self) -> (r: Grid2<T>)
        ensures
            r.0@ == seq![self.0@[5], self.0@[6], self.0@[9], self.0@[10]],
    {
        let r = Grid2([self.0[5], self.0[6], self.0[9], self.0[10]]);
        assert(r.0@ =~= seq![self.0@[5], self.0@[6], self.0@[9], self.0@[10]]);
        r
    }

    /// The 3 by 3 grid of `func` applied to each 2 by 2 window, if it gives
    /// `Ok` for each; else the first error, row by row.
    pub fn shrink<E, U: Copy, F: Fn(Grid2<T>) -> Result<U, E>>(&self, func: F) -> (r: Result<Grid3<U>, E>)
        requires
            forall|i: int| 0 <= i < 9 ==> func.requires((#[trigger] windows4(self.0@)[i],)),
        ensures
            r matches Ok(g) ==> all_ok(func, windows4(self.0@), g.0@),
            r matches Err(e) ==> fails_on(func, windows4(self.0@), e),
    {
        let a = self.0;
        let windows = [
            Grid2([a[0], a[1], a[4], a[5]]),
            Grid2([a[1], a[2], a[5], a[6]]),
            Grid2([a[2], a[3], a[6], a[7]]),
            Grid2([a[4], a[5], a[8], a[9]]),
            Grid2([a[5], a[6], a[9], a[10]]),
            Grid2([a[6], a[7], a[10], a[11]]),
            Grid2([a[8], a[9], a[12], a[13]]),
            Grid2([a[9], a[10], a[13], a[14]]),
            Grid2([a[10], a[11], a[14], a[15]]),
        ];
        assert(windows@ =~= windows4(self.0@));
        match try_map_all(&windows, func) {
            Ok(v) => {
                let g = Grid3([v[0], v[1], v[2], v[3], v[4], v[5], v[6], v[7], v[8]]);
                assert(g.0@ =~= v@);
                Ok(g)
            },
            Err(e) => Err(e),
        }
    }
}

} // verus!
