//! Four things, one per quadrant.

use vstd::prelude::*;

verus! {

/// Four things, one per quadrant of a square.
#[derive(Clone, Copy, Debug, PartialEq, Eq)]
pub struct Quad<T> {
    /// The northwest one.
    pub nw: T,
    /// The northeast one.
    pub ne: T,
    /// The southwest one.
    pub sw: T,
    /// The southeast one.
    pub se: T,
}

impl<T> Quad<T> {
    /// The array `[nw, ne, sw, se]`.
    pub fn to_array(self) -> (array: [T; 4])
        ensures
            array@ == seq![self.nw, self.ne, self.sw, self.se],
    {
        [self.nw, self.ne, self.sw, self.se]
    }
}

impl<T: Copy> Quad<T> {
    /// The quad of the array `[nw, ne, sw, se]`.
    pub fn from_array(array: [T; 4]) -> (q: Self)
        ensures
            q.nw == array@[0],
            q.ne == array@[1],
            q.sw == array@[2],
            q.se == array@[3],
    {
        Self { nw: array[0], ne: array[1], sw: array[2], se: array[3] }
    }
}

impl<T> Quad<T> {

    /// The quad of `f` applied to each of the four.
    pub fn map<U, F: Fn(T) -> U>(self, f: F) -> (q: Quad<U>)
        requires
            f.requires((self.nw,)),
            f.requires((self.ne,)),
            f.requires((self.sw,)),
            f.requires((self.se,)),
        ensures
            f.ensures((self.nw,), q.nw),
            f.ensures((self.ne,), q.ne),
            f.ensures((self.sw,), q.sw),
            f.ensures((self.se,), q.se),
    {
        let nw = f(self.nw);
        let ne = f(self.ne);
        let sw = f(self.sw);
        let se = f(self.se);
        Quad { nw, ne, sw, se }
    }

    /// The quad of `f` applied to each of the four, if it gives a value for
    /// each; `None` at the first that gives none, in the order `nw`, `ne`,
    /// `sw`, `se`.
    pub fn try_map<U, F: Fn(T) -> Option<U>>(self, f: F) -> (q: Option<Quad<U>>)
        requires
            f.requires((self.nw,)),
            f.requires((self.ne,)),
            f.requires((self.sw,)),
            f.requires((self.se,)),
        ensures
            q matches Some(r) ==> f.ensures((self.nw,), Some(r.nw)) && f.ensures((self.ne,), Some(r.ne))
                && f.ensures((self.sw,), Some(r.sw)) && f.ensures((self.se,), Some(r.se)),
            q is None ==> f.ensures((self.nw,), None::<U>) || f.ensures((self.ne,), None::<U>)
                || f.ensures((self.sw,), None::<U>) || f.ensures((self.se,), None::<U>),
    {
        let nw = match f(self.nw) {
            Some(v) => v,
            None => return None,
        };
        let ne = match f(self.ne) {
            Some(v) => v,
            None => return None,
        };
        let sw = match f(self.sw) {
            Some(v) => v,
            None => return None,
        };
        let se = match f(self.se) {
            Some(v) => v,
            None => return None,
        };
        Some(Quad { nw, ne, sw, se })
    }
}

impl<T> Quad<Quad<T>> {
    /// The quad between the two northern quads.
    pub fn north(self) -> (q: Quad<T>)
        ensures
            q == (Quad { nw: self.nw.ne, ne: self.ne.nw, sw: self.nw.se, se: self.ne.sw }),
    {
        Quad { nw: self.nw.ne, ne: self.ne.nw, sw: self.nw.se, se: self.ne.sw }
    }

    /// The quad between the two southern quads.
    pub fn south(self) -> (q: Quad<T>)
        ensures
            q == (Quad { nw: self.sw.ne, ne: self.se.nw, sw: self.sw.se, se: self.se.sw }),
    {
        Quad { nw: self.sw.ne, ne: self.se.nw, sw: self.sw.se, se: self.se.sw }
    }

    /// The quad between the two eastern quads.
    pub fn east(self) -> (q: Quad<T>)
        ensures
            q == (Quad { nw: self.ne.sw, ne: self.ne.se, sw: self.se.nw, se: self.se.ne }),
    {
        Quad { nw: self.ne.sw, ne: self.ne.se, sw: self.se.nw, se: self.se.ne }
    }

    /// The quad between the two western quads.
    pub fn west(self) -> (q: Quad<T>)
        ensures
            q == (Quad { nw: self.nw.sw, ne: self.nw.se, sw: self.sw.nw, se: self.sw.ne }),
    {
        Quad { nw: self.nw.sw, ne: self.nw.se, sw: self.sw.nw, se: self.sw.ne }
    }

    /// The quad at the center of the four.
    pub fn center(self) -> (q: Quad<T>)
        ensures
            q == (Quad { nw: self.nw.se, ne: self.ne.sw, sw: self.sw.ne, se: self.se.nw }),
    {
        Quad { nw: self.nw.se, ne: self.ne.sw, sw: self.sw.ne, se: self.se.nw }
    }
}

/// Conversion into a `Quad`.
pub trait ToQuad<T> {
    /// The quad of this value.
    fn to_quad(self) -> Quad<T>;
}

impl<T: Copy> ToQuad<T> for [T; 4] {
    /// The quad of the array `[nw, ne, sw, se]`.
    fn to_quad(self) -> (q: Quad<T>)
        ensures
            q == (Quad { nw: self@[0], ne: self@[1], sw: self@[2], se: self@[3] }),
    {
        Quad::from_array(self)
    }
}

} // verus!
