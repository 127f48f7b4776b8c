//! Value types shared by the whole optimizer: points, grid locations,
//! stroke and feature classes, and the opaque rendering settings bundle.

use vstd::prelude::*;

verus! {

/// A 2D coordinate.  Compared by exact equality for adjacency tests.
#[derive(Clone, Copy, PartialEq, Eq, Structural, Debug)]
pub struct Point {
    pub x: i64,
    pub y: i64,
}

impl Point {
    pub fn new(x: i64, y: i64) -> (p: Point)
        ensures
            p.x == x,
            p.y == y,
    {
        Point { x, y }
    }
}

/// A discrete grid coordinate (column, row) naming where a primitive group
/// was found.  Used as a lookup key; equality is structural.
#[derive(Clone, Copy, PartialEq, Eq, Structural, Debug)]
pub struct Loc {
    pub x: i64,
    pub y: i64,
}

/// True when all four cardinal neighbors of `l` can be derived without
/// overflowing the coordinate type.
pub open spec fn loc_in_range(l: Loc) -> bool {
    i64::MIN < l.x < i64::MAX && i64::MIN < l.y < i64::MAX
}

/// The neighbor one column to the right.
pub open spec fn right_of(l: Loc) -> Loc {
    Loc { x: (l.x + 1) as i64, y: l.y }
}

/// The neighbor one row below.
pub open spec fn bottom_of(l: Loc) -> Loc {
    Loc { x: l.x, y: (l.y + 1) as i64 }
}

/// The neighbor one column to the left.
pub open spec fn left_of(l: Loc) -> Loc {
    Loc { x: (l.x - 1) as i64, y: l.y }
}

impl Loc {
    pub fn new(x: i64, y: i64) -> (l: Loc)
        ensures
            l.x == x,
            l.y == y,
    {
        Loc { x, y }
    }

    pub fn right(&self) -> (r: Loc)
        requires
            self.x < i64::MAX,
        ensures
            r == right_of(*self),
    {
        Loc { x: self.x + 1, y: self.y }
    }

    pub fn bottom(&self) -> (r: Loc)
        requires
            self.y < i64::MAX,
        ensures
            r == bottom_of(*self),
    {
        Loc { x: self.x, y: self.y + 1 }
    }

    pub fn left(&self) -> (r: Loc)
        requires
            i64::MIN < self.x,
        ensures
            r == left_of(*self),
    {
        Loc { x: self.x - 1, y: self.y }
    }
}

/// Stroke class of a line or arc; decides which unification bucket it joins.
#[derive(Clone, Copy, PartialEq, Eq, Structural, Debug)]
pub enum Stroke {
    Solid,
    Dashed,
}

/// Decorative line ending.  `Nothing` marks a plain connectable segment.
#[derive(Clone, Copy, PartialEq, Eq, Structural, Debug)]
pub enum Feature {
    Arrow,
    Circle,
    Nothing,
}

/// Rendering configuration handed in by the caller.  The optimizer does not
/// interpret it; it is accepted and forwarded for collaborators that do.
#[derive(Clone, Copy, PartialEq, Eq, Structural, Debug)]
pub struct Settings {
}

impl Settings {
    pub fn new() -> (s: Settings)
    {
        Settings {}
    }
}

} // verus!
