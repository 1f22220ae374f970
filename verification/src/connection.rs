use vstd::prelude::*;
use vstd::std_specs::cmp::PartialEqSpecImpl;

verus! {

/// A piece of track joining two sides of a tile. Sides are numbered
/// clockwise: 0 up, 1 right, 2 down, 3 left. Two connections are equal when
/// they join the same two sides, whichever is named first.
#[derive(Clone, Copy, Debug)]
pub struct Connection {
    pub dir1: u8,
    pub dir2: u8,
}

impl Connection {
    /// Both ends are sides of a tile, and they differ.
    pub open spec fn wf(self) -> bool {
        self.dir1 < 4 && self.dir2 < 4 && self.dir1 != self.dir2
    }

    /// The connection ends at side `dir`.
    pub open spec fn has(self, dir: u8) -> bool {
        self.dir1 == dir || self.dir2 == dir
    }

    /// The two connections join the same sides.
    pub open spec fn same(self, other: Connection) -> bool {
        (self.dir1 == other.dir1 && self.dir2 == other.dir2) || (self.dir1 == other.dir2
            && self.dir2 == other.dir1)
    }

    /// The connection turned clockwise by `amt` quarter turns.
    pub open spec fn rotated(self, amt: u8) -> Connection {
        Connection { dir1: ((self.dir1 + amt) % 4) as u8, dir2: ((self.dir2 + amt) % 4) as u8 }
    }

    /// A straight track: it joins opposite sides.
    pub open spec fn is_straight(self) -> bool {
        self.same(Connection { dir1: 0, dir2: 2 }) || self.same(Connection { dir1: 1, dir2: 3 })
    }

    /// The side that the connection joins to `dir`.
    pub open spec fn other_end(self, dir: u8) -> u8 {
        if self.dir1 == dir {
            self.dir2
        } else {
            self.dir1
        }
    }

    /// Whether both ends are sides of a tile, and they differ.
    pub fn is_well_formed(&self) -> (b: bool)
        ensures
            b == self.wf(),
    {
        self.dir1 < 4 && self.dir2 < 4 && self.dir1 != self.dir2
    }

    /// Whether the connection ends at side `dir`.
    pub fn contains(&self, dir: u8) -> (b: bool)
        ensures
            b == self.has(dir),
    {
        self.dir1 == dir || self.dir2 == dir
    }

    /// The connection turned clockwise by `amt` quarter turns.
    pub fn rot(&self, amt: u8) -> (c: Connection)
        ensures
            c == self.rotated(amt),
    {
        let d1: u16 = self.dir1 as u16 + amt as u16;
        let d2: u16 = self.dir2 as u16 + amt as u16;
        Connection { dir1: (d1 % 4) as u8, dir2: (d2 % 4) as u8 }
    }
}

impl PartialEq for Connection {
    fn eq(&self, other: &Self) -> (r: bool) {
        (self.dir1 == other.dir1 && self.dir2 == other.dir2) || (self.dir1 == other.dir2
            && self.dir2 == other.dir1)
    }
}

impl PartialEqSpecImpl for Connection {
    open spec fn obeys_eq_spec() -> bool {
        true
    }

    open spec fn eq_spec(&self, other: &Connection) -> bool {
        self.same(*other)
    }
}

} // verus!
