//! Axial coordinates on the hexagonal grid, the six unit directions, and the
//! radial "downhill" geometry that the gravity rule is built on.
//!
//! A coordinate is an integer pair `(x, y)`; the implicit third cube
//! coordinate is `z = -x - y`.  Distance, neighborhood and direction
//! classification are the closed-form hex-grid formulas.

use vstd::prelude::*;

verus! {

/// Coordinates whose components stay within this bound keep every distance
/// computation inside `i32` (the distance formula sums three differences,
/// each at most twice a component).
pub const COORD_LIMIT: i32 = 268435455;

/// Largest supported board radius: every cell of such a board, and every
/// neighbor of such a cell, stays within `COORD_LIMIT`.
pub const MAX_RADIUS: usize = 268435451;

/// Absolute value, for spec arithmetic.
pub open spec fn iabs(v: int) -> int {
    if v < 0 { -v } else { v }
}

/// Minimum, for spec arithmetic.
pub open spec fn imin(a: int, b: int) -> int {
    if a < b { a } else { b }
}

/// One cell of the hexagonal grid, in axial coordinates.
#[derive(Clone, Copy, PartialEq, Eq, Structural, Hash, Debug)]
pub struct HexCoord {
    pub x: i32,
    pub y: i32,
}

/// The six unit directions, clockwise.  The names follow the cube-coordinate
/// convention: the first letter is the coordinate that grows, the second the
/// one that shrinks.
#[derive(Clone, Copy, PartialEq, Eq, Structural, Hash, Debug)]
pub enum HexDir {
    YZ,
    XZ,
    XY,
    ZY,
    ZX,
    YX,
}

impl HexDir {
    /// Index of this direction in clockwise order.
    pub open spec fn spec_index(self) -> int {
        match self {
            HexDir::YZ => 0,
            HexDir::XZ => 1,
            HexDir::XY => 2,
            HexDir::ZY => 3,
            HexDir::ZX => 4,
            HexDir::YX => 5,
        }
    }

    /// Change of the `x` component when moving one step this way.
    pub open spec fn spec_dx(self) -> int {
        match self {
            HexDir::YZ => 0,
            HexDir::XZ => 1,
            HexDir::XY => 1,
            HexDir::ZY => 0,
            HexDir::ZX => -1,
            HexDir::YX => -1,
        }
    }

    /// Change of the `y` component when moving one step this way.
    pub open spec fn spec_dy(self) -> int {
        match self {
            HexDir::YZ => 1,
            HexDir::XZ => 0,
            HexDir::XY => -1,
            HexDir::ZY => -1,
            HexDir::ZX => 0,
            HexDir::YX => 1,
        }
    }

    pub fn index(self) -> (i: u8)
        ensures
            i == self.spec_index(),
    {
        match self {
            HexDir::YZ => 0,
            HexDir::XZ => 1,
            HexDir::XY => 2,
            HexDir::ZY => 3,
            HexDir::ZX => 4,
            HexDir::YX => 5,
        }
    }

    pub fn from_index(i: u8) -> (d: HexDir)
        requires
            i < 6,
        ensures
            d == dir_of(i as int),
    {
        match i {
            0 => HexDir::YZ,
            1 => HexDir::XZ,
            2 => HexDir::XY,
            3 => HexDir::ZY,
            4 => HexDir::ZX,
            _ => HexDir::YX,
        }
    }

    /// Rotate clockwise by `steps` sixths of a turn (5 steps is one step
    /// counterclockwise).
    pub fn rotate(self, steps: u8) -> (d: HexDir)
        requires
            steps < 6,
        ensures
            d == self.spec_rotate(steps as int),
    {
        let i: u8 = (self.index() + steps) % 6;
        HexDir::from_index(i)
    }

    pub open spec fn spec_rotate(self, steps: int) -> HexDir {
        dir_of((self.spec_index() + steps) % 6)
    }
}

/// The direction with the given clockwise index.
pub open spec fn dir_of(i: int) -> HexDir {
    if i == 0 {
        HexDir::YZ
    } else if i == 1 {
        HexDir::XZ
    } else if i == 2 {
        HexDir::XY
    } else if i == 3 {
        HexDir::ZY
    } else if i == 4 {
        HexDir::ZX
    } else {
        HexDir::YX
    }
}

impl HexCoord {
    /// The implicit cube coordinate.
    pub open spec fn spec_z(self) -> int {
        -(self.x as int) - (self.y as int)
    }

    /// Both components within `COORD_LIMIT`, so exec arithmetic cannot
    /// overflow.
    pub open spec fn in_range(self) -> bool {
        iabs(self.x as int) <= COORD_LIMIT && iabs(self.y as int) <= COORD_LIMIT
    }

    /// Hex distance: half the L1 distance of the cube coordinates.
    pub open spec fn spec_dist(self, o: HexCoord) -> int {
        (iabs(self.x - o.x) + iabs(self.y - o.y) + iabs(self.spec_z() - o.spec_z())) / 2
    }

    /// Distance from the board center `(0, 0)`.
    pub open spec fn center_dist(self) -> int {
        (iabs(self.x as int) + iabs(self.y as int) + iabs(self.spec_z())) / 2
    }

    pub fn new(x: i32, y: i32) -> (c: HexCoord)
        ensures
            c.x == x,
            c.y == y,
    {
        HexCoord { x, y }
    }

    pub fn distance(&self, o: &HexCoord) -> (d: i32)
        requires
            self.in_range(),
            o.in_range(),
        ensures
            d == self.spec_dist(*o),
    {
        let ax = self.x as i64;
        let ay = self.y as i64;
        let bx = o.x as i64;
        let by = o.y as i64;
        let dx = if ax >= bx { ax - bx } else { bx - ax };
        let dy = if ay >= by { ay - by } else { by - ay };
        let az = -ax - ay;
        let bz = -bx - by;
        let dz = if az >= bz { az - bz } else { bz - az };
        ((dx + dy + dz) / 2) as i32
    }

    /// The neighbor one step in direction `d`.
    pub fn step(&self, d: HexDir) -> (t: HexCoord)
        requires
            self.in_range(),
        ensures
            t == self.spec_step(d),
    {
        match d {
            HexDir::YZ => HexCoord { x: self.x, y: self.y + 1 },
            HexDir::XZ => HexCoord { x: self.x + 1, y: self.y },
            HexDir::XY => HexCoord { x: self.x + 1, y: self.y - 1 },
            HexDir::ZY => HexCoord { x: self.x, y: self.y - 1 },
            HexDir::ZX => HexCoord { x: self.x - 1, y: self.y },
            HexDir::YX => HexCoord { x: self.x - 1, y: self.y + 1 },
        }
    }

    pub open spec fn spec_step(self, d: HexDir) -> HexCoord {
        HexCoord { x: (self.x + d.spec_dx()) as i32, y: (self.y + d.spec_dy()) as i32 }
    }

    /// Two cells are adjacent when their distance is exactly one.
    pub open spec fn spec_adjacent(self, o: HexCoord) -> bool {
        self.spec_dist(o) == 1
    }

    /// Direction from the board center to this coordinate, rounding a
    /// diagonal clockwise; `None` exactly at the center.
    pub open spec fn spec_dir_from_center(self) -> Option<HexDir> {
        let x = self.x as int;
        let y = self.y as int;
        let z = self.spec_z();
        let xy = if z < 0 { x >= y } else { x > y };
        let yz = if x < 0 { y >= z } else { y > z };
        let zx = if y < 0 { z >= x } else { z > x };
        if xy && yz && !zx {
            Some(HexDir::XZ)
        } else if xy && !yz && !zx {
            Some(HexDir::XY)
        } else if xy && !yz && zx {
            Some(HexDir::ZY)
        } else if !xy && !yz && zx {
            Some(HexDir::ZX)
        } else if !xy && yz && zx {
            Some(HexDir::YX)
        } else if !xy && yz && !zx {
            Some(HexDir::YZ)
        } else {
            None
        }
    }

    pub fn dir_from_center(&self) -> (r: Option<HexDir>)
        requires
            self.in_range(),
        ensures
            r == self.spec_dir_from_center(),
            r.is_none() <==> self.x == 0 && self.y == 0,
    {
        proof {
            lemma_dir_from_center_cases(*self);
        }
        let x = self.x as i64;
        let y = self.y as i64;
        let z = -x - y;
        let xy = if z < 0 { x >= y } else { x > y };
        let yz = if x < 0 { y >= z } else { y > z };
        let zx = if y < 0 { z >= x } else { z > x };
        if xy && yz && !zx {
            Some(HexDir::XZ)
        } else if xy && !yz && !zx {
            Some(HexDir::XY)
        } else if xy && !yz && zx {
            Some(HexDir::ZY)
        } else if !xy && !yz && zx {
            Some(HexDir::ZX)
        } else if !xy && yz && zx {
            Some(HexDir::YX)
        } else if !xy && yz && !zx {
            Some(HexDir::YZ)
        } else {
            None
        }
    }
}

/// The three boolean sector tests can neither all hold at once, nor all fail
/// unless the coordinate is the center.
proof fn lemma_dir_from_center_cases(c: HexCoord)
    ensures
        c.spec_dir_from_center().is_none() <==> (c.x == 0 && c.y == 0),
        !(c.x == 0 && c.y == 0) ==> c.spec_dir_from_center() == Some(
            c.spec_dir_from_center().unwrap(),
        ),
{
}

impl HexCoord {
    /// The smallest absolute cube coordinate: how far the cell sits from the
    /// nearest of the six axes of its ring.
    pub open spec fn axis_offset(self) -> int {
        imin(iabs(self.x as int), imin(iabs(self.y as int), iabs(self.spec_z())))
    }

    /// The "down" direction of the radial gravity: away from the center,
    /// rounding clockwise, with a fixed fallback at the center itself.
    pub open spec fn spec_gravity_dir(self) -> HexDir {
        match self.spec_dir_from_center() {
            Some(d) => d,
            None => HexDir::YX,
        }
    }

    pub fn gravity_dir(&self) -> (d: HexDir)
        requires
            self.in_range(),
        ensures
            d == self.spec_gravity_dir(),
    {
        match self.dir_from_center() {
            Some(d) => d,
            None => HexDir::YX,
        }
    }
}

/// Every step a falling marble may take leads strictly away from the center,
/// or around its ring strictly toward the nearest axis.  This is what makes
/// the gravity iteration terminate.
///
/// The candidates are one step from `c` in the gravity direction rotated by
/// a forward, right, or left turn (`steps` 0, 1, or 5).
pub proof fn lemma_fall_progress(c: HexCoord, t: HexCoord, steps: int)
    requires
        steps == 0 || steps == 1 || steps == 5,
        t == c.spec_step(c.spec_gravity_dir().spec_rotate(steps)),
        c.in_range(),
        t.in_range(),
    ensures
        t.center_dist() >= c.center_dist(),
        t.center_dist() <= c.center_dist() + 1,
        t.center_dist() == c.center_dist() ==> t.axis_offset() < c.axis_offset(),
{
    lemma_dir_from_center_cases(c);
}

/// The offset to the nearest axis never exceeds the distance from the
/// center.
pub proof fn lemma_axis_offset_le_center_dist(c: HexCoord)
    ensures
        0 <= c.axis_offset() <= c.center_dist(),
{
}

/// On a board of any supported radius, cells near the board stay within the
/// coordinate range (the hex distance from the center bounds each component).
pub proof fn lemma_bounded_coord(c: HexCoord, r: int)
    requires
        c.center_dist() <= r,
        0 <= r,
        r <= MAX_RADIUS as int + 2,
    ensures
        c.in_range(),
{
}

/// Two cells are adjacent exactly when one is a single step from the other.
pub proof fn lemma_adjacent_iff_step(a: HexCoord, b: HexCoord)
    requires
        a.in_range(),
    ensures
        a.spec_adjacent(b) <==> exists|k: int| 0 <= k < 6 && b == a.spec_step(#[trigger] dir_of(k)),
{
    if a.spec_adjacent(b) {
        let dx = b.x - a.x;
        let dy = b.y - a.y;
        if dx == 0 && dy == 1 {
            assert(b == a.spec_step(dir_of(0)));
        } else if dx == 1 && dy == 0 {
            assert(b == a.spec_step(dir_of(1)));
        } else if dx == 1 && dy == -1 {
            assert(b == a.spec_step(dir_of(2)));
        } else if dx == 0 && dy == -1 {
            assert(b == a.spec_step(dir_of(3)));
        } else if dx == -1 && dy == 0 {
            assert(b == a.spec_step(dir_of(4)));
        } else {
            assert(dx == -1 && dy == 1);
            assert(b == a.spec_step(dir_of(5)));
        }
    }
}

/// Adjacency is symmetric.
pub proof fn lemma_adjacent_symm(a: HexCoord, b: HexCoord)
    ensures
        a.spec_adjacent(b) == b.spec_adjacent(a),
{
}

/// A single falling marble's termination measure on a board of radius `r`:
/// room left toward the rim, weighted so that one outward step outweighs any
/// change of the axis offset, plus the axis offset itself.
pub open spec fn fall_measure(c: HexCoord, r: int) -> int {
    (r - c.center_dist()) * (r + 2) + c.axis_offset()
}

/// Each fall candidate strictly shrinks the measure, and the measure stays
/// nonnegative for in-bounds cells.
pub proof fn lemma_fall_measure_decreases(c: HexCoord, t: HexCoord, steps: int, r: int)
    requires
        steps == 0 || steps == 1 || steps == 5,
        t == c.spec_step(c.spec_gravity_dir().spec_rotate(steps)),
        c.in_range(),
        t.in_range(),
        c.center_dist() <= r,
        t.center_dist() <= r,
    ensures
        0 <= fall_measure(t, r),
        fall_measure(t, r) < fall_measure(c, r),
        fall_measure(c, r) <= r * (r + 2) + r,
{
    lemma_fall_progress(c, t, steps);
    lemma_axis_offset_le_center_dist(c);
    lemma_axis_offset_le_center_dist(t);
    let dc = c.center_dist();
    let dt = t.center_dist();
    assert(0 <= dc && 0 <= dt);
    assert((r - dt) * (r + 2) >= 0) by (nonlinear_arith)
        requires
            dt <= r,
            0 <= dt,
    ;
    if dt == dc + 1 {
        assert((r - dc) * (r + 2) - (r - dc - 1) * (r + 2) == r + 2) by (nonlinear_arith);
    }
    assert((r - dc) * (r + 2) <= r * (r + 2)) by (nonlinear_arith)
        requires
            0 <= dc,
            dc <= r,
    ;
}

} // verus!
