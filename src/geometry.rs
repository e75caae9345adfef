//! Integer lattice coordinates: Manhattan distance, neighbours, translation.

use vstd::prelude::*;

verus! {

/// A point of the block lattice.
#[derive(Debug, Clone, Copy, PartialEq, Eq, Structural, Hash)]
pub struct Position {
    pub x: i32,
    pub y: i32,
    pub z: i32,
}

/// Absolute value over the integers.
pub open spec fn abs_int(v: int) -> int {
    if v < 0 { -v } else { v }
}

/// Manhattan distance: the sum of the absolute differences along each axis.
pub open spec fn manhattan(a: Position, b: Position) -> int {
    abs_int(a.x - b.x) + abs_int(a.y - b.y) + abs_int(a.z - b.z)
}

/// The translation of `a` by `b`.
pub open spec fn translate(a: Position, b: Position) -> Position {
    Position { x: (a.x + b.x) as i32, y: (a.y + b.y) as i32, z: (a.z + b.z) as i32 }
}

/// The componentwise sum of two positions fits in `i32`.
pub open spec fn sum_fits(a: Position, b: Position) -> bool {
    i32::MIN <= a.x + b.x <= i32::MAX && i32::MIN <= a.y + b.y <= i32::MAX && i32::MIN
        <= a.z + b.z <= i32::MAX
}

/// The unit offset of each of the six axis directions, in the order
/// +x, -x, +y, -y, +z, -z.
pub open spec fn unit_offset(k: int) -> (int, int, int) {
    if k == 0 {
        (1, 0, 0)
    } else if k == 1 {
        (-1, 0, 0)
    } else if k == 2 {
        (0, 1, 0)
    } else if k == 3 {
        (0, -1, 0)
    } else if k == 4 {
        (0, 0, 1)
    } else {
        (0, 0, -1)
    }
}

/// Whether `n` is `p` moved by the `k`-th unit offset.
pub open spec fn is_offset(p: Position, k: int, n: Position) -> bool {
    n.x == p.x + unit_offset(k).0 && n.y == p.y + unit_offset(k).1 && n.z == p.z
        + unit_offset(k).2
}

/// No coordinate sits on the edge of the `i32` range, so every neighbour exists.
pub open spec fn is_interior(p: Position) -> bool {
    i32::MIN < p.x < i32::MAX && i32::MIN < p.y < i32::MAX && i32::MIN < p.z < i32::MAX
}

fn abs_diff(a: i32, b: i32) -> (r: u64)
    ensures
        r == abs_int(a - b),
{
    let d: i64 = a as i64 - b as i64;
    if d < 0 {
        (-d) as u64
    } else {
        d as u64
    }
}

impl Position {
    /// The three coordinates as an array `[x, y, z]`.
    pub fn to_slice(&self) -> (r: [i32; 3])
        ensures
            r@ == seq![self.x, self.y, self.z],
    {
        let r = [self.x, self.y, self.z];
        assert(r@ =~= seq![self.x, self.y, self.z]);
        r
    }

    /// Manhattan distance to `pos2`.
    pub fn distance(&self, pos2: Position) -> (r: u64)
        ensures
            r == manhattan(*self, pos2),
    {
        abs_diff(self.x, pos2.x) + abs_diff(self.y, pos2.y) + abs_diff(self.z, pos2.z)
    }

    /// Translation by `rhs`.
    pub fn add(self, rhs: Position) -> (r: Position)
        requires
            sum_fits(self, rhs),
        ensures
            r.x == self.x + rhs.x,
            r.y == self.y + rhs.y,
            r.z == self.z + rhs.z,
            r == translate(self, rhs),
    {
        Position { x: self.x + rhs.x, y: self.y + rhs.y, z: self.z + rhs.z }
    }

    /// The six axis-aligned neighbours, in the order +x, -x, +y, -y, +z, -z.
    pub fn neighbors(&self) -> (r: Vec<Position>)
        requires
            is_interior(*self),
        ensures
            r@.len() == 6,
            forall|k: int| 0 <= k < 6 ==> #[trigger] is_offset(*self, k, r@[k]),
    {
        let p = *self;
        let r = vec![
            Position { x: p.x + 1, y: p.y, z: p.z },
            Position { x: p.x - 1, y: p.y, z: p.z },
            Position { x: p.x, y: p.y + 1, z: p.z },
            Position { x: p.x, y: p.y - 1, z: p.z },
            Position { x: p.x, y: p.y, z: p.z + 1 },
            Position { x: p.x, y: p.y, z: p.z - 1 },
        ];
        assert forall|k: int| 0 <= k < 6 implies #[trigger] is_offset(*self, k, r@[k]) by {
            if k == 0 {} else if k == 1 {} else if k == 2 {} else if k == 3 {} else if k == 4 {} else {}
        };
        r
    }
}

} // verus!
