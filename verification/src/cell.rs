//! Cell keys: the integer coordinates of a grid cell, and the single integer
//! code under which a cell is stored in a hash table.

use vstd::prelude::*;

verus! {

/// The smallest coordinate a cell key can hold.
pub const COORD_MIN: i32 = -0x8000_0000;

/// The largest coordinate a cell key can hold.
pub const COORD_MAX: i32 = 0x7fff_ffff;

/// Integer coordinates of one grid cell.
#[derive(Clone, Copy, Debug, PartialEq, Eq, Hash, Structural)]
pub struct CellKey {
    pub x: i32,
    pub y: i32,
    pub z: i32,
}

/// The code of the cell with coordinates `(x, y, z)`: each coordinate is
/// shifted into `0 .. 2^32` and the three are read as the digits of a number
/// in base `2^32`.
pub open spec fn code_of(x: int, y: int, z: int) -> int {
    ((x + 0x8000_0000) * 0x1_0000_0000 + (y + 0x8000_0000)) * 0x1_0000_0000 + (z + 0x8000_0000)
}

/// Distance between two coordinates along one axis.
pub open spec fn axis_gap(a: int, b: int) -> int {
    if a <= b {
        b - a
    } else {
        a - b
    }
}

impl CellKey {
    /// The table code of this cell, a number below `2^96`.
    pub open spec fn code(self) -> int {
        code_of(self.x as int, self.y as int, self.z as int)
    }

    /// Whether `other` lies within `reach` cells of `self` along every axis.
    pub open spec fn within_reach(self, other: CellKey, reach: int) -> bool {
        &&& axis_gap(self.x as int, other.x as int) <= reach
        &&& axis_gap(self.y as int, other.y as int) <= reach
        &&& axis_gap(self.z as int, other.z as int) <= reach
    }

    pub fn new(x: i32, y: i32, z: i32) -> (key: CellKey)
        ensures
            key == (CellKey { x, y, z }),
    {
        CellKey { x, y, z }
    }

    /// Computes the table code of this cell.
    pub fn pack(&self) -> (packed: u128)
        ensures
            packed == self.code(),
    {
        let x: u128 = (self.x as i64 + 0x8000_0000) as u128;
        let y: u128 = (self.y as i64 + 0x8000_0000) as u128;
        let z: u128 = (self.z as i64 + 0x8000_0000) as u128;
        (x * 0x1_0000_0000 + y) * 0x1_0000_0000 + z
    }

    /// Distinct cells have distinct codes.
    pub proof fn lemma_code_injective(a: CellKey, b: CellKey)
        ensures
            a.code() == b.code() <==> a == b,
    {
    }
}

} // verus!
