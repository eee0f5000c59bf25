//! World-block coordinates, reversible into chunk coordinates by the fixed
//! chunk-size multiplier.
use vstd::prelude::*;
use crate::chunk::{ChunkPos, CHUNK_SIZE};

verus! {

/// A signed position in whole blocks.
#[derive(Clone, Copy, Debug, PartialEq, Eq, Hash, Structural)]
pub struct Pos {
    pub x: i64,
    pub y: i64,
}

impl Pos {
    /// The chunk this block position falls in (Euclidean division by the
    /// chunk size), if it fits the chunk coordinate range.
    pub fn chunk(&self) -> (r: Option<ChunkPos>)
        ensures
            r matches Some(c) ==> c.x == self.x as int / (CHUNK_SIZE as int) && c.y == self.y
                as int / (CHUNK_SIZE as int),
            r is None <==> !(i32::MIN <= self.x as int / (CHUNK_SIZE as int) <= i32::MAX && i32::MIN
                <= self.y as int / (CHUNK_SIZE as int) <= i32::MAX),
    {
        let qx = match self.x.checked_div_euclid(CHUNK_SIZE as i64) {
            Some(q) => q,
            None => {
                proof {
                    assert(i64::MIN <= self.x as int / (CHUNK_SIZE as int) <= i64::MAX) by (nonlinear_arith);
                    assert(false);
                }
                0
            },
        };
        let qy = match self.y.checked_div_euclid(CHUNK_SIZE as i64) {
            Some(q) => q,
            None => {
                proof {
                    assert(i64::MIN <= self.y as int / (CHUNK_SIZE as int) <= i64::MAX) by (nonlinear_arith);
                    assert(false);
                }
                0
            },
        };
        if qx < i32::MIN as i64 || qx > i32::MAX as i64 || qy < i32::MIN as i64 || qy > i32::MAX
            as i64 {
            return None;
        }
        Some(ChunkPos { x: qx as i32, y: qy as i32 })
    }

    /// Where this block sits inside its chunk (Euclidean remainder by the
    /// chunk size).
    pub fn cell(&self) -> (r: (usize, usize))
        ensures
            r.0 as int == self.x as int % (CHUNK_SIZE as int),
            r.1 as int == self.y as int % (CHUNK_SIZE as int),
            r.0 < CHUNK_SIZE,
            r.1 < CHUNK_SIZE,
    {
        let rx = match self.x.checked_rem_euclid(CHUNK_SIZE as i64) {
            Some(q) => q,
            None => {
                proof {
                    assert(false);
                }
                0
            },
        };
        let ry = match self.y.checked_rem_euclid(CHUNK_SIZE as i64) {
            Some(q) => q,
            None => {
                proof {
                    assert(false);
                }
                0
            },
        };
        proof {
            assert(0 <= self.x as int % (CHUNK_SIZE as int) < CHUNK_SIZE as int);
            assert(0 <= self.y as int % (CHUNK_SIZE as int) < CHUNK_SIZE as int);
        }
        (rx as usize, ry as usize)
    }

    /// The saturating sum of this position and an offset: physics clamps at
    /// the representable edge of the world instead of wrapping.
    pub fn offset(&self, dx: i64, dy: i64) -> (r: Pos)
        ensures
            r.x == sat_add(self.x as int, dx as int),
            r.y == sat_add(self.y as int, dy as int),
    {
        Pos { x: sat_add_i64(self.x, dx), y: sat_add_i64(self.y, dy) }
    }
}

/// A sum clamped into the representable range.
pub open spec fn sat_add(a: int, b: int) -> int {
    if a + b > i64::MAX as int {
        i64::MAX as int
    } else if a + b < i64::MIN as int {
        i64::MIN as int
    } else {
        a + b
    }
}

/// Addition that clamps at the numeric range instead of wrapping.
pub fn sat_add_i64(a: i64, b: i64) -> (r: i64)
    ensures
        r as int == sat_add(a as int, b as int),
{
    if b >= 0 {
        if a > i64::MAX - b {
            i64::MAX
        } else {
            a + b
        }
    } else {
        if a < i64::MIN - b {
            i64::MIN
        } else {
            a + b
        }
    }
}

} // verus!
