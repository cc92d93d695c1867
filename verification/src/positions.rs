//! Discrete grid addresses and continuous world positions.
//!
//! Every cell of the side-view world is identified by a [`SideIPos`], a pair
//! of signed grid coordinates. Agents move through continuous space, modelled
//! by [`SidePosition`] in fixed-point world units; one grid cell spans
//! [`SIDE_CELL_SIZE`] world units, and every continuous position belongs to
//! exactly one cell by floor division.

use vstd::prelude::*;
use vstd::arithmetic::div_mod::lemma_fundamental_div_mod_converse;
use vstd::arithmetic::power2::{pow2, lemma_pow2_adds, lemma2_to64};

verus! {

/// Width and height of one grid cell, in world units.
pub const SIDE_CELL_SIZE: u8 = 32;

/// Grid coordinates are kept within this bound so that conversions to world
/// units and distance computations never overflow.
pub const COORD_LIMIT: i32 = 0x4000_0000;

/// World coordinates of positions handled by the movement engine stay within
/// this bound (it is `COORD_LIMIT` scaled by the cell size).
pub const WORLD_LIMIT: i64 = 0x8_0000_0000;

/// The discrete address of one cell of the side-view world.
#[derive(Clone, Copy, PartialEq, Eq, Hash, Debug, Structural)]
pub struct SideIPos {
    pub x: i32,
    pub y: i32,
}

/// A continuous position in the side-view world, in fixed-point world units.
#[derive(Clone, Copy, PartialEq, Eq, Hash, Debug, Structural)]
pub struct SidePosition {
    pub x: i64,
    pub y: i64,
}

impl SideIPos {
    /// True when both coordinates are within `COORD_LIMIT`.
    pub open spec fn in_bounds(self) -> bool {
        -(COORD_LIMIT as int) <= self.x <= COORD_LIMIT as int
            && -(COORD_LIMIT as int) <= self.y <= COORD_LIMIT as int
    }

    pub fn new(x: i32, y: i32) -> (r: Self)
        ensures
            r.x == x,
            r.y == y,
    {
        SideIPos { x, y }
    }

    /// The four axis-adjacent addresses (no diagonals), in the order
    /// right, left, above, below.
    pub fn sides(&self) -> (r: [SideIPos; 4])
        requires
            self.in_bounds(),
        ensures
            r[0].x == self.x + 1 && r[0].y == self.y,
            r[1].x == self.x - 1 && r[1].y == self.y,
            r[2].x == self.x && r[2].y == self.y + 1,
            r[3].x == self.x && r[3].y == self.y - 1,
            forall|i: int| 0 <= i < 4 ==> adjacent(*self, #[trigger] r[i]),
    {
        [
            SideIPos { x: self.x + 1, y: self.y },
            SideIPos { x: self.x - 1, y: self.y },
            SideIPos { x: self.x, y: self.y + 1 },
            SideIPos { x: self.x, y: self.y - 1 },
        ]
    }

    /// The continuous coordinate of this cell's canonical corner.
    pub open spec fn spec_to_world_point(self) -> SidePosition {
        SidePosition { x: (self.x * SIDE_CELL_SIZE as int) as i64, y: (self.y * SIDE_CELL_SIZE as int) as i64 }
    }

    /// Continuous world coordinate of the cell's canonical corner.
    pub fn to_world_point(&self) -> (r: SidePosition)
        ensures
            r == self.spec_to_world_point(),
            r.x == self.x * SIDE_CELL_SIZE as int,
            r.y == self.y * SIDE_CELL_SIZE as int,
            self.in_bounds() ==> r.in_bounds(),
    {
        SidePosition { x: self.x as i64 * SIDE_CELL_SIZE as i64, y: self.y as i64 * SIDE_CELL_SIZE as i64 }
    }
}

/// True when two addresses are 4-adjacent (they share an edge of the grid).
pub open spec fn adjacent(a: SideIPos, b: SideIPos) -> bool {
    ||| (b.x == a.x + 1 && b.y == a.y)
    ||| (b.x == a.x - 1 && b.y == a.y)
    ||| (b.x == a.x && b.y == a.y + 1)
    ||| (b.x == a.x && b.y == a.y - 1)
}

/// The packed key of an address: both coordinates, shifted to be
/// non-negative, in the high and low halves of one `u64`.
pub open spec fn spec_addr_key(p: SideIPos) -> u64 {
    ((p.x + 0x8000_0000) * 0x1_0000_0000 + (p.y + 0x8000_0000)) as u64
}

/// Packs an address into the `u64` key used by the hash-map indices.
pub fn addr_key(p: &SideIPos) -> (k: u64)
    ensures
        k == spec_addr_key(*p),
{
    (p.x as i64 + 0x8000_0000) as u64 * 0x1_0000_0000 + (p.y as i64 + 0x8000_0000) as u64
}

/// Distinct addresses always pack to distinct keys, so a key identifies one
/// address.
pub proof fn lemma_addr_key_injective(a: SideIPos, b: SideIPos)
    requires
        spec_addr_key(a) == spec_addr_key(b),
    ensures
        a == b,
{
    let ax = a.x + 0x8000_0000int;
    let ay = a.y + 0x8000_0000int;
    let bx = b.x + 0x8000_0000int;
    let by = b.y + 0x8000_0000int;
    assert(ax * 0x1_0000_0000 + ay == bx * 0x1_0000_0000 + by);
    assert(ax == bx && ay == by) by (nonlinear_arith)
        requires
            ax * 0x1_0000_0000 + ay == bx * 0x1_0000_0000 + by,
            0 <= ay < 0x1_0000_0000,
            0 <= by < 0x1_0000_0000,
    {
    }
}


/// Bit-interleaving of two numbers, lowest bits first: bit `i` of `x` lands
/// on bit `2 i` of the result and bit `i` of `y` on bit `2 i + 1`. This is
/// the Z-order (Morton) value that sorts spatially close addresses close
/// together.
pub open spec fn spec_interleave(x: nat, y: nat) -> nat
    decreases x + y,
{
    if x == 0 && y == 0 {
        0nat
    } else {
        (x % 2 + 2 * (y % 2) + 4 * spec_interleave(x / 2, y / 2)) as nat
    }
}

/// Interleaving numbers below `pow2(b)` yields a number below `pow2(2 b)`.
proof fn lemma_interleave_bound(x: nat, y: nat, b: nat)
    requires
        x < pow2(b),
        y < pow2(b),
    ensures
        spec_interleave(x, y) < pow2(2 * b),
    decreases b,
{
    vstd::arithmetic::power2::lemma_pow2_pos(2 * b);
    if x == 0 && y == 0 {
    } else {
        vstd::arithmetic::power2::lemma_pow2_pos(b);
        assert(b > 0) by {
            if b == 0 {
                assert(pow2(0) == 1) by {
                    lemma2_to64();
                }
            }
        }
        lemma_pow2_adds(1, (b - 1) as nat);
        assert(pow2(1) == 2) by {
            lemma2_to64();
        }
        assert(x < 2 * pow2((b - 1) as nat));
        assert(x / 2 < pow2((b - 1) as nat));
        assert(y / 2 < pow2((b - 1) as nat));
        lemma_interleave_bound(x / 2, y / 2, (b - 1) as nat);
        lemma_pow2_adds(2, (2 * b - 2) as nat);
        assert(pow2(2) == 4) by {
            lemma2_to64();
        }
        assert(spec_interleave(x / 2, y / 2) <= pow2((2 * b - 2) as nat) - 1);
        assert(spec_interleave(x, y) <= 3 + 4 * (pow2((2 * b - 2) as nat) - 1));
        assert(4 * pow2((2 * b - 2) as nat) == pow2(2 * b));
    }
}

/// Interleaves the bits of `x` and `y`, lowest bits first.
fn interleave_bits(x: u32, y: u32) -> (r: u64)
    ensures
        r == spec_interleave(x as nat, y as nat),
    decreases x + y,
{
    if x == 0 && y == 0 {
        0
    } else {
        proof {
            lemma2_to64();
            vstd::arithmetic::power2::lemma2_to64_rest();
            lemma_interleave_bound((x / 2) as nat, (y / 2) as nat, 31);
        }
        let rec = interleave_bits(x / 2, y / 2);
        (x % 2) as u64 + 2 * ((y % 2) as u64) + 4 * rec
    }
}

/// The Z-order (Morton) value of an address: the two coordinates' low bits
/// interleaved, taken over their two's-complement form. Sorting addresses by
/// this value is the total order used for deterministic iteration.
pub fn morton_encode(x: i32, y: i32) -> (r: i64)
    ensures
        r as u64 == spec_interleave((x as u32) as nat, (y as u32) as nat),
{
    let v = interleave_bits(x as u32, y as u32);
    proof {
        assert((v as i64) as u64 == v) by (bit_vector);
    }
    v as i64
}

/// Floor division of a world coordinate by the cell size.
fn floor_div_cell(v: i64) -> (r: i64)
    requires
        -WORLD_LIMIT <= v <= WORLD_LIMIT,
    ensures
        r == v as int / SIDE_CELL_SIZE as int,
{
    if v >= 0 {
        v / 32
    } else {
        let p = -v;
        let q = (p + 31) / 32;
        proof {
            let q0 = (v as int) / 32;
            let r0 = (v as int) % 32;
            assert(v == 32 * q0 + r0) by {
                vstd::arithmetic::div_mod::lemma_fundamental_div_mod(v as int, 32);
            }
            // p + 31 == 32 * (-q0) + (31 - r0) with 0 <= 31 - r0 < 32,
            // so (p + 31) / 32 == -q0.
            lemma_fundamental_div_mod_converse(p as int + 31, 32, -q0, 31 - r0);
        }
        -q
    }
}

impl SidePosition {
    /// True when both world coordinates are within `WORLD_LIMIT`.
    pub open spec fn in_bounds(self) -> bool {
        -(WORLD_LIMIT as int) <= self.x <= WORLD_LIMIT as int
            && -(WORLD_LIMIT as int) <= self.y <= WORLD_LIMIT as int
    }

    pub fn new(x: i64, y: i64) -> (r: Self)
        ensures
            r.x == x,
            r.y == y,
    {
        SidePosition { x, y }
    }

    /// The address of the one cell this continuous position belongs to.
    pub open spec fn spec_to_cell(self) -> SideIPos {
        SideIPos {
            x: (self.x as int / SIDE_CELL_SIZE as int) as i32,
            y: (self.y as int / SIDE_CELL_SIZE as int) as i32,
        }
    }

    /// The cell containing this position: a floor division by the cell size,
    /// so every continuous position belongs to exactly one address.
    pub fn to_cell(&self) -> (r: SideIPos)
        requires
            self.in_bounds(),
        ensures
            r == self.spec_to_cell(),
            r.x == self.x as int / SIDE_CELL_SIZE as int,
            r.y == self.y as int / SIDE_CELL_SIZE as int,
            r.in_bounds(),
    {
        let cx = floor_div_cell(self.x);
        let cy = floor_div_cell(self.y);
        proof {
            vstd::arithmetic::div_mod::lemma_div_is_ordered(-(WORLD_LIMIT as int), self.x as int, 32);
            vstd::arithmetic::div_mod::lemma_div_is_ordered(self.x as int, WORLD_LIMIT as int, 32);
            vstd::arithmetic::div_mod::lemma_div_is_ordered(-(WORLD_LIMIT as int), self.y as int, 32);
            vstd::arithmetic::div_mod::lemma_div_is_ordered(self.y as int, WORLD_LIMIT as int, 32);
        }
        SideIPos { x: cx as i32, y: cy as i32 }
    }
}

} // verus!
