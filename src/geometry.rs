//! Integer voxel coordinates, power-of-two axis-aligned cubes, and exact
//! distances between voxel centers and cubes. A distance is kept as four
//! times its square, which is an integer for integer cubes.

use vstd::prelude::*;
use vstd::arithmetic::div_mod::{lemma_fundamental_div_mod, lemma_fundamental_div_mod_converse, lemma_mod_multiples_basic};

verus! {

/// A voxel coordinate: the unit cube `[x, x+1) × [y, y+1) × [z, z+1)`.
#[derive(Clone, Copy, Debug, PartialEq, Eq, Structural)]
pub struct Point {
    pub x: i64,
    pub y: i64,
    pub z: i64,
}

impl Point {
    pub fn new(x: i64, y: i64, z: i64) -> (r: Point)
        ensures
            r.x == x,
            r.y == y,
            r.z == z,
    {
        Point { x, y, z }
    }
}

/// `n` is a power of two (1, 2, 4, ...).
pub open spec fn is_pow2(n: int) -> bool
    decreases n,
{
    if n <= 1 {
        n == 1
    } else {
        n % 2 == 0 && is_pow2(n / 2)
    }
}

/// An axis-aligned cube with integer origin `pos` and integer edge `size`.
#[derive(Clone, Copy, Debug, PartialEq, Eq, Structural)]
pub struct Cube {
    pub pos: Point,
    pub size: i64,
}

/// Offset of octant `k` of a cube with half edge `h` along the axis whose
/// bit in `k` is `bit` (4 for X, 2 for Y, 1 for Z).
pub open spec fn octant_offset(k: int, bit: int, h: int) -> int {
    if (k / bit) % 2 == 1 {
        h
    } else {
        0
    }
}

impl Cube {
    /// Edge at least one, a power of two, and every coordinate of the far
    /// corner representable.
    pub open spec fn valid(self) -> bool {
        &&& self.size >= 1
        &&& is_pow2(self.size as int)
        &&& self.pos.x + self.size <= i64::MAX
        &&& self.pos.y + self.size <= i64::MAX
        &&& self.pos.z + self.size <= i64::MAX
    }

    /// Closed-open containment on every axis.
    pub open spec fn covers(self, p: Point) -> bool {
        &&& self.pos.x <= p.x < self.pos.x + self.size
        &&& self.pos.y <= p.y < self.pos.y + self.size
        &&& self.pos.z <= p.z < self.pos.z + self.size
    }

    /// `self` lies inside `outer`.
    pub open spec fn within(self, outer: Cube) -> bool {
        &&& outer.pos.x <= self.pos.x
        &&& self.pos.x + self.size <= outer.pos.x + outer.size
        &&& outer.pos.y <= self.pos.y
        &&& self.pos.y + self.size <= outer.pos.y + outer.size
        &&& outer.pos.z <= self.pos.z
        &&& self.pos.z + self.size <= outer.pos.z + outer.size
    }

    /// Index of the octant holding `p`: bit 2 for the upper X half, bit 1 for
    /// the upper Y half, bit 0 for the upper Z half; a coordinate on the middle
    /// plane belongs to the upper half.
    pub open spec fn octant_of(self, p: Point) -> int {
        let h = self.size / 2;
        (if p.x >= self.pos.x + h { 4int } else { 0int })
            + (if p.y >= self.pos.y + h { 2int } else { 0int })
            + (if p.z >= self.pos.z + h { 1int } else { 0int })
    }

    /// Octant `k` of the cube: the half-size cube in the corner that the bits
    /// of `k` select.
    pub open spec fn child(self, k: int) -> Cube {
        let h = self.size / 2;
        Cube {
            pos: Point {
                x: (self.pos.x + octant_offset(k, 4, h)) as i64,
                y: (self.pos.y + octant_offset(k, 2, h)) as i64,
                z: (self.pos.z + octant_offset(k, 1, h)) as i64,
            },
            size: h as i64,
        }
    }

    pub fn new(x: i64, y: i64, z: i64, size: i64) -> (r: Cube)
        ensures
            r.pos == (Point { x, y, z }),
            r.size == size,
    {
        Cube { pos: Point { x, y, z }, size }
    }

    /// Integer containment, closed-open on every axis.
    pub fn contains(&self, p: &Point) -> (r: bool)
        requires
            self.valid(),
        ensures
            r == self.covers(*p),
    {
        !(self.pos.x > p.x || self.pos.x + self.size <= p.x || self.pos.y > p.y || self.pos.y
            + self.size <= p.y || self.pos.z > p.z || self.pos.z + self.size <= p.z)
    }

    /// The octant of the cube that holds `p` (see `octant_of`).
    pub fn octant(&self, p: &Point) -> (r: usize)
        requires
            self.valid(),
        ensures
            r == self.octant_of(*p),
            r < 8,
    {
        let h = self.size / 2;
        let mut idx: usize = 0;
        if p.x >= self.pos.x + h {
            idx = idx + 4;
        }
        if p.y >= self.pos.y + h {
            idx = idx + 2;
        }
        if p.z >= self.pos.z + h {
            idx = idx + 1;
        }
        idx
    }

    /// Octant `k` of the cube (see `child`).
    pub fn sub_cube(&self, k: usize) -> (r: Cube)
        requires
            self.valid(),
            self.size > 1,
            k < 8,
        ensures
            r == self.child(k as int),
            r.valid(),
            r.within(*self),
            r.size < self.size,
    {
        proof {
            lemma_child(*self, k as int);
        }
        let h = self.size / 2;
        let x = if (k / 4) % 2 == 1 { self.pos.x + h } else { self.pos.x };
        let y = if (k / 2) % 2 == 1 { self.pos.y + h } else { self.pos.y };
        let z = if k % 2 == 1 { self.pos.z + h } else { self.pos.z };
        Cube { pos: Point { x, y, z }, size: h }
    }
}

/// Each octant of a valid cube of edge above one is a valid cube of half the
/// edge that lies inside it.
pub proof fn lemma_child(c: Cube, k: int)
    requires
        c.valid(),
        c.size > 1,
        0 <= k < 8,
    ensures
        c.child(k).valid(),
        c.child(k).within(c),
        c.child(k).size == c.size / 2,
        c.child(k).size < c.size,
{
    assert(is_pow2(c.size as int));
    assert(c.size % 2 == 0 && is_pow2(c.size / 2));
}

/// The eight octants tile the cube: a point of the cube lies in exactly one
/// octant, the one that `octant_of` names, and a point outside the cube lies
/// in none.
pub proof fn lemma_octants_tile(c: Cube, p: Point)
    requires
        c.valid(),
        c.size > 1,
    ensures
        c.covers(p) ==> 0 <= c.octant_of(p) < 8 && c.child(c.octant_of(p)).covers(p),
        forall|k: int| 0 <= k < 8 && #[trigger] c.child(k).covers(p) ==> c.covers(p) && k == c.octant_of(p),
{
    assert forall|k: int| 0 <= k < 8 implies c.child(k).within(c) by {
        lemma_child(c, k);
    }
}

/// A unit cube holds exactly its origin.
pub proof fn lemma_unit_cube(c: Cube, p: Point)
    requires
        c.size == 1,
    ensures
        c.covers(p) <==> p == c.pos,
{
}

/// Twice the distance, along one axis, from the center of voxel `l` to the
/// farther of the two planes `lo` and `lo + size`.
pub open spec fn far_axis(lo: int, size: int, l: int) -> int {
    let a = 2 * l + 1 - 2 * lo;
    let b = 2 * (lo + size) - 2 * l - 1;
    let aa = if a >= 0 { a } else { -a };
    let bb = if b >= 0 { b } else { -b };
    if aa >= bb { aa } else { bb }
}

/// Twice the distance, along one axis, from the center of voxel `l` to the
/// slab `[lo, lo + size)`; zero inside it.
pub open spec fn near_axis(lo: int, size: int, l: int) -> int {
    let below = 2 * lo - (2 * l + 1);
    let above = (2 * l + 1) - 2 * (lo + size);
    if below > 0 {
        below
    } else if above > 0 {
        above
    } else {
        0
    }
}

/// Four times the squared distance from the center of voxel `l` to the
/// farthest corner of `c`.
pub open spec fn far4(c: Cube, l: Point) -> int {
    let x = far_axis(c.pos.x as int, c.size as int, l.x as int);
    let y = far_axis(c.pos.y as int, c.size as int, l.y as int);
    let z = far_axis(c.pos.z as int, c.size as int, l.z as int);
    x * x + y * y + z * z
}

/// Four times the squared distance from the center of voxel `l` to the
/// nearest point of `c`.
pub open spec fn near4(c: Cube, l: Point) -> int {
    let x = near_axis(c.pos.x as int, c.size as int, l.x as int);
    let y = near_axis(c.pos.y as int, c.size as int, l.y as int);
    let z = near_axis(c.pos.z as int, c.size as int, l.z as int);
    x * x + y * y + z * z
}

/// `far_axis` computed exactly.
fn far_axis_exec(lo: i64, size: i64, l: i64) -> (r: i128)
    ensures
        r == far_axis(lo as int, size as int, l as int),
        0 <= r,
{
    let a: i128 = 2 * (l as i128) + 1 - 2 * (lo as i128);
    let b: i128 = 2 * ((lo as i128) + (size as i128)) - 2 * (l as i128) - 1;
    let aa: i128 = if a >= 0 { a } else { -a };
    let bb: i128 = if b >= 0 { b } else { -b };
    if aa >= bb { aa } else { bb }
}

/// `near_axis` computed exactly.
fn near_axis_exec(lo: i64, size: i64, l: i64) -> (r: i128)
    ensures
        r == near_axis(lo as int, size as int, l as int),
        0 <= r,
{
    let below: i128 = 2 * (lo as i128) - (2 * (l as i128) + 1);
    let above: i128 = (2 * (l as i128) + 1) - 2 * ((lo as i128) + (size as i128));
    if below > 0 {
        below
    } else if above > 0 {
        above
    } else {
        0
    }
}

/// Whether `x² + y² + z² < t`, without overflow.
fn squares_below(x: i128, y: i128, z: i128, t: i128) -> (r: bool)
    requires
        0 <= x <= 0x10_0000_0000_0000_0000,
        0 <= y <= 0x10_0000_0000_0000_0000,
        0 <= z <= 0x10_0000_0000_0000_0000,
        0 <= t <= 0x1_0000_0000_0000_0000,
    ensures
        r == (x * x + y * y + z * z < t),
{
    let lim: i128 = 0x1_0000_0000;
    if x >= lim || y >= lim || z >= lim {
        proof {
            assert(x * x >= 0 && y * y >= 0 && z * z >= 0) by (nonlinear_arith);
            if x >= lim {
                assert(x * x >= lim * lim) by (nonlinear_arith)
                    requires x >= lim, lim >= 0;
            } else if y >= lim {
                assert(y * y >= lim * lim) by (nonlinear_arith)
                    requires y >= lim, lim >= 0;
            } else {
                assert(z * z >= lim * lim) by (nonlinear_arith)
                    requires z >= lim, lim >= 0;
            }
        }
        false
    } else {
        proof {
            assert(x * x < lim * lim) by (nonlinear_arith)
                requires 0 <= x < lim;
            assert(y * y < lim * lim) by (nonlinear_arith)
                requires 0 <= y < lim;
            assert(z * z < lim * lim) by (nonlinear_arith)
                requires 0 <= z < lim;
            assert(x * x >= 0 && y * y >= 0 && z * z >= 0) by (nonlinear_arith);
        }
        x * x + y * y + z * z < t
    }
}


impl Cube {
    /// Whether `far4(self, l) < t`.
    pub fn far4_below(&self, l: &Point, t: u64) -> (r: bool)
        ensures
            r == (far4(*self, *l) < t),
    {
        let x = far_axis_exec(self.pos.x, self.size, l.x);
        let y = far_axis_exec(self.pos.y, self.size, l.y);
        let z = far_axis_exec(self.pos.z, self.size, l.z);
        squares_below(x, y, z, t as i128)
    }

    /// Whether `near4(self, l) < t`.
    pub fn near4_below(&self, l: &Point, t: u64) -> (r: bool)
        ensures
            r == (near4(*self, *l) < t),
    {
        let x = near_axis_exec(self.pos.x, self.size, l.x);
        let y = near_axis_exec(self.pos.y, self.size, l.y);
        let z = near_axis_exec(self.pos.z, self.size, l.z);
        squares_below(x, y, z, t as i128)
    }

    /// Whether `near4(self, l) <= t`.
    pub fn near4_within(&self, l: &Point, t: u64) -> (r: bool)
        ensures
            r == (near4(*self, *l) <= t),
    {
        let x = near_axis_exec(self.pos.x, self.size, l.x);
        let y = near_axis_exec(self.pos.y, self.size, l.y);
        let z = near_axis_exec(self.pos.z, self.size, l.z);
        squares_below(x, y, z, t as i128 + 1)
    }
}

proof fn lemma_square_le(a: int, b: int)
    requires
        0 <= a <= b,
    ensures
        a * a <= b * b,
{
    assert(a * a <= b * b) by (nonlinear_arith)
        requires 0 <= a <= b;
}

/// The nearest point of a cube holding `q` is no farther from a light than
/// the farthest corner of the voxel `q`.
pub proof fn lemma_near_below_far(c: Cube, l: Point, q: Point)
    requires
        c.covers(q),
    ensures
        near4(c, l) <= far4(Cube { pos: q, size: 1 }, l),
{
    let u = Cube { pos: q, size: 1 };
    lemma_square_le(
        near_axis(c.pos.x as int, c.size as int, l.x as int),
        far_axis(q.x as int, 1, l.x as int),
    );
    lemma_square_le(
        near_axis(c.pos.y as int, c.size as int, l.y as int),
        far_axis(q.y as int, 1, l.y as int),
    );
    lemma_square_le(
        near_axis(c.pos.z as int, c.size as int, l.z as int),
        far_axis(q.z as int, 1, l.z as int),
    );
}

/// A cube inside `c` is no nearer to a light than `c` is.
pub proof fn lemma_near_within(x: Cube, c: Cube, l: Point)
    requires
        x.within(c),
        x.size >= 1,
    ensures
        near4(c, l) <= near4(x, l),
{
    lemma_square_le(
        near_axis(c.pos.x as int, c.size as int, l.x as int),
        near_axis(x.pos.x as int, x.size as int, l.x as int),
    );
    lemma_square_le(
        near_axis(c.pos.y as int, c.size as int, l.y as int),
        near_axis(x.pos.y as int, x.size as int, l.y as int),
    );
    lemma_square_le(
        near_axis(c.pos.z as int, c.size as int, l.z as int),
        near_axis(x.pos.z as int, x.size as int, l.z as int),
    );
}


/// `c` is a cube of the octree subdivision of `root`: a valid cube inside it
/// whose origin is offset from the root's by a multiple of its edge.
pub open spec fn is_cell(root: Cube, c: Cube) -> bool {
    &&& c.valid()
    &&& c.within(root)
    &&& (c.pos.x - root.pos.x) % (c.size as int) == 0
    &&& (c.pos.y - root.pos.y) % (c.size as int) == 0
    &&& (c.pos.z - root.pos.z) % (c.size as int) == 0
}

/// The cube of edge `s` of the subdivision of `root` that holds `p`.
pub open spec fn aligned_cube(root: Cube, p: Point, s: int) -> Cube {
    Cube {
        pos: Point {
            x: (root.pos.x + ((p.x - root.pos.x) / s) * s) as i64,
            y: (root.pos.y + ((p.y - root.pos.y) / s) * s) as i64,
            z: (root.pos.z + ((p.z - root.pos.z) / s) * s) as i64,
        },
        size: s as i64,
    }
}

proof fn lemma_axis_cell(base: int, lo: int, s: int, x: int)
    requires
        s > 0,
        (lo - base) % s == 0,
        lo <= x < lo + s,
    ensures
        base + ((x - base) / s) * s == lo,
{
    lemma_fundamental_div_mod(lo - base, s);
    let q = (lo - base) / s;
    assert(x - base == q * s + (x - lo)) by (nonlinear_arith)
        requires lo - base == s * q + 0;
    lemma_fundamental_div_mod_converse(x - base, s, q, x - lo);
}

proof fn lemma_axis_child(base: int, lo: int, h: int, off: int)
    requires
        h > 0,
        (lo - base) % (2 * h) == 0,
        off == 0 || off == h,
    ensures
        (lo + off - base) % h == 0,
{
    lemma_fundamental_div_mod(lo - base, 2 * h);
    let q = (lo - base) / (2 * h);
    let b: int = if off == 0 { 0 } else { 1 };
    assert(lo + off - base == (2 * q + b) * h) by (nonlinear_arith)
        requires lo - base == (2 * h) * q + 0, off == b * h;
    lemma_mod_multiples_basic(2 * q + b, h);
}

/// A cell of the subdivision that holds `p` is the aligned cube of its edge
/// at `p`.
pub proof fn lemma_cell_at(root: Cube, c: Cube, p: Point)
    requires
        is_cell(root, c),
        c.covers(p),
    ensures
        aligned_cube(root, p, c.size as int) == c,
{
    lemma_axis_cell(root.pos.x as int, c.pos.x as int, c.size as int, p.x as int);
    lemma_axis_cell(root.pos.y as int, c.pos.y as int, c.size as int, p.y as int);
    lemma_axis_cell(root.pos.z as int, c.pos.z as int, c.size as int, p.z as int);
}

/// The octants of a cell of the subdivision are cells too.
pub proof fn lemma_child_cell(root: Cube, c: Cube, k: int)
    requires
        is_cell(root, c),
        c.size > 1,
        0 <= k < 8,
    ensures
        is_cell(root, c.child(k)),
{
    lemma_child(c, k);
    let h = c.size / 2;
    assert(c.size == 2 * h);
    lemma_axis_child(root.pos.x as int, c.pos.x as int, h as int, octant_offset(k, 4, h as int));
    lemma_axis_child(root.pos.y as int, c.pos.y as int, h as int, octant_offset(k, 2, h as int));
    lemma_axis_child(root.pos.z as int, c.pos.z as int, h as int, octant_offset(k, 1, h as int));
}

/// A valid cube is a cell of its own subdivision.
pub proof fn lemma_root_cell(root: Cube)
    requires
        root.valid(),
    ensures
        is_cell(root, root),
{
    lemma_mod_multiples_basic(0, root.size as int);
}

} // verus!
