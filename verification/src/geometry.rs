//! Lattice points, bounding boxes and the square domain a tree covers.

use vstd::prelude::*;

verus! {

/// A point of the lattice.
#[derive(Clone, Copy, Debug, PartialEq, Eq, Structural)]
pub struct Point {
    pub x: u32,
    pub y: u32,
}

/// The axis-aligned bounding box of a set of lattice points.
#[derive(Clone, Copy, Debug, PartialEq, Eq, Structural)]
pub struct Bounds {
    pub x_min: u32,
    pub x_max: u32,
    pub y_min: u32,
    pub y_max: u32,
}

impl Bounds {
    /// The box is not inverted on either axis.
    pub open spec fn wf(self) -> bool {
        self.x_min <= self.x_max && self.y_min <= self.y_max
    }

    /// Every point lies inside the box and each of the four sides touches
    /// at least one point.
    pub open spec fn is_tight_for(self, points: Seq<Point>) -> bool {
        &&& forall|i: int|
            0 <= i < points.len() ==> self.x_min <= (#[trigger] points[i]).x <= self.x_max
                && self.y_min <= points[i].y <= self.y_max
        &&& exists|i: int| 0 <= i < points.len() && (#[trigger] points[i]).x == self.x_min
        &&& exists|i: int| 0 <= i < points.len() && (#[trigger] points[i]).x == self.x_max
        &&& exists|i: int| 0 <= i < points.len() && (#[trigger] points[i]).y == self.y_min
        &&& exists|i: int| 0 <= i < points.len() && (#[trigger] points[i]).y == self.y_max
    }
}

/// Outer bounds of all given positions, or `None` when there are none.
pub fn get_bounds(positions: &Vec<Point>) -> (r: Option<Bounds>)
    ensures
        r is None <==> positions@.len() == 0,
        r matches Some(b) ==> b.wf() && b.is_tight_for(positions@),
{
    if positions.len() == 0 {
        return None;
    }
    let first: Point = positions[0];
    let mut b = Bounds { x_min: first.x, x_max: first.x, y_min: first.y, y_max: first.y };
    let mut i: usize = 1;
    assert(positions@.take(1)[0] == first);
    while i < positions.len()
        invariant
            1 <= i <= positions.len(),
            b.wf(),
            b.is_tight_for(positions@.take(i as int)),
        decreases positions.len() - i,
    {
        let p: Point = positions[i];
        let ghost seen = positions@.take(i as int);
        let ghost next = positions@.take(i as int + 1);
        let ghost ix_min = choose|k: int| 0 <= k < seen.len() && (#[trigger] seen[k]).x == b.x_min;
        let ghost ix_max = choose|k: int| 0 <= k < seen.len() && (#[trigger] seen[k]).x == b.x_max;
        let ghost iy_min = choose|k: int| 0 <= k < seen.len() && (#[trigger] seen[k]).y == b.y_min;
        let ghost iy_max = choose|k: int| 0 <= k < seen.len() && (#[trigger] seen[k]).y == b.y_max;
        let ghost old_b = b;
        if p.x < b.x_min {
            b.x_min = p.x;
        }
        if p.x > b.x_max {
            b.x_max = p.x;
        }
        if p.y < b.y_min {
            b.y_min = p.y;
        }
        if p.y > b.y_max {
            b.y_max = p.y;
        }
        proof {
            assert(next[i as int] == p);
            assert(forall|k: int| 0 <= k < seen.len() ==> next[k] == seen[k]);
            let jx_min = if p.x < old_b.x_min { i as int } else { ix_min };
            let jx_max = if p.x > old_b.x_max { i as int } else { ix_max };
            let jy_min = if p.y < old_b.y_min { i as int } else { iy_min };
            let jy_max = if p.y > old_b.y_max { i as int } else { iy_max };
            assert(next[jx_min].x == b.x_min);
            assert(next[jx_max].x == b.x_max);
            assert(next[jy_min].y == b.y_min);
            assert(next[jy_max].y == b.y_max);
            assert forall|k: int| 0 <= k < next.len() implies b.x_min <= (#[trigger] next[k]).x
                <= b.x_max && b.y_min <= next[k].y <= b.y_max by {
                if k < i {
                    assert(seen[k] == next[k]);
                }
            }
        }
        i += 1;
    }
    assert(positions@.take(i as int) =~= positions@);
    Some(b)
}

/// A cell of the `2^32 x 2^32` grid that a domain is divided into.
#[derive(Clone, Copy, Debug, PartialEq, Eq, Structural)]
pub struct Cell {
    pub x: u32,
    pub y: u32,
}

/// The square region a tree covers. The center is kept doubled, so that the
/// midpoint of any two lattice coordinates is represented exactly: the region
/// is `|2x - center_x2| <= size` and `|2y - center_y2| <= size`.
#[derive(Clone, Copy, Debug, PartialEq, Eq, Structural)]
pub struct Domain {
    pub center_x2: u64,
    pub center_y2: u64,
    pub size: u64,
}

/// Largest cell index on either axis.
pub const LAST_CELL: u32 = 0xFFFF_FFFF;

/// Grid index on one axis of the lattice coordinate `p`, in a domain with
/// doubled center `c2` and side `size`: the distance from the low edge as a
/// fraction of the side, in units of `2^-32`, rounded down. Coordinates
/// outside the domain are assigned to the nearest edge cell.
pub open spec fn axis_cell(c2: int, size: int, p: int) -> int {
    let r = 2 * p + size - c2;
    if r <= 0 {
        0
    } else if r >= 2 * size {
        LAST_CELL as int
    } else {
        (r * 0x8000_0000) / size
    }
}

/// A grid index fits in `u32`.
pub proof fn lemma_axis_cell_range(c2: int, size: int, p: int)
    requires
        1 <= size,
    ensures
        0 <= axis_cell(c2, size, p) <= 0xFFFF_FFFF,
{
    let r = 2 * p + size - c2;
    if 0 < r < 2 * size {
        let k: int = 0x8000_0000;
        assert(r * k < size * 0x1_0000_0000) by (nonlinear_arith)
            requires
                r < 2 * size,
                k == 0x8000_0000,
        ;
        vstd::arithmetic::div_mod::lemma_multiply_divide_lt(r * k, size, 0x1_0000_0000);
        assert(0 <= r * k) by (nonlinear_arith)
            requires
                0 < r,
                k == 0x8000_0000,
        ;
        vstd::arithmetic::div_mod::lemma_div_pos_is_pos(r * k, size);
    }
}

/// Two coordinates inside a domain that share a grid index are the same
/// coordinate: the grid is at least as fine as the lattice.
pub proof fn lemma_axis_cell_injective(c2: int, size: int, p: int, q: int)
    requires
        1 <= size <= 0xFFFF_FFFF,
        c2 - size <= 2 * p <= c2 + size,
        c2 - size <= 2 * q <= c2 + size,
        axis_cell(c2, size, p) == axis_cell(c2, size, q),
    ensures
        p == q,
{
    if p < q {
        lemma_axis_cell_increases(c2, size, p, q);
    } else if q < p {
        lemma_axis_cell_increases(c2, size, q, p);
    }
}

/// Within a domain, a larger coordinate has a larger grid index.
proof fn lemma_axis_cell_increases(c2: int, size: int, p: int, q: int)
    requires
        1 <= size <= 0xFFFF_FFFF,
        c2 - size <= 2 * p <= c2 + size,
        c2 - size <= 2 * q <= c2 + size,
        p < q,
    ensures
        axis_cell(c2, size, p) < axis_cell(c2, size, q),
{
    let lo = 2 * p + size - c2;
    let hi = 2 * q + size - c2;
    let k: int = 0x8000_0000;
    assert(hi >= lo + 2);
    if hi >= 2 * size {
        if lo > 0 {
            assert(lo * k < size * 0xFFFF_FFFF) by (nonlinear_arith)
                requires
                    lo <= 2 * size - 2,
                    k == 0x8000_0000,
                    1 <= size <= 0xFFFF_FFFF,
            ;
            vstd::arithmetic::div_mod::lemma_multiply_divide_lt(lo * k, size, 0xFFFF_FFFF);
        }
    } else {
        assert(lo * k + size <= hi * k) by (nonlinear_arith)
            requires
                hi >= lo + 2,
                k == 0x8000_0000,
                1 <= size <= 0xFFFF_FFFF,
        ;
        vstd::arithmetic::div_mod::lemma_div_plus_one(lo * k, size);
        vstd::arithmetic::div_mod::lemma_div_is_ordered(size + lo * k, hi * k, size);
        if lo <= 0 {
            assert(lo * k == 0);
        }
    }
}

impl Domain {
    /// Two points of the domain that share a cell are the same point.
    pub proof fn lemma_cell_of_injective(self, p: Point, q: Point)
        requires
            self.wf(),
            self.contains(p),
            self.contains(q),
            self.cell_of(p) == self.cell_of(q),
        ensures
            p == q,
    {
        let s = self.size as int;
        assert(0 <= axis_cell(self.center_x2 as int, s, p.x as int) <= 0xFFFF_FFFF
            && 0 <= axis_cell(self.center_x2 as int, s, q.x as int) <= 0xFFFF_FFFF
            && 0 <= axis_cell(self.center_y2 as int, s, p.y as int) <= 0xFFFF_FFFF
            && 0 <= axis_cell(self.center_y2 as int, s, q.y as int) <= 0xFFFF_FFFF) by {
            lemma_axis_cell_range(self.center_x2 as int, s, p.x as int);
            lemma_axis_cell_range(self.center_x2 as int, s, q.x as int);
            lemma_axis_cell_range(self.center_y2 as int, s, p.y as int);
            lemma_axis_cell_range(self.center_y2 as int, s, q.y as int);
        }
        lemma_axis_cell_injective(self.center_x2 as int, s, p.x as int, q.x as int);
        lemma_axis_cell_injective(self.center_y2 as int, s, p.y as int, q.y as int);
    }

    /// The side is at least one lattice step and the square lies within
    /// reach of `u32` coordinates.
    pub open spec fn wf(self) -> bool {
        &&& 1 <= self.size <= u32::MAX
        &&& self.center_x2 <= 2 * u32::MAX
        &&& self.center_y2 <= 2 * u32::MAX
    }

    /// The point lies in the closed square.
    pub open spec fn contains(self, p: Point) -> bool {
        &&& self.center_x2 - self.size <= 2 * p.x <= self.center_x2 + self.size
        &&& self.center_y2 - self.size <= 2 * p.y <= self.center_y2 + self.size
    }

    /// The grid cell that holds `p`.
    pub open spec fn cell_of(self, p: Point) -> Cell {
        Cell {
            x: axis_cell(self.center_x2 as int, self.size as int, p.x as int) as u32,
            y: axis_cell(self.center_y2 as int, self.size as int, p.y as int) as u32,
        }
    }

    /// The smallest square centered on the middle of the box whose side
    /// matches the longer side of the box. A box that is a single point gets
    /// a side of one lattice step.
    pub fn enclosing(b: &Bounds) -> (d: Domain)
        requires
            b.wf(),
        ensures
            d.wf(),
            d.center_x2 == b.x_min + b.x_max,
            d.center_y2 == b.y_min + b.y_max,
            d.size == vstd::math::max(
                1,
                vstd::math::max(b.x_max - b.x_min, b.y_max - b.y_min),
            ),
            forall|p: Point|
                b.x_min <= p.x <= b.x_max && b.y_min <= p.y <= b.y_max ==> #[trigger] d.contains(p),
    {
        let width: u32 = b.x_max - b.x_min;
        let height: u32 = b.y_max - b.y_min;
        let longer: u32 = if width >= height { width } else { height };
        let size: u32 = if longer == 0 { 1 } else { longer };
        Domain {
            center_x2: b.x_min as u64 + b.x_max as u64,
            center_y2: b.y_min as u64 + b.y_max as u64,
            size: size as u64,
        }
    }

    /// The domain with the given doubled center and side, or `None` where
    /// these are out of range.
    pub fn new(center_x2: u64, center_y2: u64, size: u64) -> (r: Option<Domain>)
        ensures
            r == if (Domain { center_x2, center_y2, size }).wf() {
                Some(Domain { center_x2, center_y2, size })
            } else {
                None::<Domain>
            },
    {
        if size >= 1 && size <= 0xFFFF_FFFF && center_x2 <= 0x1_FFFF_FFFE && center_y2
            <= 0x1_FFFF_FFFE {
            Some(Domain { center_x2, center_y2, size })
        } else {
            None
        }
    }

    /// Whether the point lies in the closed square.
    pub fn holds(&self, p: Point) -> (b: bool)
        requires
            self.wf(),
        ensures
            b == self.contains(p),
    {
        let px: u64 = 2 * (p.x as u64);
        let py: u64 = 2 * (p.y as u64);
        self.center_x2 <= px + self.size && px <= self.center_x2 + self.size && self.center_y2
            <= py + self.size && py <= self.center_y2 + self.size
    }

    /// Computes the grid cell that holds `p`.
    pub fn locate(&self, p: Point) -> (c: Cell)
        requires
            self.wf(),
        ensures
            c == self.cell_of(p),
    {
        Cell {
            x: locate_axis(self.center_x2, self.size, p.x),
            y: locate_axis(self.center_y2, self.size, p.y),
        }
    }
}

/// Computes the grid index of a coordinate on one axis.
fn locate_axis(c2: u64, size: u64, p: u32) -> (g: u32)
    requires
        1 <= size <= u32::MAX,
        c2 <= 2 * u32::MAX,
    ensures
        g == axis_cell(c2 as int, size as int, p as int),
{
    let a: u64 = 2 * (p as u64) + size;
    if a <= c2 {
        return 0;
    }
    let r: u64 = a - c2;
    if r >= 2 * size {
        return LAST_CELL;
    }
    let scaled: u64 = r * 0x8000_0000;
    let q: u64 = scaled / size;
    proof {
        assert(scaled < size * 0x1_0000_0000);
        vstd::arithmetic::div_mod::lemma_multiply_divide_lt(
            scaled as int,
            size as int,
            0x1_0000_0000,
        );
    }
    q as u32
}

} // verus!
