//! Which point masses act on a body: the Barnes-Hut walk over a tree.

use vstd::prelude::*;
use crate::body::Body;
use crate::geometry::{Cell, Domain, Point};
use crate::grid::{Quadrant, Square};
use crate::node::Node;
use crate::tree::{lemma_whole_grid, TreeNode};

verus! {

/// The opening threshold, as the fraction `num / den`.
#[derive(Clone, Copy, Debug, PartialEq, Eq, Structural)]
pub struct Theta {
    pub num: u16,
    pub den: u16,
}

impl Theta {
    /// The fraction has a denominator.
    pub open spec fn wf(self) -> bool {
        self.den > 0
    }

    /// The threshold `num / den`, or `None` when `den` is zero.
    pub fn new(num: u16, den: u16) -> (r: Option<Theta>)
        ensures
            r == if den > 0 {
                Some(Theta { num, den })
            } else {
                None::<Theta>
            },
    {
        if den > 0 {
            Some(Theta { num, den })
        } else {
            None
        }
    }
}

/// A mass at a point: a leaf, or everything below an internal node taken
/// as one mass at its center of mass.
#[derive(Clone, Copy, Debug, PartialEq, Eq, Structural)]
pub struct PointMass {
    pub mass: u64,
    pub position: Point,
}

/// Four to the power `depth`.
pub open spec fn four_to(depth: nat) -> int
    decreases depth,
{
    if depth == 0 {
        1
    } else {
        4 * four_to((depth - 1) as nat)
    }
}

/// Square of the distance between two points.
pub open spec fn dist_sq(a: Point, b: Point) -> int {
    (a.x - b.x) * (a.x - b.x) + (a.y - b.y) * (a.y - b.y)
}

/// Square of the domain's side times the threshold's denominator.
pub open spec fn span_sq(size: int, theta: Theta) -> int {
    (size * size) * (theta.den * theta.den)
}

/// Square of the distance times the threshold's numerator.
pub open spec fn reach_sq(theta: Theta, from: Point, to: Point) -> int {
    (theta.num * theta.num) * dist_sq(from, to)
}

/// A node at `depth`, whose side is that of the domain halved `depth`
/// times, is far enough from the point `from` to count as one mass at `to`:
/// side over distance is less than `theta`. Both sides of that inequality
/// are squared and cleared of fractions here. At distance zero nothing is
/// far enough.
pub open spec fn far_enough(size: int, depth: nat, theta: Theta, from: Point, to: Point) -> bool {
    span_sq(size, theta) < reach_sq(theta, from, to) * four_to(depth)
}

/// The square of the side at `depth` times the denominator, rounded down:
/// what the walk compares a reach with.
pub open spec fn cut_at(size: int, theta: Theta, depth: nat) -> int {
    span_sq(size, theta) / four_to(depth)
}

/// Powers of four are positive.
pub proof fn lemma_four_to_positive(depth: nat)
    ensures
        four_to(depth) > 0,
    decreases depth,
{
    if depth > 0 {
        lemma_four_to_positive((depth - 1) as nat);
    }
}

/// Comparing the rounded quotient with a whole number is comparing the
/// exact one.
pub proof fn lemma_cut_decides(size: int, depth: nat, theta: Theta, from: Point, to: Point)
    requires
        0 <= size,
    ensures
        far_enough(size, depth, theta, from, to) <==> cut_at(size, theta, depth) < reach_sq(
            theta,
            from,
            to,
        ),
{
    let l = span_sq(size, theta);
    let k = four_to(depth);
    let r = reach_sq(theta, from, to);
    lemma_four_to_positive(depth);
    assert(0 <= l) by (nonlinear_arith)
        requires
            l == (size * size) * (theta.den * theta.den),
    ;
    if l < r * k {
        assert(l < k * r) by (nonlinear_arith)
            requires
                l < r * k,
        ;
        vstd::arithmetic::div_mod::lemma_multiply_divide_lt(l, k, r);
    }
    if l / k < r {
        vstd::arithmetic::div_mod::lemma_fundamental_div_mod(l, k);
        vstd::arithmetic::div_mod::lemma_mod_pos_bound(l, k);
        assert(k * (l / k) + k <= r * k) by (nonlinear_arith)
            requires
                l / k + 1 <= r,
                k > 0,
        ;
    }
}

/// The cut one level down is a quarter of the cut, rounded down.
pub proof fn lemma_cut_step(size: int, theta: Theta, depth: nat)
    requires
        0 <= size,
    ensures
        cut_at(size, theta, depth + 1) == cut_at(size, theta, depth) / 4,
{
    let l = span_sq(size, theta);
    lemma_four_to_positive(depth);
    assert(0 <= l) by (nonlinear_arith)
        requires
            l == (size * size) * (theta.den * theta.den),
    ;
    vstd::arithmetic::div_mod::lemma_div_denominator(l, four_to(depth), 4);
    assert(four_to(depth + 1) == four_to(depth) * 4);
}

/// A leaf acts on the probe unless it is the probe itself or lies at the
/// probe's own position, at distance zero.
pub open spec fn acts_on(leaf: Body, probe: Body) -> bool {
    leaf.id != probe.id && leaf.position != probe.position
}

/// What was found on the way to a cell is a leaf that acts on the probe.
pub open spec fn acting(found: Option<Body>, probe: Body) -> bool {
    found is Some && acts_on(found.unwrap(), probe)
}

/// A leaf as a point mass.
pub open spec fn point_mass(leaf: Body) -> PointMass {
    PointMass { mass: leaf.mass, position: leaf.position }
}

impl Node {
    /// Center of mass of what lies below, rounded down to the lattice.
    pub open spec fn center_of_mass(self) -> Point {
        Point {
            x: (self.moment_x_sum() / (self.mass_sum() as int)) as u32,
            y: (self.moment_y_sum() / (self.mass_sum() as int)) as u32,
        }
    }

    /// The point masses that act on `probe`, in the order of the walk. A
    /// leaf counts unless it is the probe itself or lies at the probe's own
    /// position. An internal node that is far enough counts as one mass;
    /// one that is not is opened, and its children are walked in their
    /// fixed order.
    pub open spec fn sources(self, size: int, depth: nat, probe: Body, theta: Theta) -> Seq<
        PointMass,
    >
        decreases self,
    {
        match self {
            Node::Empty => Seq::empty(),
            Node::Leaf(b) => if acts_on(b, probe) {
                seq![point_mass(b)]
            } else {
                Seq::empty()
            },
            Node::Internal(q) => if far_enough(
                size,
                depth,
                theta,
                probe.position,
                self.center_of_mass(),
            ) {
                seq![PointMass { mass: self.mass_sum() as u64, position: self.center_of_mass() }]
            } else {
                q.ne.sources(size, depth + 1, probe, theta) + q.nw.sources(
                    size,
                    depth + 1,
                    probe,
                    theta,
                ) + q.se.sources(size, depth + 1, probe, theta) + q.sw.sources(
                    size,
                    depth + 1,
                    probe,
                    theta,
                )
            },
        }
    }

    /// Every leaf as a point mass, in the order of the walk, but for the
    /// probe itself and what lies at the probe's own position.
    pub open spec fn others(self, probe: Body) -> Seq<PointMass>
        decreases self,
    {
        match self {
            Node::Empty => Seq::empty(),
            Node::Leaf(b) => if acts_on(b, probe) {
                seq![point_mass(b)]
            } else {
                Seq::empty()
            },
            Node::Internal(q) => q.ne.others(probe) + q.nw.others(probe) + q.se.others(probe)
                + q.sw.others(probe),
        }
    }

    /// Which child of an internal node the `i`-th of the others comes from,
    /// and which of that child's others it is.
    pub open spec fn origin(self, probe: Body, i: int) -> (Quadrant, int) {
        match self {
            Node::Internal(q) => {
                let n1 = q.ne.others(probe).len();
                let n2 = q.nw.others(probe).len();
                let n3 = q.se.others(probe).len();
                if i < n1 {
                    (Quadrant::NorthEast, i)
                } else if i < n1 + n2 {
                    (Quadrant::NorthWest, i - n1)
                } else if i < n1 + n2 + n3 {
                    (Quadrant::SouthEast, i - n1 - n2)
                } else {
                    (Quadrant::SouthWest, i - n1 - n2 - n3)
                }
            },
            _ => (Quadrant::NorthEast, i),
        }
    }

    /// The others of an internal node are those of its children, one child
    /// behind the other.
    pub proof fn lemma_origin(self, probe: Body, i: int)
        requires
            self is Internal,
            0 <= i < self.others(probe).len(),
        ensures
            0 <= self.origin(probe, i).1 < self->Internal_0.child(self.origin(probe, i).0).others(
                probe,
            ).len(),
            self.others(probe)[i] == self->Internal_0.child(self.origin(probe, i).0).others(
                probe,
            )[self.origin(probe, i).1],
    {
        let q = self->Internal_0;
        assert(self.others(probe) == q.ne.others(probe) + q.nw.others(probe) + q.se.others(probe)
            + q.sw.others(probe));
    }

    /// Each of the others is a leaf of the node that acts on the probe.
    pub proof fn lemma_others_are_leaves(self, domain: Domain, sq: Square, probe: Body, i: int)
        requires
            sq.wf(),
            self.wf_in(domain, sq),
            0 <= i < self.others(probe).len(),
        ensures
            acting(self.lookup(domain, sq, domain.cell_of(self.others(probe)[i].position)), probe),
            point_mass(
                self.lookup(domain, sq, domain.cell_of(self.others(probe)[i].position)).unwrap(),
            ) == self.others(probe)[i],
        decreases self,
    {
        match self {
            Node::Internal(q) => {
                q.lemma_children_wf(domain, sq);
                self.lemma_origin(probe, i);
                let (o, k) = self.origin(probe, i);
                sq.lemma_quarter(o);
                q.child(o).lemma_others_are_leaves(domain, sq.quarter(o), probe, k);
                let c = domain.cell_of(self.others(probe)[i].position);
                q.child(o).lemma_leaf_in_block(domain, sq.quarter(o), c);
                sq.lemma_quarter_of(c, o);
                assert(self.lookup(domain, sq, c) == q.child(o).lookup(domain, sq.quarter(o), c));
            },
            _ => {},
        }
    }

    /// Every leaf of the node that acts on the probe is among the others.
    pub proof fn lemma_leaf_is_among_others(
        self,
        domain: Domain,
        sq: Square,
        probe: Body,
        c: Cell,
    ) -> (i: int)
        requires
            sq.wf(),
            self.wf_in(domain, sq),
            acting(self.lookup(domain, sq, c), probe),
        ensures
            0 <= i < self.others(probe).len(),
            self.others(probe)[i] == point_mass(self.lookup(domain, sq, c).unwrap()),
        decreases self,
    {
        match self {
            Node::Internal(q) => {
                q.lemma_children_wf(domain, sq);
                let o = sq.quadrant_of(c);
                sq.lemma_quarter(o);
                assert(self.lookup(domain, sq, c) == q.child(o).lookup(domain, sq.quarter(o), c));
                let k = q.child(o).lemma_leaf_is_among_others(domain, sq.quarter(o), probe, c);
                let n1 = q.ne.others(probe).len();
                let n2 = q.nw.others(probe).len();
                let n3 = q.se.others(probe).len();
                let i = match o {
                    Quadrant::NorthEast => k,
                    Quadrant::NorthWest => n1 + k,
                    Quadrant::SouthEast => n1 + n2 + k,
                    Quadrant::SouthWest => n1 + n2 + n3 + k,
                };
                assert(self.others(probe) == q.ne.others(probe) + q.nw.others(probe)
                    + q.se.others(probe) + q.sw.others(probe));
                assert(self.origin(probe, i) == (o, k));
                self.lemma_origin(probe, i);
                i
            },
            _ => 0,
        }
    }

    /// No two of the others lie at one point.
    pub proof fn lemma_others_distinct(
        self,
        domain: Domain,
        sq: Square,
        probe: Body,
        i: int,
        j: int,
    )
        requires
            sq.wf(),
            self.wf_in(domain, sq),
            0 <= i < j < self.others(probe).len(),
        ensures
            self.others(probe)[i].position != self.others(probe)[j].position,
        decreases self,
    {
        match self {
            Node::Internal(q) => {
                q.lemma_children_wf(domain, sq);
                self.lemma_origin(probe, i);
                self.lemma_origin(probe, j);
                let (oi, ki) = self.origin(probe, i);
                let (oj, kj) = self.origin(probe, j);
                sq.lemma_quarter(oi);
                sq.lemma_quarter(oj);
                if oi == oj {
                    q.child(oi).lemma_others_distinct(domain, sq.quarter(oi), probe, ki, kj);
                } else {
                    q.child(oi).lemma_others_are_leaves(domain, sq.quarter(oi), probe, ki);
                    q.child(oj).lemma_others_are_leaves(domain, sq.quarter(oj), probe, kj);
                    let ci = domain.cell_of(self.others(probe)[i].position);
                    let cj = domain.cell_of(self.others(probe)[j].position);
                    q.child(oi).lemma_leaf_in_block(domain, sq.quarter(oi), ci);
                    q.child(oj).lemma_leaf_in_block(domain, sq.quarter(oj), cj);
                    sq.lemma_quarter_of(ci, oi);
                    sq.lemma_quarter_of(cj, oj);
                }
            },
            _ => {},
        }
    }

    /// With a threshold of zero no node is ever far enough, and the walk
    /// yields every other leaf.
    pub proof fn lemma_exact_at_zero(self, size: int, depth: nat, probe: Body, theta: Theta)
        requires
            theta.num == 0,
            0 <= size,
        ensures
            self.sources(size, depth, probe, theta) == self.others(probe),
        decreases self,
    {
        match self {
            Node::Internal(q) => {
                let c = self.center_of_mass();
                lemma_four_to_positive(depth);
                assert(span_sq(size, theta) >= 0) by (nonlinear_arith)
                    requires
                        span_sq(size, theta) == (size * size) * (theta.den * theta.den),
                ;
                assert(reach_sq(theta, probe.position, c) * four_to(depth) == 0)
                    by (nonlinear_arith)
                    requires
                        reach_sq(theta, probe.position, c) == (theta.num * theta.num) * dist_sq(
                            probe.position,
                            c,
                        ),
                        theta.num == 0,
                ;
                q.ne.lemma_exact_at_zero(size, depth + 1, probe, theta);
                q.nw.lemma_exact_at_zero(size, depth + 1, probe, theta);
                q.se.lemma_exact_at_zero(size, depth + 1, probe, theta);
                q.sw.lemma_exact_at_zero(size, depth + 1, probe, theta);
            },
            _ => {},
        }
    }

    /// Walks the node and appends the point masses that act on `probe`.
    pub(crate) fn gather(
        &self,
        probe: &Body,
        theta: Theta,
        cut: u128,
        out: &mut Vec<PointMass>,
        Ghost(size): Ghost<int>,
        Ghost(depth): Ghost<nat>,
        Ghost(domain): Ghost<Domain>,
        Ghost(sq): Ghost<Square>,
    )
        requires
            self.wf_in(domain, sq),
            0 <= size,
            cut == cut_at(size, theta, depth),
        ensures
            final(out)@ == old(out)@ + self.sources(size, depth, *probe, theta),
        decreases self,
    {
        match self {
            Node::Empty => {},
            Node::Leaf(b) => {
                if b.id != probe.id && (b.position.x != probe.position.x || b.position.y
                    != probe.position.y) {
                    out.push(PointMass { mass: b.mass, position: b.position });
                    assert(final(out)@ == old(out)@ + seq![point_mass(*b)]);
                }
            },
            Node::Internal(q) => {
                proof {
                    self.lemma_moment_bound();
                    self.lemma_no_leaves(domain, sq);
                    vstd::arithmetic::div_mod::lemma_multiply_divide_lt(
                        q.moment_x as int,
                        q.mass as int,
                        0x1_0000_0000,
                    );
                    vstd::arithmetic::div_mod::lemma_multiply_divide_lt(
                        q.moment_y as int,
                        q.mass as int,
                        0x1_0000_0000,
                    );
                    lemma_cut_decides(size, depth, theta, probe.position, self.center_of_mass());
                    lemma_cut_step(size, theta, depth);
                }
                let cx: u128 = q.moment_x / (q.mass as u128);
                let cy: u128 = q.moment_y / (q.mass as u128);
                let center = Point { x: cx as u32, y: cy as u32 };
                let reach: u128 = reach(theta, probe.position, center);
                if cut < reach {
                    out.push(PointMass { mass: q.mass, position: center });
                    assert(final(out)@ == old(out)@ + seq![
                        PointMass { mass: q.mass, position: center },
                    ]);
                } else {
                    let below: u128 = cut / 4;
                    let ghost d = (depth + 1) as nat;
                    let ghost s0 = out@;
                    q.ne.gather(
                        probe,
                        theta,
                        below,
                        out,
                        Ghost(size),
                        Ghost(d),
                        Ghost(domain),
                        Ghost(sq.quarter(Quadrant::NorthEast)),
                    );
                    q.nw.gather(
                        probe,
                        theta,
                        below,
                        out,
                        Ghost(size),
                        Ghost(d),
                        Ghost(domain),
                        Ghost(sq.quarter(Quadrant::NorthWest)),
                    );
                    q.se.gather(
                        probe,
                        theta,
                        below,
                        out,
                        Ghost(size),
                        Ghost(d),
                        Ghost(domain),
                        Ghost(sq.quarter(Quadrant::SouthEast)),
                    );
                    q.sw.gather(
                        probe,
                        theta,
                        below,
                        out,
                        Ghost(size),
                        Ghost(d),
                        Ghost(domain),
                        Ghost(sq.quarter(Quadrant::SouthWest)),
                    );
                    assert(final(out)@ == s0 + (q.ne.sources(size, d, *probe, theta)
                        + q.nw.sources(size, d, *probe, theta) + q.se.sources(
                        size,
                        d,
                        *probe,
                        theta,
                    ) + q.sw.sources(size, d, *probe, theta)));
                }
            },
        }
    }
}

/// Square of the distance between two points times the square of the
/// threshold's numerator.
fn reach(theta: Theta, from: Point, to: Point) -> (r: u128)
    ensures
        r == reach_sq(theta, from, to),
{
    let dx: u128 = if from.x >= to.x {
        (from.x - to.x) as u128
    } else {
        (to.x - from.x) as u128
    };
    let dy: u128 = if from.y >= to.y {
        (from.y - to.y) as u128
    } else {
        (to.y - from.y) as u128
    };
    let n: u128 = theta.num as u128;
    assert(dx * dx == (from.x - to.x) * (from.x - to.x) && dy * dy == (from.y - to.y) * (from.y
        - to.y)) by (nonlinear_arith)
        requires
            dx == from.x - to.x || dx == to.x - from.x,
            dy == from.y - to.y || dy == to.y - from.y,
    ;
    assert(dx * dx <= 0xFFFF_FFFF * 0xFFFF_FFFF && dy * dy <= 0xFFFF_FFFF * 0xFFFF_FFFF && n * n
        <= 0xFFFF * 0xFFFF) by (nonlinear_arith)
        requires
            0 <= dx <= 0xFFFF_FFFF,
            0 <= dy <= 0xFFFF_FFFF,
            0 <= n <= 0xFFFF,
    ;
    let d2: u128 = dx * dx + dy * dy;
    let n2: u128 = n * n;
    assert(n2 * d2 <= (0xFFFF * 0xFFFF) * (2 * (0xFFFF_FFFF * 0xFFFF_FFFF))) by (nonlinear_arith)
        requires
            0 <= n2 <= 0xFFFF * 0xFFFF,
            0 <= d2 <= 2 * (0xFFFF_FFFF * 0xFFFF_FFFF),
    ;
    n2 * d2
}

impl TreeNode {
    /// The point masses that act on `probe`: see [`Node::sources`].
    pub open spec fn sources(&self, probe: Body, theta: Theta) -> Seq<PointMass> {
        self.root().sources(self.region().size as int, 0, probe, theta)
    }

    /// Every leaf but the probe's own: see [`Node::others`].
    pub open spec fn others(&self, probe: Body) -> Seq<PointMass> {
        self.root().others(probe)
    }

    /// The others are the leaves of the tree but the probe's own and any at
    /// the probe's position, each once and with its own mass.
    pub proof fn lemma_others(&self, probe: Body)
        requires
            self.wf(),
        ensures
            forall|i: int|
                0 <= i < self.others(probe).len() ==> {
                    let found = self.leaf_at((#[trigger] self.others(probe)[i]).position);
                    acting(found, probe) && point_mass(found.unwrap()) == self.others(probe)[i]
                },
            forall|p: Point|
                acting(#[trigger] self.leaf_at(p), probe) ==> exists|i: int|
                    0 <= i < self.others(probe).len() && self.others(probe)[i] == point_mass(
                        self.leaf_at(p).unwrap(),
                    ),
            forall|i: int, j: int|
                0 <= i < j < self.others(probe).len() ==> (#[trigger] self.others(
                    probe,
                )[i]).position != (#[trigger] self.others(probe)[j]).position,
    {
        lemma_whole_grid();
        let d = self.region();
        let whole = Square::whole();
        let s = self.others(probe);
        assert forall|i: int| 0 <= i < s.len() implies ({
            let found = self.leaf_at((#[trigger] s[i]).position);
            acting(found, probe) && point_mass(found.unwrap()) == s[i]
        }) by {
            let c = d.cell_of(s[i].position);
            self.root().lemma_others_are_leaves(d, whole, probe, i);
            self.root().lemma_lookup(d, whole, c);
        }
        assert forall|p: Point| acting(#[trigger] self.leaf_at(p), probe) implies exists|i: int|
            0 <= i < s.len() && s[i] == point_mass(self.leaf_at(p).unwrap()) by {
            let c = d.cell_of(p);
            let i = self.root().lemma_leaf_is_among_others(d, whole, probe, c);
            assert(s[i] == point_mass(self.leaf_at(p).unwrap()));
        }
        assert forall|i: int, j: int| 0 <= i < j < s.len() implies (#[trigger] s[i]).position != (
        #[trigger] s[j]).position by {
            self.root().lemma_others_distinct(d, whole, probe, i, j);
        }
    }

    /// With a threshold of zero the walk approximates nothing: what acts on
    /// the probe is every other leaf, each by itself.
    pub proof fn lemma_exact_at_zero(&self, probe: Body, theta: Theta)
        requires
            theta.num == 0,
        ensures
            self.sources(probe, theta) == self.others(probe),
    {
        self.root().lemma_exact_at_zero(self.region().size as int, 0, probe, theta);
    }

    /// Walks the tree from the root and lists the point masses whose pull
    /// on `probe` is to be summed. A node whose side, divided by the
    /// distance from the probe to its center of mass, is less than `theta`
    /// is taken as one mass; any other internal node is opened. The probe's
    /// own leaf, and any mass at distance zero, is left out.
    pub fn force_terms(&self, probe: &Body, theta: Theta) -> (terms: Vec<PointMass>)
        requires
            self.wf(),
        ensures
            terms@ == self.sources(*probe, theta),
    {
        let d: Domain = self.domain();
        let s: u128 = d.size as u128;
        let t: u128 = theta.den as u128;
        assert(s * s <= 0xFFFF_FFFF * 0xFFFF_FFFF && t * t <= 0xFFFF * 0xFFFF) by (nonlinear_arith)
            requires
                0 <= s <= 0xFFFF_FFFF,
                0 <= t <= 0xFFFF,
        ;
        let s2: u128 = s * s;
        let t2: u128 = t * t;
        assert(s2 * t2 <= (0xFFFF_FFFF * 0xFFFF_FFFF) * (0xFFFF * 0xFFFF)) by (nonlinear_arith)
            requires
                0 <= s2 <= 0xFFFF_FFFF * 0xFFFF_FFFF,
                0 <= t2 <= 0xFFFF * 0xFFFF,
        ;
        let cut: u128 = s2 * t2;
        let mut terms: Vec<PointMass> = Vec::new();
        self.walk(probe, theta, cut, &mut terms);
        terms
    }
}

} // verus!
