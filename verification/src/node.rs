//! The nodes of the tree: what they hold, when they are well formed, and
//! how bodies and whole subtrees are added to them.

use vstd::prelude::*;
use crate::body::{fuse, join, settle, Body};
use crate::geometry::{Cell, Domain, Point};
use crate::grid::{lemma_halvings, two_to, Quadrant, Square};

verus! {

/// A node of the tree: nothing, one body, or four children.
#[derive(Debug, PartialEq, Eq)]
pub enum Node {
    Empty,
    Leaf(Body),
    Internal(Box<Quad>),
}

/// The four children of an internal node, north-east, north-west,
/// south-east and south-west, and the totals of what lies below them.
#[derive(Debug, PartialEq, Eq)]
pub struct Quad {
    pub mass: u64,
    pub moment_x: u128,
    pub moment_y: u128,
    pub ne: Node,
    pub nw: Node,
    pub se: Node,
    pub sw: Node,
}

impl Quad {
    /// The child in the given direction.
    pub open spec fn child(self, q: Quadrant) -> Node {
        match q {
            Quadrant::NorthEast => self.ne,
            Quadrant::NorthWest => self.nw,
            Quadrant::SouthEast => self.se,
            Quadrant::SouthWest => self.sw,
        }
    }

    /// The same with another child in the given direction.
    pub open spec fn with_child(self, q: Quadrant, node: Node) -> Quad {
        match q {
            Quadrant::NorthEast => Quad { ne: node, ..self },
            Quadrant::NorthWest => Quad { nw: node, ..self },
            Quadrant::SouthEast => Quad { se: node, ..self },
            Quadrant::SouthWest => Quad { sw: node, ..self },
        }
    }
}

impl Node {
    /// Sum of the masses of the leaves.
    pub open spec fn mass_sum(self) -> nat
        decreases self,
    {
        match self {
            Node::Empty => 0,
            Node::Leaf(b) => b.mass as nat,
            Node::Internal(q) => q.ne.mass_sum() + q.nw.mass_sum() + q.se.mass_sum()
                + q.sw.mass_sum(),
        }
    }

    /// Sum over the leaves of mass times `x`.
    pub open spec fn moment_x_sum(self) -> int
        decreases self,
    {
        match self {
            Node::Empty => 0,
            Node::Leaf(b) => b.mass * b.position.x,
            Node::Internal(q) => q.ne.moment_x_sum() + q.nw.moment_x_sum() + q.se.moment_x_sum()
                + q.sw.moment_x_sum(),
        }
    }

    /// Sum over the leaves of mass times `y`.
    pub open spec fn moment_y_sum(self) -> int
        decreases self,
    {
        match self {
            Node::Empty => 0,
            Node::Leaf(b) => b.mass * b.position.y,
            Node::Internal(q) => q.ne.moment_y_sum() + q.nw.moment_y_sum() + q.se.moment_y_sum()
                + q.sw.moment_y_sum(),
        }
    }

    /// Number of leaves.
    pub open spec fn leaf_count(self) -> nat
        decreases self,
    {
        match self {
            Node::Empty => 0,
            Node::Leaf(b) => 1,
            Node::Internal(q) => q.ne.leaf_count() + q.nw.leaf_count() + q.se.leaf_count()
                + q.sw.leaf_count(),
        }
    }

    /// Number of internal nodes on the longest way down from this node.
    pub open spec fn height(self) -> nat
        decreases self,
    {
        match self {
            Node::Empty => 0,
            Node::Leaf(_) => 0,
            Node::Internal(q) => {
                let a = q.ne.height();
                let b = q.nw.height();
                let c = q.se.height();
                let d = q.sw.height();
                let ab = if a >= b {
                    a
                } else {
                    b
                };
                let cd = if c >= d {
                    c
                } else {
                    d
                };
                1 + if ab >= cd {
                    ab
                } else {
                    cd
                }
            },
        }
    }

    /// The leaf found by walking from this node, which covers `sq`, towards
    /// the cell `c`.
    pub open spec fn lookup(self, domain: Domain, sq: Square, c: Cell) -> Option<Body>
        decreases self,
    {
        match self {
            Node::Empty => None,
            Node::Leaf(b) => if domain.cell_of(b.position) == c {
                Some(b)
            } else {
                None
            },
            Node::Internal(q) => match sq.quadrant_of(c) {
                Quadrant::NorthEast => q.ne.lookup(domain, sq.quarter(Quadrant::NorthEast), c),
                Quadrant::NorthWest => q.nw.lookup(domain, sq.quarter(Quadrant::NorthWest), c),
                Quadrant::SouthEast => q.se.lookup(domain, sq.quarter(Quadrant::SouthEast), c),
                Quadrant::SouthWest => q.sw.lookup(domain, sq.quarter(Quadrant::SouthWest), c),
            },
        }
    }

    /// Every leaf carries mass and sits in the block that its path from this
    /// node leads to; every internal node covers a block that can be
    /// quartered, holds at least two leaves and records the exact totals of
    /// what lies below it.
    pub open spec fn wf_in(self, domain: Domain, sq: Square) -> bool
        decreases self,
    {
        match self {
            Node::Empty => true,
            Node::Leaf(b) => b.mass > 0 && domain.contains(b.position) && sq.contains(
                domain.cell_of(b.position),
            ),
            Node::Internal(q) => {
                &&& sq.side >= 2
                &&& q.mass == self.mass_sum()
                &&& q.moment_x == self.moment_x_sum()
                &&& q.moment_y == self.moment_y_sum()
                &&& self.leaf_count() >= 2
                &&& q.ne.wf_in(domain, sq.quarter(Quadrant::NorthEast))
                &&& q.nw.wf_in(domain, sq.quarter(Quadrant::NorthWest))
                &&& q.se.wf_in(domain, sq.quarter(Quadrant::SouthEast))
                &&& q.sw.wf_in(domain, sq.quarter(Quadrant::SouthWest))
            },
        }
    }

    /// No coordinate exceeds `u32::MAX`, so no moment exceeds the mass times
    /// that.
    pub proof fn lemma_moment_bound(self)
        ensures
            0 <= self.moment_x_sum() <= self.mass_sum() * 0xFFFF_FFFF,
            0 <= self.moment_y_sum() <= self.mass_sum() * 0xFFFF_FFFF,
        decreases self,
    {
        match self {
            Node::Empty => {},
            Node::Leaf(b) => {
                assert(0 <= b.mass * b.position.x <= b.mass * 0xFFFF_FFFF) by (nonlinear_arith)
                    requires
                        0 <= b.position.x <= 0xFFFF_FFFF,
                        b.mass >= 0,
                ;
                assert(0 <= b.mass * b.position.y <= b.mass * 0xFFFF_FFFF) by (nonlinear_arith)
                    requires
                        0 <= b.position.y <= 0xFFFF_FFFF,
                        b.mass >= 0,
                ;
            },
            Node::Internal(q) => {
                q.ne.lemma_moment_bound();
                q.nw.lemma_moment_bound();
                q.se.lemma_moment_bound();
                q.sw.lemma_moment_bound();
            },
        }
    }

    /// A node without leaves is the empty node.
    pub proof fn lemma_no_leaves(self, domain: Domain, sq: Square)
        requires
            self.wf_in(domain, sq),
        ensures
            self.leaf_count() == 0 <==> self is Empty,
            self.mass_sum() == 0 <==> self is Empty,
            self.mass_sum() >= self.leaf_count(),
        decreases self,
    {
        match self {
            Node::Empty => {},
            Node::Leaf(b) => {},
            Node::Internal(q) => {
                q.ne.lemma_no_leaves(domain, sq.quarter(Quadrant::NorthEast));
                q.nw.lemma_no_leaves(domain, sq.quarter(Quadrant::NorthWest));
                q.se.lemma_no_leaves(domain, sq.quarter(Quadrant::SouthEast));
                q.sw.lemma_no_leaves(domain, sq.quarter(Quadrant::SouthWest));
            },
        }
    }

    /// A leaf that is found on the way to a cell lies in that cell, carries
    /// mass and is inside the domain.
    pub proof fn lemma_lookup(self, domain: Domain, sq: Square, c: Cell)
        requires
            self.wf_in(domain, sq),
        ensures
            self.lookup(domain, sq, c) matches Some(b) ==> domain.cell_of(b.position) == c
                && b.mass > 0 && domain.contains(b.position),
        decreases self,
    {
        match self {
            Node::Internal(q) => {
                let o = sq.quadrant_of(c);
                q.child(o).lemma_lookup(domain, sq.quarter(o), c);
            },
            _ => {},
        }
    }

    /// A node with leaves has one that is found on the way to its own cell.
    pub proof fn lemma_some_leaf(self, domain: Domain, sq: Square) -> (b: Body)
        requires
            sq.wf(),
            self.wf_in(domain, sq),
            self.leaf_count() > 0,
        ensures
            domain.contains(b.position),
            self.lookup(domain, sq, domain.cell_of(b.position)) == Some(b),
        decreases self,
    {
        match self {
            Node::Empty => arbitrary(),
            Node::Leaf(b) => b,
            Node::Internal(q) => {
                let o = if q.ne.leaf_count() > 0 {
                    Quadrant::NorthEast
                } else if q.nw.leaf_count() > 0 {
                    Quadrant::NorthWest
                } else if q.se.leaf_count() > 0 {
                    Quadrant::SouthEast
                } else {
                    Quadrant::SouthWest
                };
                sq.lemma_quarter(o);
                let b = q.child(o).lemma_some_leaf(domain, sq.quarter(o));
                let c = domain.cell_of(b.position);
                q.child(o).lemma_lookup(domain, sq.quarter(o), c);
                q.child(o).lemma_leaf_in_block(domain, sq.quarter(o), c);
                sq.lemma_quarter_of(c, o);
                b
            },
        }
    }

    /// A block is halved once for every internal node on the way down, so
    /// no way down is longer than the block can be halved.
    pub proof fn lemma_height(self, domain: Domain, sq: Square)
        requires
            sq.wf(),
            self.wf_in(domain, sq),
        ensures
            two_to(self.height()) <= sq.side,
        decreases self,
    {
        match self {
            Node::Internal(q) => {
                q.lemma_children_wf(domain, sq);
                sq.lemma_quarter(Quadrant::NorthEast);
                sq.lemma_quarter(Quadrant::NorthWest);
                sq.lemma_quarter(Quadrant::SouthEast);
                sq.lemma_quarter(Quadrant::SouthWest);
                q.ne.lemma_height(domain, sq.quarter(Quadrant::NorthEast));
                q.nw.lemma_height(domain, sq.quarter(Quadrant::NorthWest));
                q.se.lemma_height(domain, sq.quarter(Quadrant::SouthEast));
                q.sw.lemma_height(domain, sq.quarter(Quadrant::SouthWest));
                assert(q.child(Quadrant::NorthEast) == q.ne);
            },
            _ => {},
        }
    }

    /// Number of internal nodes on the longest way down from this node.
    pub(crate) fn depth(&self, Ghost(domain): Ghost<Domain>, Ghost(sq): Ghost<Square>) -> (h: u32)
        requires
            sq.wf(),
            self.wf_in(domain, sq),
        ensures
            h == self.height(),
            h <= 32,
        decreases self,
    {
        proof {
            self.lemma_height(domain, sq);
            lemma_halvings(self.height(), sq.side);
        }
        match self {
            Node::Empty => 0,
            Node::Leaf(_) => 0,
            Node::Internal(q) => {
                proof {
                    q.lemma_children_wf(domain, sq);
                    sq.lemma_quarter(Quadrant::NorthEast);
                    sq.lemma_quarter(Quadrant::NorthWest);
                    sq.lemma_quarter(Quadrant::SouthEast);
                    sq.lemma_quarter(Quadrant::SouthWest);
                    assert(q.child(Quadrant::NorthEast) == q.ne);
                }
                let a: u32 = q.ne.depth(Ghost(domain), Ghost(sq.quarter(Quadrant::NorthEast)));
                let b: u32 = q.nw.depth(Ghost(domain), Ghost(sq.quarter(Quadrant::NorthWest)));
                let c: u32 = q.se.depth(Ghost(domain), Ghost(sq.quarter(Quadrant::SouthEast)));
                let d: u32 = q.sw.depth(Ghost(domain), Ghost(sq.quarter(Quadrant::SouthWest)));
                let ab: u32 = if a >= b {
                    a
                } else {
                    b
                };
                let cd: u32 = if c >= d {
                    c
                } else {
                    d
                };
                1 + if ab >= cd {
                    ab
                } else {
                    cd
                }
            },
        }
    }

    /// A node with two leaves or more has leaves in two cells.
    pub proof fn lemma_two_leaves(self, domain: Domain, sq: Square) -> (r: (Cell, Cell))
        requires
            sq.wf(),
            self.wf_in(domain, sq),
            self.leaf_count() >= 2,
        ensures
            r.0 != r.1,
            self.lookup(domain, sq, r.0) is Some,
            self.lookup(domain, sq, r.1) is Some,
        decreases self,
    {
        match self {
            Node::Internal(q) => {
                q.lemma_children_wf(domain, sq);
                let ne = Quadrant::NorthEast;
                let nw = Quadrant::NorthWest;
                let se = Quadrant::SouthEast;
                let sw = Quadrant::SouthWest;
                assert(self.leaf_count() == q.child(ne).leaf_count() + q.child(nw).leaf_count()
                    + q.child(se).leaf_count() + q.child(sw).leaf_count());
                let first = if q.child(ne).leaf_count() > 0 {
                    ne
                } else if q.child(nw).leaf_count() > 0 {
                    nw
                } else if q.child(se).leaf_count() > 0 {
                    se
                } else {
                    sw
                };
                sq.lemma_quarter(first);
                if q.child(first).leaf_count() >= 2 {
                    let r = q.child(first).lemma_two_leaves(domain, sq.quarter(first));
                    q.child(first).lemma_leaf_in_block(domain, sq.quarter(first), r.0);
                    q.child(first).lemma_leaf_in_block(domain, sq.quarter(first), r.1);
                    sq.lemma_quarter_of(r.0, first);
                    sq.lemma_quarter_of(r.1, first);
                    r
                } else {
                    let second = if first != nw && q.child(nw).leaf_count() > 0 {
                        nw
                    } else if first != se && q.child(se).leaf_count() > 0 {
                        se
                    } else {
                        sw
                    };
                    sq.lemma_quarter(second);
                    let a = q.child(first).lemma_some_leaf(domain, sq.quarter(first));
                    let b = q.child(second).lemma_some_leaf(domain, sq.quarter(second));
                    let ca = domain.cell_of(a.position);
                    let cb = domain.cell_of(b.position);
                    q.child(first).lemma_leaf_in_block(domain, sq.quarter(first), ca);
                    q.child(second).lemma_leaf_in_block(domain, sq.quarter(second), cb);
                    sq.lemma_quarter_of(ca, first);
                    sq.lemma_quarter_of(cb, second);
                    (ca, cb)
                }
            },
            _ => arbitrary(),
        }
    }

    /// The shape of a well-formed node follows from the leaves it holds:
    /// two nodes over one block that hold the same leaf in every cell are
    /// the same node.
    pub proof fn lemma_canonical(self, other: Node, domain: Domain, sq: Square)
        requires
            sq.wf(),
            self.wf_in(domain, sq),
            other.wf_in(domain, sq),
            forall|c: Cell| #[trigger] self.lookup(domain, sq, c) == other.lookup(domain, sq, c),
        ensures
            self == other,
        decreases self,
    {
        self.lemma_no_leaves(domain, sq);
        other.lemma_no_leaves(domain, sq);
        match self {
            Node::Empty => {
                if other.leaf_count() > 0 {
                    let b = other.lemma_some_leaf(domain, sq);
                    assert(self.lookup(domain, sq, domain.cell_of(b.position)) is None);
                }
            },
            Node::Leaf(x) => {
                let cx = domain.cell_of(x.position);
                assert(self.lookup(domain, sq, cx) == Some(x));
                match other {
                    Node::Empty => {
                        assert(other.lookup(domain, sq, cx) is None);
                    },
                    Node::Leaf(y) => {},
                    Node::Internal(_) => {
                        let r = other.lemma_two_leaves(domain, sq);
                        assert(self.lookup(domain, sq, r.0) is Some);
                        assert(self.lookup(domain, sq, r.1) is Some);
                    },
                }
            },
            Node::Internal(p) => {
                let r = self.lemma_two_leaves(domain, sq);
                assert(other.lookup(domain, sq, r.0) is Some);
                assert(other.lookup(domain, sq, r.1) is Some);
                match other {
                    Node::Internal(q) => {
                        p.lemma_children_wf(domain, sq);
                        q.lemma_children_wf(domain, sq);
                        assert forall|o: Quadrant| #[trigger] p.child(o) == q.child(o) by {
                            sq.lemma_quarter(o);
                            assert forall|c: Cell| #[trigger]
                                p.child(o).lookup(domain, sq.quarter(o), c) == q.child(o).lookup(
                                    domain,
                                    sq.quarter(o),
                                    c,
                                ) by {
                                sq.lemma_quarter_of(c, o);
                                if sq.quadrant_of(c) == o {
                                    assert(self.lookup(domain, sq, c) == p.child(o).lookup(
                                        domain,
                                        sq.quarter(o),
                                        c,
                                    ));
                                    assert(other.lookup(domain, sq, c) == q.child(o).lookup(
                                        domain,
                                        sq.quarter(o),
                                        c,
                                    ));
                                } else {
                                    if p.child(o).lookup(domain, sq.quarter(o), c) is Some {
                                        p.child(o).lemma_leaf_in_block(domain, sq.quarter(o), c);
                                    }
                                    if q.child(o).lookup(domain, sq.quarter(o), c) is Some {
                                        q.child(o).lemma_leaf_in_block(domain, sq.quarter(o), c);
                                    }
                                }
                            }
                            p.child(o).lemma_canonical(q.child(o), domain, sq.quarter(o));
                        }
                        assert(p.child(Quadrant::NorthEast) == q.child(Quadrant::NorthEast));
                        assert(p.child(Quadrant::NorthWest) == q.child(Quadrant::NorthWest));
                        assert(p.child(Quadrant::SouthEast) == q.child(Quadrant::SouthEast));
                        assert(p.child(Quadrant::SouthWest) == q.child(Quadrant::SouthWest));
                        assert(p.mass == q.mass && p.moment_x == q.moment_x && p.moment_y
                            == q.moment_y);
                        assert(*p == *q);
                    },
                    _ => {},
                }
            },
        }
    }

    /// A leaf is only ever found in the block that its node covers.
    pub proof fn lemma_leaf_in_block(self, domain: Domain, sq: Square, c: Cell)
        requires
            sq.wf(),
            self.wf_in(domain, sq),
            self.lookup(domain, sq, c) is Some,
        ensures
            sq.contains(c),
        decreases self,
    {
        match self {
            Node::Internal(q) => {
                let o = sq.quadrant_of(c);
                sq.lemma_quarter(o);
                q.child(o).lemma_leaf_in_block(domain, sq.quarter(o), c);
                sq.lemma_quarter_of(c, o);
            },
            _ => {},
        }
    }

    /// The mass-weighted mean position of what lies below this node, rounded
    /// down to the lattice on each axis.
    pub(crate) fn center(&self, Ghost(domain): Ghost<Domain>, Ghost(sq): Ghost<Square>) -> (c: Option<
        Point,
    >)
        requires
            self.wf_in(domain, sq),
            self.mass_sum() <= u64::MAX,
        ensures
            c is None <==> self.mass_sum() == 0,
            c matches Some(p) ==> p.x == self.moment_x_sum() / (self.mass_sum() as int) && p.y
                == self.moment_y_sum() / (self.mass_sum() as int),
    {
        let m: u64 = self.mass(Ghost(domain), Ghost(sq));
        if m == 0 {
            return None;
        }
        let (mx, my) = self.moments(Ghost(domain), Ghost(sq));
        proof {
            self.lemma_moment_bound();
            vstd::arithmetic::div_mod::lemma_multiply_divide_lt(
                mx as int,
                m as int,
                0x1_0000_0000,
            );
            vstd::arithmetic::div_mod::lemma_multiply_divide_lt(
                my as int,
                m as int,
                0x1_0000_0000,
            );
        }
        let x: u128 = mx / (m as u128);
        let y: u128 = my / (m as u128);
        Some(Point { x: x as u32, y: y as u32 })
    }

    /// Number of leaves below this node.
    pub(crate) fn count(&self, Ghost(domain): Ghost<Domain>, Ghost(sq): Ghost<Square>) -> (n: u64)
        requires
            self.wf_in(domain, sq),
            self.mass_sum() <= u64::MAX,
        ensures
            n == self.leaf_count(),
        decreases self,
    {
        match self {
            Node::Empty => 0,
            Node::Leaf(_) => 1,
            Node::Internal(q) => {
                proof {
                    q.ne.lemma_no_leaves(domain, sq.quarter(Quadrant::NorthEast));
                    q.nw.lemma_no_leaves(domain, sq.quarter(Quadrant::NorthWest));
                    q.se.lemma_no_leaves(domain, sq.quarter(Quadrant::SouthEast));
                    q.sw.lemma_no_leaves(domain, sq.quarter(Quadrant::SouthWest));
                }
                let a: u64 = q.ne.count(Ghost(domain), Ghost(sq.quarter(Quadrant::NorthEast)));
                let b: u64 = q.nw.count(Ghost(domain), Ghost(sq.quarter(Quadrant::NorthWest)));
                let c: u64 = q.se.count(Ghost(domain), Ghost(sq.quarter(Quadrant::SouthEast)));
                let d: u64 = q.sw.count(Ghost(domain), Ghost(sq.quarter(Quadrant::SouthWest)));
                a + b + c + d
            },
        }
    }

    /// Walks from this node, which covers `sq`, towards the cell `c`.
    pub(crate) fn find(&self, domain: &Domain, sq: Square, c: Cell) -> (leaf: Option<Body>)
        requires
            domain.wf(),
            sq.wf(),
            self.wf_in(*domain, sq),
        ensures
            leaf == self.lookup(*domain, sq, c),
        decreases self,
    {
        match self {
            Node::Empty => None,
            Node::Leaf(b) => {
                let there: Cell = domain.locate(b.position);
                if there == c {
                    Some(*b)
                } else {
                    None
                }
            },
            Node::Internal(q) => {
                let o: Quadrant = sq.quadrant(c);
                proof {
                    sq.lemma_quarter(o);
                }
                match o {
                    Quadrant::NorthEast => q.ne.find(domain, sq.quartered(o), c),
                    Quadrant::NorthWest => q.nw.find(domain, sq.quartered(o), c),
                    Quadrant::SouthEast => q.se.find(domain, sq.quartered(o), c),
                    Quadrant::SouthWest => q.sw.find(domain, sq.quartered(o), c),
                }
            },
        }
    }

    /// A copy of the node and all below it.
    pub(crate) fn duplicate(&self) -> (r: Node)
        ensures
            r == *self,
        decreases self,
    {
        match self {
            Node::Empty => Node::Empty,
            Node::Leaf(b) => Node::Leaf(*b),
            Node::Internal(q) => Node::Internal(
                Box::new(
                    Quad {
                        mass: q.mass,
                        moment_x: q.moment_x,
                        moment_y: q.moment_y,
                        ne: q.ne.duplicate(),
                        nw: q.nw.duplicate(),
                        se: q.se.duplicate(),
                        sw: q.sw.duplicate(),
                    },
                ),
            ),
        }
    }

    /// Total mass below this node.
    pub(crate) fn mass(&self, Ghost(domain): Ghost<Domain>, Ghost(sq): Ghost<Square>) -> (m: u64)
        requires
            self.wf_in(domain, sq),
            self.mass_sum() <= u64::MAX,
        ensures
            m == self.mass_sum(),
    {
        match self {
            Node::Empty => 0,
            Node::Leaf(b) => b.mass,
            Node::Internal(q) => q.mass,
        }
    }

    /// Total moments below this node.
    pub(crate) fn moments(&self, Ghost(domain): Ghost<Domain>, Ghost(sq): Ghost<Square>) -> (m: (
        u128,
        u128,
    ))
        requires
            self.wf_in(domain, sq),
            self.mass_sum() <= u64::MAX,
        ensures
            m.0 == self.moment_x_sum(),
            m.1 == self.moment_y_sum(),
    {
        match self {
            Node::Empty => (0, 0),
            Node::Leaf(b) => {
                assert(b.mass * b.position.x <= 0xFFFF_FFFF_FFFF_FFFF * 0xFFFF_FFFF
                    && b.mass * b.position.y <= 0xFFFF_FFFF_FFFF_FFFF * 0xFFFF_FFFF)
                    by (nonlinear_arith)
                    requires
                        b.mass <= 0xFFFF_FFFF_FFFF_FFFF,
                        b.position.x <= 0xFFFF_FFFF,
                        b.position.y <= 0xFFFF_FFFF,
                ;
                ((b.mass as u128) * (b.position.x as u128), (b.mass as u128) * (b.position.y as u128))
            },
            Node::Internal(q) => (q.moment_x, q.moment_y),
        }
    }
}

/// `after` holds what `before` holds and the body that arrived in `cell`.
#[verifier::opaque]
pub open spec fn placed(
    before: Node,
    after: Node,
    domain: Domain,
    sq: Square,
    body: Body,
    cell: Cell,
    incoming_first: bool,
) -> bool {
    forall|c: Cell|
        #[trigger] after.lookup(domain, sq, c) == if c == cell {
            Some(settle(before.lookup(domain, sq, cell), body, incoming_first))
        } else {
            before.lookup(domain, sq, c)
        }
}

/// A body placed below one child of an internal node is placed below the
/// node.
proof fn lemma_placed_below(
    before: Quad,
    after: Quad,
    domain: Domain,
    sq: Square,
    q: Quadrant,
    body: Body,
    cell: Cell,
    incoming_first: bool,
)
    requires
        sq.wf(),
        sq.side >= 2,
        sq.quadrant_of(cell) == q,
        forall|o: Quadrant| o != q ==> #[trigger] after.child(o) == before.child(o),
        placed(before.child(q), after.child(q), domain, sq.quarter(q), body, cell, incoming_first),
    ensures
        placed(
            Node::Internal(Box::new(before)),
            Node::Internal(Box::new(after)),
            domain,
            sq,
            body,
            cell,
            incoming_first,
        ),
{
    reveal(placed);
    let b = Node::Internal(Box::new(before));
    let a = Node::Internal(Box::new(after));
    assert forall|c: Cell|
        #[trigger] a.lookup(domain, sq, c) == if c == cell {
            Some(settle(b.lookup(domain, sq, cell), body, incoming_first))
        } else {
            b.lookup(domain, sq, c)
        } by {
        let o = sq.quadrant_of(c);
        assert(a.lookup(domain, sq, c) == after.child(o).lookup(domain, sq.quarter(o), c));
        assert(b.lookup(domain, sq, c) == before.child(o).lookup(domain, sq.quarter(o), c));
        assert(b.lookup(domain, sq, cell) == before.child(q).lookup(domain, sq.quarter(q), cell));
        if o == q {
        } else {
            assert(after.child(o) == before.child(o));
        }
    }
}

/// A leaf and a body in another cell, set side by side under a new internal
/// node.
proof fn lemma_placed_beside(
    resident: Body,
    after: Quad,
    domain: Domain,
    sq: Square,
    body: Body,
    cell: Cell,
    incoming_first: bool,
)
    requires
        sq.wf(),
        sq.side >= 2,
        cell == domain.cell_of(body.position),
        domain.cell_of(resident.position) != cell,
        sq.quadrant_of(domain.cell_of(resident.position)) != sq.quadrant_of(cell),
        after.child(sq.quadrant_of(domain.cell_of(resident.position))) == Node::Leaf(resident),
        after.child(sq.quadrant_of(cell)) == Node::Leaf(body),
        forall|o: Quadrant|
            o != sq.quadrant_of(cell) && o != sq.quadrant_of(domain.cell_of(resident.position))
                ==> #[trigger] after.child(o) is Empty,
    ensures
        placed(
            Node::Leaf(resident),
            Node::Internal(Box::new(after)),
            domain,
            sq,
            body,
            cell,
            incoming_first,
        ),
{
    reveal(placed);
    let b = Node::Leaf(resident);
    let a = Node::Internal(Box::new(after));
    assert forall|c: Cell|
        #[trigger] a.lookup(domain, sq, c) == if c == cell {
            Some(settle(b.lookup(domain, sq, cell), body, incoming_first))
        } else {
            b.lookup(domain, sq, c)
        } by {
        let o = sq.quadrant_of(c);
        assert(a.lookup(domain, sq, c) == after.child(o).lookup(domain, sq.quarter(o), c));
    }
}

/// A leaf and a body in another cell of the same quarter, set under a new
/// internal node whose only child holds both.
proof fn lemma_placed_under(
    resident: Body,
    after: Quad,
    domain: Domain,
    sq: Square,
    q: Quadrant,
    body: Body,
    cell: Cell,
    incoming_first: bool,
)
    requires
        sq.wf(),
        sq.side >= 2,
        sq.quadrant_of(cell) == q,
        sq.quadrant_of(domain.cell_of(resident.position)) == q,
        forall|o: Quadrant| o != q ==> #[trigger] after.child(o) is Empty,
        placed(
            Node::Leaf(resident),
            after.child(q),
            domain,
            sq.quarter(q),
            body,
            cell,
            incoming_first,
        ),
    ensures
        placed(
            Node::Leaf(resident),
            Node::Internal(Box::new(after)),
            domain,
            sq,
            body,
            cell,
            incoming_first,
        ),
{
    reveal(placed);
    let b = Node::Leaf(resident);
    let a = Node::Internal(Box::new(after));
    assert forall|c: Cell|
        #[trigger] a.lookup(domain, sq, c) == if c == cell {
            Some(settle(b.lookup(domain, sq, cell), body, incoming_first))
        } else {
            b.lookup(domain, sq, c)
        } by {
        let o = sq.quadrant_of(c);
        assert(a.lookup(domain, sq, c) == after.child(o).lookup(domain, sq.quarter(o), c));
        if o == q {
            assert(b.lookup(domain, sq.quarter(q), c) == b.lookup(domain, sq, c));
            assert(b.lookup(domain, sq.quarter(q), cell) == b.lookup(domain, sq, cell));
        } else {
            assert(after.child(o) is Empty);
        }
    }
}

impl Quad {
    /// Mass below the four children.
    pub open spec fn mass_sum(self) -> nat {
        Node::Internal(Box::new(self)).mass_sum()
    }

    /// Moment about the `y` axis below the four children.
    pub open spec fn moment_x_sum(self) -> int {
        Node::Internal(Box::new(self)).moment_x_sum()
    }

    /// Moment about the `x` axis below the four children.
    pub open spec fn moment_y_sum(self) -> int {
        Node::Internal(Box::new(self)).moment_y_sum()
    }

    /// Leaves below the four children.
    pub open spec fn leaf_count(self) -> nat {
        Node::Internal(Box::new(self)).leaf_count()
    }

    /// The children of a well-formed internal node are well formed, each in
    /// its quarter.
    pub proof fn lemma_children_wf(self, domain: Domain, sq: Square)
        requires
            Node::Internal(Box::new(self)).wf_in(domain, sq),
        ensures
            forall|o: Quadrant| #[trigger] self.child(o).wf_in(domain, sq.quarter(o)),
            self.mass == self.mass_sum(),
            self.moment_x == self.moment_x_sum(),
            self.moment_y == self.moment_y_sum(),
            self.leaf_count() >= 2,
            sq.side >= 2,
    {
        assert forall|o: Quadrant| #[trigger] self.child(o).wf_in(domain, sq.quarter(o)) by {
            match o {
                Quadrant::NorthEast => {},
                Quadrant::NorthWest => {},
                Quadrant::SouthEast => {},
                Quadrant::SouthWest => {},
            }
        }
    }

    /// Replacing a child changes each total by the difference between the
    /// new child and the old.
    proof fn lemma_with_child(self, q: Quadrant, node: Node)
        ensures
            self.with_child(q, node).child(q) == node,
            forall|o: Quadrant| o != q ==> #[trigger] self.with_child(q, node).child(o) == self.child(o),
            self.with_child(q, node).mass_sum() == self.mass_sum() - self.child(q).mass_sum()
                + node.mass_sum(),
            self.with_child(q, node).moment_x_sum() == self.moment_x_sum() - self.child(
                q,
            ).moment_x_sum() + node.moment_x_sum(),
            self.with_child(q, node).moment_y_sum() == self.moment_y_sum() - self.child(
                q,
            ).moment_y_sum() + node.moment_y_sum(),
            self.with_child(q, node).leaf_count() == self.leaf_count() - self.child(
                q,
            ).leaf_count() + node.leaf_count(),
    {
        match q {
            Quadrant::NorthEast => {},
            Quadrant::NorthWest => {},
            Quadrant::SouthEast => {},
            Quadrant::SouthWest => {},
        }
    }

    /// Four children with the totals still to be filled in.
    fn hollow() -> (r: Quad)
        ensures
            r.ne is Empty,
            r.nw is Empty,
            r.se is Empty,
            r.sw is Empty,
            forall|o: Quadrant| #[trigger] r.child(o) is Empty,
            r.mass_sum() == 0,
            r.moment_x_sum() == 0,
            r.moment_y_sum() == 0,
            r.leaf_count() == 0,
    {
        assert(Node::Empty.mass_sum() == 0 && Node::Empty.moment_x_sum() == 0
            && Node::Empty.moment_y_sum() == 0 && Node::Empty.leaf_count() == 0);
        Quad {
            mass: 0,
            moment_x: 0,
            moment_y: 0,
            ne: Node::Empty,
            nw: Node::Empty,
            se: Node::Empty,
            sw: Node::Empty,
        }
    }

    /// Takes one child out, leaving the empty node in its place.
    fn take(&mut self, q: Quadrant) -> (node: Node)
        ensures
            node == old(self).child(q),
            *final(self) == old(self).with_child(q, Node::Empty),
            final(self).child(q) is Empty,
            forall|o: Quadrant| o != q ==> #[trigger] final(self).child(o) == old(self).child(o),
            final(self).mass_sum() == old(self).mass_sum() - node.mass_sum(),
            final(self).moment_x_sum() == old(self).moment_x_sum() - node.moment_x_sum(),
            final(self).moment_y_sum() == old(self).moment_y_sum() - node.moment_y_sum(),
            final(self).leaf_count() == old(self).leaf_count() - node.leaf_count(),
    {
        proof {
            self.lemma_with_child(q, Node::Empty);
        }
        let mut node = Node::Empty;
        match q {
            Quadrant::NorthEast => std::mem::swap(&mut self.ne, &mut node),
            Quadrant::NorthWest => std::mem::swap(&mut self.nw, &mut node),
            Quadrant::SouthEast => std::mem::swap(&mut self.se, &mut node),
            Quadrant::SouthWest => std::mem::swap(&mut self.sw, &mut node),
        }
        node
    }

    /// Puts a child in place.
    fn put(&mut self, q: Quadrant, node: Node)
        ensures
            *final(self) == old(self).with_child(q, node),
            final(self).child(q) == node,
            forall|o: Quadrant| o != q ==> #[trigger] final(self).child(o) == old(self).child(o),
            final(self).mass_sum() == old(self).mass_sum() - old(self).child(q).mass_sum()
                + node.mass_sum(),
            final(self).moment_x_sum() == old(self).moment_x_sum() - old(self).child(
                q,
            ).moment_x_sum() + node.moment_x_sum(),
            final(self).moment_y_sum() == old(self).moment_y_sum() - old(self).child(
                q,
            ).moment_y_sum() + node.moment_y_sum(),
            final(self).leaf_count() == old(self).leaf_count() - old(self).child(q).leaf_count()
                + node.leaf_count(),
    {
        proof {
            self.lemma_with_child(q, node);
        }
        match q {
            Quadrant::NorthEast => self.ne = node,
            Quadrant::NorthWest => self.nw = node,
            Quadrant::SouthEast => self.se = node,
            Quadrant::SouthWest => self.sw = node,
        }
    }

    /// Recomputes the totals from the four children and closes the node.
    pub(crate) fn seal(self, Ghost(domain): Ghost<Domain>, Ghost(sq): Ghost<Square>) -> (r: Node)
        requires
            sq.wf(),
            sq.side >= 2,
            forall|o: Quadrant| #[trigger] self.child(o).wf_in(domain, sq.quarter(o)),
            self.leaf_count() >= 2,
            self.mass_sum() <= u64::MAX,
        ensures
            r.wf_in(domain, sq),
            r matches Node::Internal(q) && q.ne == self.ne && q.nw == self.nw && q.se == self.se
                && q.sw == self.sw,
            r.mass_sum() == self.mass_sum(),
            r.moment_x_sum() == self.moment_x_sum(),
            r.moment_y_sum() == self.moment_y_sum(),
            r.leaf_count() == self.leaf_count(),
    {
        let ghost ne_sq = sq.quarter(Quadrant::NorthEast);
        let ghost nw_sq = sq.quarter(Quadrant::NorthWest);
        let ghost se_sq = sq.quarter(Quadrant::SouthEast);
        let ghost sw_sq = sq.quarter(Quadrant::SouthWest);
        proof {
            assert(self.child(Quadrant::NorthEast).wf_in(domain, ne_sq));
            assert(self.child(Quadrant::NorthWest).wf_in(domain, nw_sq));
            assert(self.child(Quadrant::SouthEast).wf_in(domain, se_sq));
            assert(self.child(Quadrant::SouthWest).wf_in(domain, sw_sq));
            assert(self.mass_sum() == self.ne.mass_sum() + self.nw.mass_sum() + self.se.mass_sum()
                + self.sw.mass_sum());
            assert(self.moment_x_sum() == self.ne.moment_x_sum() + self.nw.moment_x_sum()
                + self.se.moment_x_sum() + self.sw.moment_x_sum());
            assert(self.moment_y_sum() == self.ne.moment_y_sum() + self.nw.moment_y_sum()
                + self.se.moment_y_sum() + self.sw.moment_y_sum());
            assert(self.leaf_count() == self.ne.leaf_count() + self.nw.leaf_count()
                + self.se.leaf_count() + self.sw.leaf_count());
            self.ne.lemma_moment_bound();
            self.nw.lemma_moment_bound();
            self.se.lemma_moment_bound();
            self.sw.lemma_moment_bound();
        }
        let mass: u64 = self.ne.mass(Ghost(domain), Ghost(ne_sq)) + self.nw.mass(
            Ghost(domain),
            Ghost(nw_sq),
        ) + self.se.mass(Ghost(domain), Ghost(se_sq)) + self.sw.mass(Ghost(domain), Ghost(sw_sq));
        let a: (u128, u128) = self.ne.moments(Ghost(domain), Ghost(ne_sq));
        let b: (u128, u128) = self.nw.moments(Ghost(domain), Ghost(nw_sq));
        let c: (u128, u128) = self.se.moments(Ghost(domain), Ghost(se_sq));
        let d: (u128, u128) = self.sw.moments(Ghost(domain), Ghost(sw_sq));
        Node::Internal(
            Box::new(
                Quad {
                    mass,
                    moment_x: a.0 + b.0 + c.0 + d.0,
                    moment_y: a.1 + b.1 + c.1 + d.1,
                    ne: self.ne,
                    nw: self.nw,
                    se: self.se,
                    sw: self.sw,
                },
            ),
        )
    }
}

impl Node {
    /// Adds a body below this node, which covers the block `sq`. A body that
    /// lands in an occupied cell is fused with the leaf there; otherwise the
    /// block is quartered until the two are apart.
    pub(crate) fn place(
        self,
        domain: &Domain,
        sq: Square,
        body: Body,
        cell: Cell,
        incoming_first: bool,
    ) -> (r: Node)
        requires
            domain.wf(),
            sq.wf(),
            self.wf_in(*domain, sq),
            body.mass > 0,
            domain.contains(body.position),
            cell == domain.cell_of(body.position),
            sq.contains(cell),
            self.mass_sum() + body.mass <= u64::MAX,
        ensures
            r.wf_in(*domain, sq),
            r.mass_sum() == self.mass_sum() + body.mass,
            r.moment_x_sum() == self.moment_x_sum() + body.mass * body.position.x,
            r.moment_y_sum() == self.moment_y_sum() + body.mass * body.position.y,
            r.leaf_count() == self.leaf_count() + if self.lookup(*domain, sq, cell) is None {
                1nat
            } else {
                0nat
            },
            r.leaf_count() >= 1,
            placed(self, r, *domain, sq, body, cell, incoming_first),
        decreases sq.side, 1nat,
    {
        match self {
            Node::Empty => {
                proof {
                    reveal(placed);
                }
                Node::Leaf(body)
            },
            Node::Leaf(resident) => {
                let there: Cell = domain.locate(resident.position);
                if there == cell {
                    proof {
                        reveal(placed);
                        domain.lemma_cell_of_injective(resident.position, body.position);
                        assert((resident.mass + body.mass) * body.position.x == resident.mass
                            * body.position.x + body.mass * body.position.x
                            && (resident.mass + body.mass) * body.position.y == resident.mass
                            * body.position.y + body.mass * body.position.y) by (nonlinear_arith);
                    }
                    if incoming_first {
                        Node::Leaf(
                            Body {
                                id: body.id,
                                mass: body.mass + resident.mass,
                                position: body.position,
                            },
                        )
                    } else {
                        Node::Leaf(
                            Body {
                                id: resident.id,
                                mass: resident.mass + body.mass,
                                position: resident.position,
                            },
                        )
                    }
                } else {
                    Node::split(resident, there, domain, sq, body, cell, incoming_first)
                }
            },
            Node::Internal(boxed) => {
                let quad: Quad = *boxed;
                Node::grow(quad, domain, sq, body, cell, incoming_first)
            },
        }
    }

    /// Turns a leaf into an internal node that holds the leaf and a body
    /// from another cell.
    fn split(
        resident: Body,
        there: Cell,
        domain: &Domain,
        sq: Square,
        body: Body,
        cell: Cell,
        incoming_first: bool,
    ) -> (r: Node)
        requires
            domain.wf(),
            sq.wf(),
            Node::Leaf(resident).wf_in(*domain, sq),
            there == domain.cell_of(resident.position),
            there != cell,
            body.mass > 0,
            domain.contains(body.position),
            cell == domain.cell_of(body.position),
            sq.contains(cell),
            resident.mass + body.mass <= u64::MAX,
        ensures
            r.wf_in(*domain, sq),
            r.mass_sum() == resident.mass + body.mass,
            r.moment_x_sum() == resident.mass * resident.position.x + body.mass * body.position.x,
            r.moment_y_sum() == resident.mass * resident.position.y + body.mass * body.position.y,
            r.leaf_count() == 2,
            placed(Node::Leaf(resident), r, *domain, sq, body, cell, incoming_first),
        decreases sq.side, 0nat,
    {
        let q_there: Quadrant = sq.quadrant(there);
        let q_cell: Quadrant = sq.quadrant(cell);
        proof {
            sq.lemma_quarter(q_there);
            sq.lemma_quarter(q_cell);
            sq.lemma_quarter_of(there, q_there);
            sq.lemma_quarter_of(cell, q_cell);
        }
        proof {
            assert(Node::Leaf(resident).moment_x_sum() == resident.mass * resident.position.x);
            assert(Node::Leaf(resident).moment_y_sum() == resident.mass * resident.position.y);
            assert(Node::Leaf(body).moment_x_sum() == body.mass * body.position.x);
            assert(Node::Leaf(body).moment_y_sum() == body.mass * body.position.y);
            assert(Node::Leaf(resident).leaf_count() == 1 && Node::Leaf(body).leaf_count() == 1);
            assert(Node::Leaf(resident).mass_sum() == resident.mass && Node::Leaf(body).mass_sum()
                == body.mass);
            assert(Node::Leaf(resident).lookup(*domain, sq.quarter(q_cell), cell) is None);
        }
        let mut quad = Quad::hollow();
        if q_there == q_cell {
            let below = Node::Leaf(resident).place(
                domain,
                sq.quartered(q_cell),
                body,
                cell,
                incoming_first,
            );
            quad.put(q_cell, below);
            proof {
                lemma_placed_under(resident, quad, *domain, sq, q_cell, body, cell, incoming_first);
                assert forall|o: Quadrant| #[trigger]
                    quad.child(o).wf_in(*domain, sq.quarter(o)) by {
                    if o != q_cell {
                        assert(quad.child(o) is Empty);
                    }
                }
            }
        } else {
            quad.put(q_there, Node::Leaf(resident));
            quad.put(q_cell, Node::Leaf(body));
            proof {
                lemma_placed_beside(resident, quad, *domain, sq, body, cell, incoming_first);
                assert forall|o: Quadrant| #[trigger]
                    quad.child(o).wf_in(*domain, sq.quarter(o)) by {
                    if o != q_cell && o != q_there {
                        assert(quad.child(o) is Empty);
                    }
                }
            }
        }
        let ghost filled = quad;
        let r = quad.seal(Ghost(*domain), Ghost(sq));
        proof {
            lemma_same_lookup(filled, r, *domain, sq);
            lemma_placed_same(Node::Leaf(resident), filled, r, *domain, sq, body, cell, incoming_first);
        }
        r
    }

    /// Adds a body below an internal node.
    fn grow(
        quad: Quad,
        domain: &Domain,
        sq: Square,
        body: Body,
        cell: Cell,
        incoming_first: bool,
    ) -> (r: Node)
        requires
            domain.wf(),
            sq.wf(),
            Node::Internal(Box::new(quad)).wf_in(*domain, sq),
            body.mass > 0,
            domain.contains(body.position),
            cell == domain.cell_of(body.position),
            sq.contains(cell),
            Node::Internal(Box::new(quad)).mass_sum() + body.mass <= u64::MAX,
        ensures
            r.wf_in(*domain, sq),
            r.mass_sum() == Node::Internal(Box::new(quad)).mass_sum() + body.mass,
            r.moment_x_sum() == Node::Internal(Box::new(quad)).moment_x_sum() + body.mass
                * body.position.x,
            r.moment_y_sum() == Node::Internal(Box::new(quad)).moment_y_sum() + body.mass
                * body.position.y,
            r.leaf_count() == Node::Internal(Box::new(quad)).leaf_count() + if Node::Internal(
                Box::new(quad),
            ).lookup(*domain, sq, cell) is None {
                1nat
            } else {
                0nat
            },
            placed(Node::Internal(Box::new(quad)), r, *domain, sq, body, cell, incoming_first),
        decreases sq.side, 0nat,
    {
        let mut quad = quad;
        let ghost before = quad;
        let q: Quadrant = sq.quadrant(cell);
        proof {
            sq.lemma_quarter(q);
            sq.lemma_quarter_of(cell, q);
            before.lemma_children_wf(*domain, sq);
            assert(Node::Internal(Box::new(before)).lookup(*domain, sq, cell) == before.child(
                q,
            ).lookup(*domain, sq.quarter(q), cell));
        }
        let child = quad.take(q);
        let grown = child.place(domain, sq.quartered(q), body, cell, incoming_first);
        quad.put(q, grown);
        let ghost filled = quad;
        proof {
            lemma_placed_below(before, filled, *domain, sq, q, body, cell, incoming_first);
            assert forall|o: Quadrant| #[trigger] filled.child(o).wf_in(*domain, sq.quarter(o)) by {
                if o != q {
                    assert(filled.child(o) == before.child(o));
                }
            }
        }
        let r = quad.seal(Ghost(*domain), Ghost(sq));
        proof {
            lemma_same_lookup(filled, r, *domain, sq);
            lemma_placed_same(
                Node::Internal(Box::new(before)),
                filled,
                r,
                *domain,
                sq,
                body,
                cell,
                incoming_first,
            );
        }
        r
    }
}

/// Placement is a statement about what a node holds, so it carries over to
/// a node with the same children.
proof fn lemma_placed_same(
    before: Node,
    quad: Quad,
    node: Node,
    domain: Domain,
    sq: Square,
    body: Body,
    cell: Cell,
    incoming_first: bool,
)
    requires
        placed(before, Node::Internal(Box::new(quad)), domain, sq, body, cell, incoming_first),
        forall|c: Cell|
            #[trigger] node.lookup(domain, sq, c) == Node::Internal(Box::new(quad)).lookup(
                domain,
                sq,
                c,
            ),
    ensures
        placed(before, node, domain, sq, body, cell, incoming_first),
{
    reveal(placed);
}

/// What an internal node holds depends on its children alone, not on the
/// totals it records.
proof fn lemma_same_lookup(quad: Quad, node: Node, domain: Domain, sq: Square)
    requires
        node matches Node::Internal(q) && q.ne == quad.ne && q.nw == quad.nw && q.se == quad.se
            && q.sw == quad.sw,
    ensures
        forall|c: Cell|
            #[trigger] node.lookup(domain, sq, c) == Node::Internal(Box::new(quad)).lookup(
                domain,
                sq,
                c,
            ),
        node.leaf_count() == Node::Internal(Box::new(quad)).leaf_count(),
        node.mass_sum() == Node::Internal(Box::new(quad)).mass_sum(),
        node.moment_x_sum() == Node::Internal(Box::new(quad)).moment_x_sum(),
        node.moment_y_sum() == Node::Internal(Box::new(quad)).moment_y_sum(),
{
}

/// `r` holds, cell by cell, what `a` and `b` hold together.
#[verifier::opaque]
pub open spec fn merged(a: Node, b: Node, r: Node, domain: Domain, sq: Square) -> bool {
    forall|c: Cell|
        #[trigger] r.lookup(domain, sq, c) == join(a.lookup(domain, sq, c), b.lookup(domain, sq, c))
}

/// Placing the body of a leaf after what a node holds merges the two.
proof fn lemma_placed_after(a: Node, body: Body, r: Node, domain: Domain, sq: Square)
    requires
        placed(a, r, domain, sq, body, domain.cell_of(body.position), false),
    ensures
        merged(a, Node::Leaf(body), r, domain, sq),
{
    reveal(placed);
    reveal(merged);
}

/// Placing the body of a leaf ahead of what a node holds merges the two.
proof fn lemma_placed_ahead(body: Body, b: Node, r: Node, domain: Domain, sq: Square)
    requires
        placed(b, r, domain, sq, body, domain.cell_of(body.position), true),
    ensures
        merged(Node::Leaf(body), b, r, domain, sq),
{
    reveal(placed);
    reveal(merged);
}

/// Internal nodes whose children are merged pairwise are merged.
proof fn lemma_merged_quads(a: Quad, b: Quad, r: Node, domain: Domain, sq: Square)
    requires
        r matches Node::Internal(q) && merged(
            a.ne,
            b.ne,
            q.ne,
            domain,
            sq.quarter(Quadrant::NorthEast),
        ) && merged(a.nw, b.nw, q.nw, domain, sq.quarter(Quadrant::NorthWest)) && merged(
            a.se,
            b.se,
            q.se,
            domain,
            sq.quarter(Quadrant::SouthEast),
        ) && merged(a.sw, b.sw, q.sw, domain, sq.quarter(Quadrant::SouthWest)),
    ensures
        merged(Node::Internal(Box::new(a)), Node::Internal(Box::new(b)), r, domain, sq),
{
    reveal(merged);
    let na = Node::Internal(Box::new(a));
    let nb = Node::Internal(Box::new(b));
    assert forall|c: Cell|
        #[trigger] r.lookup(domain, sq, c) == join(
            na.lookup(domain, sq, c),
            nb.lookup(domain, sq, c),
        ) by {
        let o = sq.quadrant_of(c);
        assert(na.lookup(domain, sq, c) == a.child(o).lookup(domain, sq.quarter(o), c));
        assert(nb.lookup(domain, sq, c) == b.child(o).lookup(domain, sq.quarter(o), c));
        match r {
            Node::Internal(q) => {
                assert(r.lookup(domain, sq, c) == q.child(o).lookup(domain, sq.quarter(o), c));
            },
            _ => {},
        }
    }
}

impl Node {
    /// Combines two nodes that cover the same block into one that holds the
    /// leaves of both. Where both hold a leaf in one cell, the two are fused
    /// and the leaf of `self` counts as the first.
    pub(crate) fn merge(self, other: Node, domain: &Domain, sq: Square) -> (r: Node)
        requires
            domain.wf(),
            sq.wf(),
            self.wf_in(*domain, sq),
            other.wf_in(*domain, sq),
            self.mass_sum() + other.mass_sum() <= u64::MAX,
        ensures
            r.wf_in(*domain, sq),
            r.mass_sum() == self.mass_sum() + other.mass_sum(),
            r.moment_x_sum() == self.moment_x_sum() + other.moment_x_sum(),
            r.moment_y_sum() == self.moment_y_sum() + other.moment_y_sum(),
            r.leaf_count() >= self.leaf_count(),
            r.leaf_count() >= other.leaf_count(),
            merged(self, other, r, *domain, sq),
        decreases sq.side,
    {
        match (self, other) {
            (Node::Empty, b) => {
                proof {
                    reveal(merged);
                }
                b
            },
            (a, Node::Empty) => {
                proof {
                    reveal(merged);
                }
                a
            },
            (a, Node::Leaf(y)) => {
                let cell: Cell = domain.locate(y.position);
                let r = a.place(domain, sq, y, cell, false);
                proof {
                    lemma_placed_after(a, y, r, *domain, sq);
                }
                r
            },
            (Node::Leaf(x), b) => {
                let cell: Cell = domain.locate(x.position);
                let r = b.place(domain, sq, x, cell, true);
                proof {
                    lemma_placed_ahead(x, b, r, *domain, sq);
                }
                r
            },
            (Node::Internal(boxed_a), Node::Internal(boxed_b)) => {
                let qa: Quad = *boxed_a;
                let qb: Quad = *boxed_b;
                proof {
                    sq.lemma_quarter(Quadrant::NorthEast);
                    sq.lemma_quarter(Quadrant::NorthWest);
                    sq.lemma_quarter(Quadrant::SouthEast);
                    sq.lemma_quarter(Quadrant::SouthWest);
                }
                let ne = qa.ne.merge(qb.ne, domain, sq.quartered(Quadrant::NorthEast));
                let nw = qa.nw.merge(qb.nw, domain, sq.quartered(Quadrant::NorthWest));
                let se = qa.se.merge(qb.se, domain, sq.quartered(Quadrant::SouthEast));
                let sw = qa.sw.merge(qb.sw, domain, sq.quartered(Quadrant::SouthWest));
                let joined = Quad { mass: 0, moment_x: 0, moment_y: 0, ne, nw, se, sw };
                proof {
                    assert forall|o: Quadrant| #[trigger]
                        joined.child(o).wf_in(*domain, sq.quarter(o)) by {
                        match o {
                            Quadrant::NorthEast => {},
                            Quadrant::NorthWest => {},
                            Quadrant::SouthEast => {},
                            Quadrant::SouthWest => {},
                        }
                    }
                }
                let r = joined.seal(Ghost(*domain), Ghost(sq));
                proof {
                    lemma_merged_quads(qa, qb, r, *domain, sq);
                }
                r
            },
        }
    }
}

} // verus!
