//! The spatial tree: a square domain and the bodies placed in it.

use vstd::prelude::*;
use crate::body::{fuse, settle, Body};
use crate::geometry::{Cell, Domain, Point};
use crate::grid::{halves_evenly, Quadrant, Square, GRID_SIDE};
use crate::node::{merged, placed, Node, Quad};

verus! {

/// A quad-tree over a square domain.
///
/// Seen from outside, a tree is a finite map from the occupied points of the
/// lattice to the leaf at each: the identity of the body that came there
/// first and the mass of all that came. Bodies without mass are never held.
#[derive(Debug, PartialEq, Eq)]
pub struct TreeNode {
    domain: Domain,
    root: Node,
}

impl Clone for TreeNode {
    /// A copy of the tree, node for node.
    fn clone(&self) -> (r: Self)
        ensures
            r == *self,
    {
        TreeNode { domain: self.domain, root: self.root.duplicate() }
    }
}

/// What two trees hold together: the leaves of both, fused where both hold
/// one at the same point, with the leaf of the first tree as the first.
pub open spec fn union_of(a: Map<Point, Body>, b: Map<Point, Body>) -> Map<Point, Body> {
    Map::new(
        |p: Point| a.contains_key(p) || b.contains_key(p),
        |p: Point|
            if a.contains_key(p) && b.contains_key(p) {
                fuse(a[p], b[p])
            } else if a.contains_key(p) {
                a[p]
            } else {
                b[p]
            },
    )
}

/// The leaf at `p` in a map of leaves, if there is one.
pub open spec fn leaf_in(leaves: Map<Point, Body>, p: Point) -> Option<Body> {
    if leaves.contains_key(p) {
        Some(leaves[p])
    } else {
        None
    }
}

/// What a tree holds once a body has been inserted: a body without mass
/// changes nothing, a body at a free point becomes the leaf there, and a
/// body at an occupied point adds its mass to the leaf there.
pub open spec fn absorb(leaves: Map<Point, Body>, body: Body) -> Map<Point, Body> {
    if body.mass == 0 {
        leaves
    } else {
        leaves.insert(body.position, settle(leaf_in(leaves, body.position), body, false))
    }
}

/// Merging in either order gives leaves at the same points with the same
/// masses. Where only one of the two holds a leaf the order does not show
/// at all; where both do, it decides which of the two leaves keeps its
/// identity.
pub proof fn lemma_union_commutes(a: Map<Point, Body>, b: Map<Point, Body>)
    ensures
        union_of(a, b).dom() == union_of(b, a).dom(),
        forall|p: Point| #[trigger]
            union_of(a, b).contains_key(p) ==> union_of(a, b)[p].mass == union_of(b, a)[p].mass,
        forall|p: Point|
            a.contains_key(p) != b.contains_key(p) ==> #[trigger] union_of(a, b)[p] == union_of(
                b,
                a,
            )[p],
{
    assert(union_of(a, b).dom() =~= union_of(b, a).dom());
}

/// Merging three in either grouping gives the same, as long as no point
/// gathers more mass than `u64::MAX`.
pub proof fn lemma_union_associates(
    a: Map<Point, Body>,
    b: Map<Point, Body>,
    c: Map<Point, Body>,
)
    requires
        forall|p: Point|
            a.contains_key(p) && b.contains_key(p) && c.contains_key(p) ==> (#[trigger] a[p]).mass
                + b[p].mass + c[p].mass <= u64::MAX,
    ensures
        union_of(union_of(a, b), c) == union_of(a, union_of(b, c)),
{
    assert(union_of(union_of(a, b), c) =~= union_of(a, union_of(b, c)));
}

impl View for TreeNode {
    type V = Map<Point, Body>;

    /// The leaves of the tree by the points they lie at.
    open spec fn view(&self) -> Map<Point, Body> {
        Map::new(
            |p: Point|
                self.region().contains(p) && self.cell_leaf(self.region().cell_of(p)) is Some,
            |p: Point| self.cell_leaf(self.region().cell_of(p)).unwrap(),
        )
    }
}

/// The whole grid is a block that can be halved down to single cells.
pub proof fn lemma_whole_grid()
    ensures
        Square::whole().wf(),
{
    reveal_with_fuel(halves_evenly, 34);
}

impl TreeNode {
    /// The domain that the tree covers.
    pub closed spec fn region(&self) -> Domain {
        self.domain
    }

    /// The node that covers the whole grid.
    pub closed spec fn root(&self) -> Node {
        self.root
    }

    /// The leaf in the grid cell `c`, if there is one.
    pub open spec fn cell_leaf(&self, c: Cell) -> Option<Body> {
        self.root().lookup(self.region(), Square::whole(), c)
    }

    /// The invariant of the type: see [`Node::wf_in`].
    pub open spec fn wf(&self) -> bool {
        self.region().wf() && self.root().wf_in(self.region(), Square::whole())
    }

    /// Sum of the masses of the leaves.
    pub open spec fn mass_sum(&self) -> nat {
        self.root().mass_sum()
    }

    /// Sum over the leaves of mass times `x`.
    pub open spec fn moment_x_sum(&self) -> int {
        self.root().moment_x_sum()
    }

    /// Sum over the leaves of mass times `y`.
    pub open spec fn moment_y_sum(&self) -> int {
        self.root().moment_y_sum()
    }

    /// Number of leaves.
    pub open spec fn leaf_count(&self) -> nat {
        self.root().leaf_count()
    }

    /// Number of internal nodes on the longest way down from the root.
    pub open spec fn height(&self) -> nat {
        self.root().height()
    }

    /// The leaf at `p`, if there is one.
    pub open spec fn leaf_at(&self, p: Point) -> Option<Body> {
        leaf_in(self@, p)
    }

    /// Every leaf carries mass and is recorded at its own position, which
    /// lies in the domain. A tree without leaves has no mass, and one with
    /// leaves has at least one quantum for each.
    pub proof fn lemma_leaves(&self)
        requires
            self.wf(),
        ensures
            forall|p: Point| #[trigger]
                self@.contains_key(p) ==> self@[p].position == p && self@[p].mass > 0
                    && self.region().contains(p),
            self.leaf_count() <= self.mass_sum(),
            self.leaf_count() == 0 <==> self@ == Map::<Point, Body>::empty(),
            0 <= self.moment_x_sum() <= self.mass_sum() * u32::MAX,
            0 <= self.moment_y_sum() <= self.mass_sum() * u32::MAX,
    {
        lemma_whole_grid();
        self.root.lemma_moment_bound();
        self.root.lemma_no_leaves(self.domain, Square::whole());
        assert forall|p: Point| #[trigger] self@.contains_key(p) implies self@[p].position == p
            && self@[p].mass > 0 && self.region().contains(p) by {
            let c = self.domain.cell_of(p);
            self.root.lemma_lookup(self.domain, Square::whole(), c);
            self.domain.lemma_cell_of_injective(p, self@[p].position);
        }
        if self.leaf_count() == 0 {
            assert(self@ =~= Map::<Point, Body>::empty());
        } else {
            let b = self.root.lemma_some_leaf(self.domain, Square::whole());
            assert(self@.contains_key(b.position));
        }
    }

    /// The shape of a tree follows from what it holds: two well-formed
    /// trees over one domain with the same leaves are the same tree, node
    /// for node.
    pub proof fn lemma_canonical(&self, other: &TreeNode)
        requires
            self.wf(),
            other.wf(),
            self.region() == other.region(),
            self@ == other@,
        ensures
            *self == *other,
    {
        lemma_whole_grid();
        let d = self.region();
        assert forall|c: Cell| #[trigger]
            self.root().lookup(d, Square::whole(), c) == other.root().lookup(
                d,
                Square::whole(),
                c,
            ) by {
            self.root().lemma_lookup(d, Square::whole(), c);
            other.root().lemma_lookup(d, Square::whole(), c);
            if self.cell_leaf(c) is Some {
                let x = self.cell_leaf(c).unwrap();
                assert(self@.contains_key(x.position));
                assert(other@[x.position] == x);
            } else if other.cell_leaf(c) is Some {
                let y = other.cell_leaf(c).unwrap();
                assert(other@.contains_key(y.position));
                assert(self@.contains_key(y.position));
            }
        }
        self.root().lemma_canonical(other.root(), d, Square::whole());
        self.lemma_same_parts(other);
    }

    /// The mass of a merge is the mass of the two, whichever is merged into
    /// which, and so are the moments; the leaves lie at the same points with
    /// the same masses.
    pub proof fn lemma_merge_order(a: &TreeNode, b: &TreeNode, ab: &TreeNode, ba: &TreeNode)
        requires
            ab@ == union_of(a@, b@),
            ab.mass_sum() == a.mass_sum() + b.mass_sum(),
            ba@ == union_of(b@, a@),
            ba.mass_sum() == b.mass_sum() + a.mass_sum(),
        ensures
            ab.mass_sum() == ba.mass_sum(),
            ab@.dom() == ba@.dom(),
            forall|p: Point| #[trigger] ab@.contains_key(p) ==> ab@[p].mass == ba@[p].mass,
    {
        lemma_union_commutes(a@, b@);
    }

    /// An empty tree over the given domain.
    pub fn new(domain: Domain) -> (tree: TreeNode)
        requires
            domain.wf(),
        ensures
            tree.wf(),
            tree.region() == domain,
            tree@ == Map::<Point, Body>::empty(),
            tree.mass_sum() == 0,
            tree.moment_x_sum() == 0,
            tree.moment_y_sum() == 0,
            tree.leaf_count() == 0,
    {
        let tree = TreeNode { domain, root: Node::Empty };
        assert(tree@ =~= Map::<Point, Body>::empty());
        tree
    }

    /// The domain that the tree covers.
    pub fn domain(&self) -> (d: Domain)
        ensures
            d == self.region(),
    {
        self.domain
    }

    /// Adds a body. A body without mass is a placeholder and leaves the
    /// tree as it was. A body that arrives at an occupied point is fused
    /// with the leaf there: the leaf keeps its identity and gains the mass.
    pub fn insert(&mut self, body: &Body)
        requires
            old(self).wf(),
            body.mass > 0 ==> old(self).region().contains(body.position),
            old(self).mass_sum() + body.mass <= u64::MAX,
        ensures
            final(self).wf(),
            final(self).region() == old(self).region(),
            body.mass == 0 ==> *final(self) == *old(self),
            final(self)@ == absorb(old(self)@, *body),
            final(self).mass_sum() == old(self).mass_sum() + body.mass,
            final(self).moment_x_sum() == old(self).moment_x_sum() + body.mass * body.position.x,
            final(self).moment_y_sum() == old(self).moment_y_sum() + body.mass * body.position.y,
            final(self).leaf_count() == old(self).leaf_count() + if body.mass > 0 && !old(
                self,
            )@.contains_key(body.position) {
                1nat
            } else {
                0nat
            },
    {
        if body.mass == 0 {
            assert(body.mass * body.position.x == 0 && body.mass * body.position.y == 0)
                by (nonlinear_arith)
                requires
                    body.mass == 0,
            ;
            return ;
        }
        proof {
            lemma_whole_grid();
        }
        let cell: Cell = self.domain.locate(body.position);
        let mut root = Node::Empty;
        std::mem::swap(&mut self.root, &mut root);
        let ghost before = root;
        let grown = root.place(&self.domain, whole_grid(), *body, cell, false);
        self.root = grown;
        proof {
            reveal(placed);
            let d = self.domain;
            assert forall|c: Cell| before.lookup(d, Square::whole(), c) is Some implies d.cell_of(
                before.lookup(d, Square::whole(), c).unwrap().position,
            ) == c by {
                before.lemma_lookup(d, Square::whole(), c);
            }
            assert(self@ =~= old(self)@.insert(
                body.position,
                settle(old(self).leaf_at(body.position), *body, false),
            )) by {
                assert forall|p: Point| p != body.position && d.contains(p) implies d.cell_of(p)
                    != cell by {
                    if d.cell_of(p) == cell {
                        d.lemma_cell_of_injective(p, body.position);
                    }
                }
            }
        }
    }

    /// Takes in everything that `other`, a tree over the same domain, holds.
    /// Where both trees hold a leaf at one point the two are fused, and the
    /// leaf of this tree keeps its identity.
    pub fn merge(&mut self, other: TreeNode)
        requires
            old(self).wf(),
            other.wf(),
            old(self).region() == other.region(),
            old(self).mass_sum() + other.mass_sum() <= u64::MAX,
        ensures
            final(self).wf(),
            final(self).region() == old(self).region(),
            final(self)@ == union_of(old(self)@, other@),
            final(self).mass_sum() == old(self).mass_sum() + other.mass_sum(),
            final(self).moment_x_sum() == old(self).moment_x_sum() + other.moment_x_sum(),
            final(self).moment_y_sum() == old(self).moment_y_sum() + other.moment_y_sum(),
            final(self).leaf_count() >= old(self).leaf_count(),
            final(self).leaf_count() >= other.leaf_count(),
    {
        proof {
            lemma_whole_grid();
        }
        let mut root = Node::Empty;
        std::mem::swap(&mut self.root, &mut root);
        let joined = root.merge(other.root, &self.domain, whole_grid());
        self.root = joined;
        proof {
            reveal(merged);
            assert(self@ =~= union_of(old(self)@, other@));
        }
    }

    /// Total mass of the bodies in the tree.
    pub fn mass(&self) -> (m: u64)
        requires
            self.wf(),
        ensures
            m == self.mass_sum(),
    {
        proof {
            lemma_whole_grid();
            self.lemma_mass_fits();
        }
        self.root.mass(Ghost(self.domain), Ghost(Square::whole()))
    }

    /// The mass-weighted mean position of the bodies in the tree, rounded
    /// down to the lattice on each axis; `None` for a tree without bodies.
    pub fn center_of_mass(&self) -> (c: Option<Point>)
        requires
            self.wf(),
        ensures
            c is None <==> self.mass_sum() == 0,
            c matches Some(p) ==> p.x == self.moment_x_sum() / (self.mass_sum() as int) && p.y
                == self.moment_y_sum() / (self.mass_sum() as int),
    {
        proof {
            lemma_whole_grid();
            self.lemma_mass_fits();
        }
        self.root.center(Ghost(self.domain), Ghost(Square::whole()))
    }

    /// Number of leaves in the tree.
    pub fn len(&self) -> (n: u64)
        requires
            self.wf(),
        ensures
            n == self.leaf_count(),
    {
        proof {
            lemma_whole_grid();
            self.lemma_mass_fits();
            self.root.lemma_no_leaves(self.domain, Square::whole());
        }
        self.root.count(Ghost(self.domain), Ghost(Square::whole()))
    }

    /// Number of internal nodes on the longest way down from the root. The
    /// grid has `2^32` cells a side and a cell is never split, so this is
    /// never more than 32, however close the bodies lie.
    pub fn depth(&self) -> (h: u32)
        requires
            self.wf(),
        ensures
            h == self.height(),
            h <= 32,
    {
        proof {
            lemma_whole_grid();
        }
        self.root.depth(Ghost(self.domain), Ghost(Square::whole()))
    }

    /// Whether the tree holds no body.
    pub fn is_empty(&self) -> (b: bool)
        requires
            self.wf(),
        ensures
            b <==> self.leaf_count() == 0,
    {
        proof {
            lemma_whole_grid();
            self.root.lemma_no_leaves(self.domain, Square::whole());
        }
        match &self.root {
            Node::Empty => true,
            _ => false,
        }
    }

    /// The leaf at `p`, if there is one.
    pub fn get(&self, p: Point) -> (leaf: Option<Body>)
        requires
            self.wf(),
        ensures
            leaf == self.leaf_at(p),
    {
        proof {
            lemma_whole_grid();
        }
        let cell: Cell = self.domain.locate(p);
        match self.root.find(&self.domain, whole_grid(), cell) {
            Some(b) => {
                proof {
                    self.root.lemma_lookup(self.domain, Square::whole(), cell);
                    if self.domain.contains(p) {
                        self.domain.lemma_cell_of_injective(p, b.position);
                    }
                }
                if b.position.x == p.x && b.position.y == p.y {
                    Some(b)
                } else {
                    None
                }
            },
            None => None,
        }
    }

    /// Walks the tree from the root: see [`Node::gather`].
    pub(crate) fn walk(
        &self,
        probe: &Body,
        theta: crate::force::Theta,
        cut: u128,
        out: &mut Vec<crate::force::PointMass>,
    )
        requires
            self.wf(),
            cut == crate::force::cut_at(self.region().size as int, theta, 0),
        ensures
            final(out)@ == old(out)@ + self.root().sources(
                self.region().size as int,
                0,
                *probe,
                theta,
            ),
    {
        self.root.gather(
            probe,
            theta,
            cut,
            out,
            Ghost(self.domain.size as int),
            Ghost(0),
            Ghost(self.domain),
            Ghost(Square::whole()),
        );
    }

    /// A tree from its parts.
    pub(crate) fn assemble(domain: Domain, root: Node) -> (tree: TreeNode)
        ensures
            tree.region() == domain,
            tree.root() == root,
    {
        TreeNode { domain, root }
    }

    /// The root, to read.
    pub(crate) fn root_node(&self) -> (node: &Node)
        ensures
            *node == self.root(),
    {
        &self.root
    }

    /// A tree is its domain and its root.
    pub proof fn lemma_same_parts(&self, other: &TreeNode)
        requires
            self.region() == other.region(),
            self.root() == other.root(),
        ensures
            *self == *other,
    {
    }

    /// The total mass of a well-formed tree fits the aggregate that its root
    /// records, or, for a single leaf or none, the mass of that leaf.
    proof fn lemma_mass_fits(&self)
        requires
            self.wf(),
        ensures
            self.root.mass_sum() <= u64::MAX,
    {
    }
}

/// The block that is the whole grid.
fn whole_grid() -> (sq: Square)
    ensures
        sq == Square::whole(),
{
    Square { x0: 0, y0: 0, side: GRID_SIDE }
}

} // verus!
