//! Trees as words and as bytes, for transport between processes.
//!
//! A tree is written as a sequence of 64-bit words: the domain, then the
//! nodes in the order of a walk from the root. Internal nodes are written
//! without their totals, which reading computes again from the leaves.

use vstd::prelude::*;
use crate::body::Body;
use crate::geometry::{Cell, Domain, Point};
use crate::grid::{Quadrant, Square};
use crate::node::{Node, Quad};
use crate::packing::{deserialized, pack, serialized, unpack};
use crate::tree::{lemma_whole_grid, TreeNode};

verus! {

/// First word of an empty node.
pub const TAG_EMPTY: u64 = 0;

/// First word of a leaf.
pub const TAG_LEAF: u64 = 1;

/// First word of an internal node.
pub const TAG_INTERNAL: u64 = 2;

/// `w` stands in `words` from position `start` on.
pub open spec fn starts_at(words: Seq<u64>, start: int, w: Seq<u64>) -> bool {
    0 <= start && start + w.len() <= words.len() && words.subrange(start, start + w.len()) == w
}

/// One sequence after another stands at a position exactly when the first
/// stands there and the second right behind it.
pub proof fn lemma_starts_at_concat(words: Seq<u64>, start: int, x: Seq<u64>, y: Seq<u64>)
    ensures
        starts_at(words, start, x + y) <==> starts_at(words, start, x) && starts_at(
            words,
            start + x.len(),
            y,
        ),
{
    let z = x + y;
    if starts_at(words, start, z) {
        assert(words.subrange(start, start + x.len()) =~= x) by {
            assert forall|i: int| 0 <= i < x.len() implies words.subrange(
                start,
                start + x.len(),
            )[i] == x[i] by {
                assert(words.subrange(start, start + z.len())[i] == z[i]);
            }
        }
        assert(words.subrange(start + x.len(), start + x.len() + y.len()) =~= y) by {
            assert forall|i: int| 0 <= i < y.len() implies words.subrange(
                start + x.len(),
                start + x.len() + y.len(),
            )[i] == y[i] by {
                assert(words.subrange(start, start + z.len())[x.len() + i] == z[x.len() + i]);
            }
        }
    }
    if starts_at(words, start, x) && starts_at(words, start + x.len(), y) {
        assert(words.subrange(start, start + z.len()) =~= z) by {
            assert forall|i: int| 0 <= i < z.len() implies words.subrange(
                start,
                start + z.len(),
            )[i] == z[i] by {
                if i < x.len() {
                    assert(words.subrange(start, start + x.len())[i] == x[i]);
                } else {
                    assert(words.subrange(start + x.len(), start + x.len() + y.len())[i
                        - x.len()] == y[i - x.len()]);
                }
            }
        }
    }
}

impl Body {
    /// A leaf as words: its tag, then identity, mass and position.
    pub open spec fn words(self) -> Seq<u64> {
        seq![TAG_LEAF, self.id, self.mass, self.position.x as u64, self.position.y as u64]
    }
}

impl Node {
    /// The node as words: its tag, then what it holds.
    pub open spec fn words(self) -> Seq<u64>
        decreases self,
    {
        match self {
            Node::Empty => seq![TAG_EMPTY],
            Node::Leaf(b) => b.words(),
            Node::Internal(q) => seq![TAG_INTERNAL] + q.ne.words() + q.nw.words() + q.se.words()
                + q.sw.words(),
        }
    }

    /// The first word is the tag of the variant.
    pub proof fn lemma_tag(self)
        ensures
            self.words().len() >= 1,
            self.words()[0] == match self {
                Node::Empty => TAG_EMPTY,
                Node::Leaf(_) => TAG_LEAF,
                Node::Internal(_) => TAG_INTERNAL,
            },
        decreases self,
    {
        match self {
            Node::Internal(q) => {
                let head = seq![TAG_INTERNAL];
                assert(self.words() == head + q.ne.words() + q.nw.words() + q.se.words()
                    + q.sw.words());
                assert(self.words()[0] == head[0]);
            },
            _ => {},
        }
    }

    /// Appends the words of the node.
    pub(crate) fn write(&self, out: &mut Vec<u64>)
        ensures
            final(out)@ == old(out)@ + self.words(),
        decreases self,
    {
        match self {
            Node::Empty => {
                out.push(TAG_EMPTY);
                assert(final(out)@ == old(out)@ + seq![TAG_EMPTY]);
            },
            Node::Leaf(b) => {
                out.push(TAG_LEAF);
                out.push(b.id);
                out.push(b.mass);
                out.push(b.position.x as u64);
                out.push(b.position.y as u64);
                assert(final(out)@ == old(out)@ + b.words());
            },
            Node::Internal(q) => {
                out.push(TAG_INTERNAL);
                q.ne.write(out);
                q.nw.write(out);
                q.se.write(out);
                q.sw.write(out);
                assert(final(out)@ == old(out)@ + (seq![TAG_INTERNAL] + q.ne.words()
                    + q.nw.words() + q.se.words() + q.sw.words()));
            },
        }
    }
}

/// Where the four children of an internal node stand when the node stands
/// at `start`.
pub proof fn lemma_internal_layout(q: Quad, words: Seq<u64>, start: int)
    ensures
        starts_at(words, start, Node::Internal(Box::new(q)).words()) <==> {
            &&& 0 <= start < words.len()
            &&& words[start] == TAG_INTERNAL
            &&& starts_at(words, start + 1, q.ne.words())
            &&& starts_at(words, start + 1 + q.ne.words().len(), q.nw.words())
            &&& starts_at(
                words,
                start + 1 + q.ne.words().len() + q.nw.words().len(),
                q.se.words(),
            )
            &&& starts_at(
                words,
                start + 1 + q.ne.words().len() + q.nw.words().len() + q.se.words().len(),
                q.sw.words(),
            )
        },
        Node::Internal(Box::new(q)).words().len() == 1 + q.ne.words().len() + q.nw.words().len()
            + q.se.words().len() + q.sw.words().len(),
{
    let t = seq![TAG_INTERNAL];
    let a = q.ne.words();
    let b = q.nw.words();
    let c = q.se.words();
    let d = q.sw.words();
    assert(Node::Internal(Box::new(q)).words() == t + a + b + c + d);
    lemma_starts_at_concat(words, start, t + a + b + c, d);
    lemma_starts_at_concat(words, start, t + a + b, c);
    lemma_starts_at_concat(words, start, t + a, b);
    lemma_starts_at_concat(words, start, t, a);
    if starts_at(words, start, t) {
        assert(words.subrange(start, start + 1)[0] == t[0]);
    }
    if 0 <= start < words.len() && words[start] == TAG_INTERNAL {
        assert(words.subrange(start, start + 1) =~= t);
    }
}

/// What the five words of a leaf are when the leaf stands at `start`.
pub proof fn lemma_leaf_layout(b: Body, words: Seq<u64>, start: int)
    ensures
        starts_at(words, start, Node::Leaf(b).words()) <==> {
            &&& 0 <= start
            &&& start + 5 <= words.len()
            &&& words[start] == TAG_LEAF
            &&& words[start + 1] == b.id
            &&& words[start + 2] == b.mass
            &&& words[start + 3] == b.position.x
            &&& words[start + 4] == b.position.y
        },
{
    let w = Node::Leaf(b).words();
    if starts_at(words, start, w) {
        let s = words.subrange(start, start + 5);
        assert(s[0] == w[0] && s[1] == w[1] && s[2] == w[2] && s[3] == w[3] && s[4] == w[4]);
    }
    if 0 <= start && start + 5 <= words.len() && words[start] == TAG_LEAF && words[start + 1]
        == b.id && words[start + 2] == b.mass && words[start + 3] == b.position.x && words[start
        + 4] == b.position.y {
        assert(words.subrange(start, start + 5) =~= w);
    }
}

/// No two well-formed nodes are written alike: a node that stands at a
/// position is the only one that does.
pub proof fn lemma_words_unique(
    a: Node,
    b: Node,
    domain: Domain,
    sq: Square,
    words: Seq<u64>,
    start: int,
)
    requires
        a.wf_in(domain, sq),
        b.wf_in(domain, sq),
        starts_at(words, start, a.words()),
        starts_at(words, start, b.words()),
    ensures
        a == b,
    decreases a,
{
    a.lemma_tag();
    b.lemma_tag();
    assert(words.subrange(start, start + a.words().len())[0] == a.words()[0]);
    assert(words.subrange(start, start + b.words().len())[0] == b.words()[0]);
    match (a, b) {
        (Node::Leaf(x), Node::Leaf(y)) => {
            lemma_leaf_layout(x, words, start);
            lemma_leaf_layout(y, words, start);
        },
        (Node::Internal(p), Node::Internal(q)) => {
            lemma_internal_layout(*p, words, start);
            lemma_internal_layout(*q, words, start);
            lemma_words_unique(p.ne, q.ne, domain, sq.quarter(Quadrant::NorthEast), words, start + 1);
            let s1 = start + 1 + p.ne.words().len();
            lemma_words_unique(p.nw, q.nw, domain, sq.quarter(Quadrant::NorthWest), words, s1);
            let s2 = s1 + p.nw.words().len();
            lemma_words_unique(p.se, q.se, domain, sq.quarter(Quadrant::SouthEast), words, s2);
            let s3 = s2 + p.se.words().len();
            lemma_words_unique(p.sw, q.sw, domain, sq.quarter(Quadrant::SouthWest), words, s3);
            assert(p.mass == q.mass && p.moment_x == q.moment_x && p.moment_y == q.moment_y);
            assert(*p == *q);
        },
        _ => {},
    }
}

/// What follows from an internal node standing at `start`: the block can
/// be quartered, the node has two leaves or more, and each child stands
/// behind the one before it and is well formed in its quarter.
pub proof fn lemma_open(n: Node, words: Seq<u64>, start: int, domain: Domain, sq: Square)
    requires
        n.wf_in(domain, sq),
        starts_at(words, start, n.words()),
        words[start] == TAG_INTERNAL,
    ensures
        n matches Node::Internal(q) && {
            &&& sq.side >= 2
            &&& q.leaf_count() >= 2
            &&& q.mass_sum() <= u64::MAX
            &&& forall|o: Quadrant| #[trigger] q.child(o).wf_in(domain, sq.quarter(o))
            &&& starts_at(words, start + 1, q.ne.words())
            &&& starts_at(words, start + 1 + q.ne.words().len(), q.nw.words())
            &&& starts_at(
                words,
                start + 1 + q.ne.words().len() + q.nw.words().len(),
                q.se.words(),
            )
            &&& starts_at(
                words,
                start + 1 + q.ne.words().len() + q.nw.words().len() + q.se.words().len(),
                q.sw.words(),
            )
        },
{
    n.lemma_tag();
    assert(words.subrange(start, start + n.words().len())[0] == n.words()[0]);
    match n {
        Node::Internal(q) => {
            lemma_internal_layout(*q, words, start);
            q.lemma_children_wf(domain, sq);
        },
        _ => {},
    }
}

/// Nothing stands at or behind the end of the words.
proof fn lemma_none_at_end(words: Seq<u64>, start: int)
    requires
        start >= words.len(),
    ensures
        forall|n: Node| !starts_at(words, start, #[trigger] n.words()),
{
    assert forall|n: Node| !starts_at(words, start, #[trigger] n.words()) by {
        n.lemma_tag();
    }
}

/// No node stands where the tag is none of the three.
proof fn lemma_none_at_bad_tag(words: Seq<u64>, start: int)
    requires
        0 <= start < words.len(),
        words[start] != TAG_EMPTY,
        words[start] != TAG_LEAF,
        words[start] != TAG_INTERNAL,
    ensures
        forall|n: Node| !starts_at(words, start, #[trigger] n.words()),
{
    assert forall|n: Node| !starts_at(words, start, #[trigger] n.words()) by {
        n.lemma_tag();
        if starts_at(words, start, n.words()) {
            assert(words.subrange(start, start + n.words().len())[0] == n.words()[0]);
        }
    }
}

/// No well-formed node stands where the tag is that of a leaf and the
/// words behind it do not make a leaf of the block.
proof fn lemma_none_at_bad_leaf(words: Seq<u64>, start: int, domain: Domain, sq: Square)
    requires
        0 <= start < words.len(),
        words[start] == TAG_LEAF,
        start + 5 <= words.len() ==> {
            ||| words[start + 2] == 0
            ||| words[start + 3] > u32::MAX
            ||| words[start + 4] > u32::MAX
            ||| !domain.contains(Point { x: words[start + 3] as u32, y: words[start + 4] as u32 })
            ||| !sq.contains(
                domain.cell_of(Point { x: words[start + 3] as u32, y: words[start + 4] as u32 }),
            )
        },
    ensures
        forall|n: Node| n.wf_in(domain, sq) ==> !starts_at(words, start, #[trigger] n.words()),
{
    assert forall|n: Node| n.wf_in(domain, sq) implies !starts_at(
        words,
        start,
        #[trigger] n.words(),
    ) by {
        n.lemma_tag();
        if starts_at(words, start, n.words()) {
            assert(words.subrange(start, start + n.words().len())[0] == n.words()[0]);
            match n {
                Node::Leaf(b) => {
                    lemma_leaf_layout(b, words, start);
                    assert(b.position == Point {
                        x: words[start + 3] as u32,
                        y: words[start + 4] as u32,
                    });
                },
                _ => {},
            }
        }
    }
}

impl Node {
    /// Zero, one or two: no leaf, one leaf, more than one.
    fn weight(&self, Ghost(domain): Ghost<Domain>, Ghost(sq): Ghost<Square>) -> (w: u8)
        requires
            self.wf_in(domain, sq),
        ensures
            w == if self.leaf_count() >= 2 {
                2
            } else {
                self.leaf_count() as int
            },
    {
        proof {
            self.lemma_no_leaves(domain, sq);
        }
        match self {
            Node::Empty => 0,
            Node::Leaf(_) => 1,
            Node::Internal(_) => 2,
        }
    }

    /// Reads the node that stands at `start`, which is to cover the block
    /// `sq`, and says where it ends. `None` when no well-formed node stands
    /// there.
    pub(crate) fn parse(words: &Vec<u64>, start: usize, domain: &Domain, sq: Square) -> (r: Option<
        (Node, usize),
    >)
        requires
            domain.wf(),
            sq.wf(),
        ensures
            match r {
                Some((n, end)) => n.wf_in(*domain, sq) && starts_at(
                    words@,
                    start as int,
                    n.words(),
                ) && end == start + n.words().len(),
                None => forall|n: Node|
                    n.wf_in(*domain, sq) ==> !starts_at(words@, start as int, #[trigger] n.words()),
            },
        decreases sq.side, 1nat,
    {
        if start >= words.len() {
            proof {
                lemma_none_at_end(words@, start as int);
            }
            return None;
        }
        let tag: u64 = words[start];
        if tag == TAG_EMPTY {
            assert(words@.subrange(start as int, start + 1) =~= Node::Empty.words());
            Some((Node::Empty, start + 1))
        } else if tag == TAG_LEAF {
            Node::parse_leaf(words, start, domain, sq)
        } else if tag == TAG_INTERNAL {
            Node::parse_internal(words, start, domain, sq)
        } else {
            proof {
                lemma_none_at_bad_tag(words@, start as int);
            }
            None
        }
    }

    /// Reads the leaf whose tag stands at `start`.
    fn parse_leaf(words: &Vec<u64>, start: usize, domain: &Domain, sq: Square) -> (r: Option<
        (Node, usize),
    >)
        requires
            domain.wf(),
            sq.wf(),
            start < words.len(),
            words[start as int] == TAG_LEAF,
        ensures
            match r {
                Some((n, end)) => n.wf_in(*domain, sq) && starts_at(
                    words@,
                    start as int,
                    n.words(),
                ) && end == start + n.words().len(),
                None => forall|n: Node|
                    n.wf_in(*domain, sq) ==> !starts_at(words@, start as int, #[trigger] n.words()),
            },
    {
        if words.len() - start < 5 {
            proof {
                lemma_none_at_bad_leaf(words@, start as int, *domain, sq);
            }
            return None;
        }
        let id: u64 = words[start + 1];
        let mass: u64 = words[start + 2];
        let x: u64 = words[start + 3];
        let y: u64 = words[start + 4];
        if mass == 0 || x > 0xFFFF_FFFF || y > 0xFFFF_FFFF {
            proof {
                lemma_none_at_bad_leaf(words@, start as int, *domain, sq);
            }
            return None;
        }
        let position = Point { x: x as u32, y: y as u32 };
        if !domain.holds(position) {
            proof {
                lemma_none_at_bad_leaf(words@, start as int, *domain, sq);
            }
            return None;
        }
        let cell: Cell = domain.locate(position);
        if !sq.holds(cell) {
            proof {
                lemma_none_at_bad_leaf(words@, start as int, *domain, sq);
            }
            return None;
        }
        let body = Body { id, mass, position };
        proof {
            lemma_leaf_layout(body, words@, start as int);
        }
        Some((Node::Leaf(body), start + 5))
    }

    /// Reads the internal node whose tag stands at `start`.
    fn parse_internal(words: &Vec<u64>, start: usize, domain: &Domain, sq: Square) -> (r: Option<
        (Node, usize),
    >)
        requires
            domain.wf(),
            sq.wf(),
            start < words.len(),
            words[start as int] == TAG_INTERNAL,
        ensures
            match r {
                Some((n, end)) => n.wf_in(*domain, sq) && starts_at(
                    words@,
                    start as int,
                    n.words(),
                ) && end == start + n.words().len(),
                None => forall|n: Node|
                    n.wf_in(*domain, sq) ==> !starts_at(words@, start as int, #[trigger] n.words()),
            },
        decreases sq.side, 0nat,
    {
        let ghost w = words@;
        let ghost s = start as int;
        if sq.side < 2 {
            proof {
                assert forall|n: Node| n.wf_in(*domain, sq) implies !starts_at(
                    w,
                    s,
                    #[trigger] n.words(),
                ) by {
                    if starts_at(w, s, n.words()) {
                        lemma_open(n, w, s, *domain, sq);
                    }
                }
            }
            return None;
        }
        proof {
            sq.lemma_quarter(Quadrant::NorthEast);
            sq.lemma_quarter(Quadrant::NorthWest);
            sq.lemma_quarter(Quadrant::SouthEast);
            sq.lemma_quarter(Quadrant::SouthWest);
        }
        let ne_sq = sq.quartered(Quadrant::NorthEast);
        let nw_sq = sq.quartered(Quadrant::NorthWest);
        let se_sq = sq.quartered(Quadrant::SouthEast);
        let sw_sq = sq.quartered(Quadrant::SouthWest);
        let (ne, e1) = match Node::parse(words, start + 1, domain, ne_sq) {
            Some(found) => found,
            None => {
                proof {
                    assert forall|n: Node| n.wf_in(*domain, sq) implies !starts_at(
                        w,
                        s,
                        #[trigger] n.words(),
                    ) by {
                        if starts_at(w, s, n.words()) {
                            lemma_open(n, w, s, *domain, sq);
                            let q = n->Internal_0;
                            assert(q.child(Quadrant::NorthEast).wf_in(*domain, ne_sq));
                        }
                    }
                }
                return None;
            },
        };
        let (nw, e2) = match Node::parse(words, e1, domain, nw_sq) {
            Some(found) => found,
            None => {
                proof {
                    assert forall|n: Node| n.wf_in(*domain, sq) implies !starts_at(
                        w,
                        s,
                        #[trigger] n.words(),
                    ) by {
                        if starts_at(w, s, n.words()) {
                            lemma_open(n, w, s, *domain, sq);
                            let q = n->Internal_0;
                            assert(q.child(Quadrant::NorthEast).wf_in(*domain, ne_sq));
                            assert(q.child(Quadrant::NorthWest).wf_in(*domain, nw_sq));
                            lemma_words_unique(q.ne, ne, *domain, ne_sq, w, s + 1);
                        }
                    }
                }
                return None;
            },
        };
        let (se, e3) = match Node::parse(words, e2, domain, se_sq) {
            Some(found) => found,
            None => {
                proof {
                    assert forall|n: Node| n.wf_in(*domain, sq) implies !starts_at(
                        w,
                        s,
                        #[trigger] n.words(),
                    ) by {
                        if starts_at(w, s, n.words()) {
                            lemma_open(n, w, s, *domain, sq);
                            let q = n->Internal_0;
                            assert(q.child(Quadrant::NorthEast).wf_in(*domain, ne_sq));
                            assert(q.child(Quadrant::NorthWest).wf_in(*domain, nw_sq));
                            assert(q.child(Quadrant::SouthEast).wf_in(*domain, se_sq));
                            lemma_words_unique(q.ne, ne, *domain, ne_sq, w, s + 1);
                            lemma_words_unique(q.nw, nw, *domain, nw_sq, w, e1 as int);
                        }
                    }
                }
                return None;
            },
        };
        let (sw, e4) = match Node::parse(words, e3, domain, sw_sq) {
            Some(found) => found,
            None => {
                proof {
                    assert forall|n: Node| n.wf_in(*domain, sq) implies !starts_at(
                        w,
                        s,
                        #[trigger] n.words(),
                    ) by {
                        if starts_at(w, s, n.words()) {
                            lemma_open(n, w, s, *domain, sq);
                            let q = n->Internal_0;
                            assert(q.child(Quadrant::NorthEast).wf_in(*domain, ne_sq));
                            assert(q.child(Quadrant::NorthWest).wf_in(*domain, nw_sq));
                            assert(q.child(Quadrant::SouthEast).wf_in(*domain, se_sq));
                            assert(q.child(Quadrant::SouthWest).wf_in(*domain, sw_sq));
                            lemma_words_unique(q.ne, ne, *domain, ne_sq, w, s + 1);
                            lemma_words_unique(q.nw, nw, *domain, nw_sq, w, e1 as int);
                            lemma_words_unique(q.se, se, *domain, se_sq, w, e2 as int);
                        }
                    }
                }
                return None;
            },
        };
        let w1: u8 = ne.weight(Ghost(*domain), Ghost(ne_sq));
        let w2: u8 = nw.weight(Ghost(*domain), Ghost(nw_sq));
        let w3: u8 = se.weight(Ghost(*domain), Ghost(se_sq));
        let w4: u8 = sw.weight(Ghost(*domain), Ghost(sw_sq));
        let few: bool = w1 + w2 + w3 + w4 < 2;
        let m1: u64 = ne.mass(Ghost(*domain), Ghost(ne_sq));
        let m2: u64 = nw.mass(Ghost(*domain), Ghost(nw_sq));
        let m3: u64 = se.mass(Ghost(*domain), Ghost(se_sq));
        let m4: u64 = sw.mass(Ghost(*domain), Ghost(sw_sq));
        let total: u128 = (m1 as u128) + (m2 as u128) + (m3 as u128) + (m4 as u128);
        let quad = Quad { mass: 0, moment_x: 0, moment_y: 0, ne, nw, se, sw };
        proof {
            assert(quad.leaf_count() == ne.leaf_count() + nw.leaf_count() + se.leaf_count()
                + sw.leaf_count());
            assert(quad.mass_sum() == ne.mass_sum() + nw.mass_sum() + se.mass_sum()
                + sw.mass_sum());
        }
        if few || total > 0xFFFF_FFFF_FFFF_FFFF {
            proof {
                assert forall|n: Node| n.wf_in(*domain, sq) implies !starts_at(
                    w,
                    s,
                    #[trigger] n.words(),
                ) by {
                    if starts_at(w, s, n.words()) {
                        lemma_open(n, w, s, *domain, sq);
                        let q = n->Internal_0;
                        assert(q.child(Quadrant::NorthEast).wf_in(*domain, ne_sq));
                        assert(q.child(Quadrant::NorthWest).wf_in(*domain, nw_sq));
                        assert(q.child(Quadrant::SouthEast).wf_in(*domain, se_sq));
                        assert(q.child(Quadrant::SouthWest).wf_in(*domain, sw_sq));
                        lemma_words_unique(q.ne, ne, *domain, ne_sq, w, s + 1);
                        lemma_words_unique(q.nw, nw, *domain, nw_sq, w, e1 as int);
                        lemma_words_unique(q.se, se, *domain, se_sq, w, e2 as int);
                        lemma_words_unique(q.sw, sw, *domain, sw_sq, w, e3 as int);
                        assert(q.leaf_count() == quad.leaf_count());
                        assert(q.mass_sum() == quad.mass_sum());
                    }
                }
            }
            return None;
        }
        proof {
            assert forall|o: Quadrant| #[trigger] quad.child(o).wf_in(*domain, sq.quarter(o)) by {
                match o {
                    Quadrant::NorthEast => {},
                    Quadrant::NorthWest => {},
                    Quadrant::SouthEast => {},
                    Quadrant::SouthWest => {},
                }
            }
        }
        let node = quad.seal(Ghost(*domain), Ghost(sq));
        proof {
            lemma_internal_layout(*(node->Internal_0), w, s);
        }
        Some((node, e4))
    }
}

/// Why bytes could not be turned into a tree, or a tree into bytes.
#[derive(Clone, Copy, Debug, PartialEq, Eq, Structural)]
pub enum CodecError {
    /// The bytes do not unpack into words, or the words into bytes.
    Packing,
    /// The words are not those of a well-formed tree.
    Malformed,
}

/// The tree that is written as `words`, if there is one. There is never
/// more than one: see [`TreeNode::lemma_words_unique`].
pub open spec fn tree_of(words: Seq<u64>) -> Option<TreeNode> {
    if exists|t: TreeNode| t.wf() && t.words() == words {
        Some(choose|t: TreeNode| t.wf() && t.words() == words)
    } else {
        None
    }
}

impl TreeNode {
    /// The tree as words: the domain, then the nodes from the root down.
    pub open spec fn words(&self) -> Seq<u64> {
        seq![self.region().center_x2, self.region().center_y2, self.region().size]
            + self.root().words()
    }

    /// Two well-formed trees that are written alike are the same tree.
    pub proof fn lemma_words_unique(&self, other: &TreeNode)
        requires
            self.wf(),
            other.wf(),
            self.words() == other.words(),
        ensures
            *self == *other,
    {
        let head = seq![self.region().center_x2, self.region().center_y2, self.region().size];
        let head2 = seq![other.region().center_x2, other.region().center_y2, other.region().size];
        let w = self.words();
        assert(w[0] == head[0] && w[1] == head[1] && w[2] == head[2]);
        assert(w[0] == head2[0] && w[1] == head2[1] && w[2] == head2[2]);
        lemma_starts_at_concat(w, 0, head, self.root().words());
        lemma_starts_at_concat(w, 0, head2, other.root().words());
        assert(w.subrange(0, w.len() as int) =~= w);
        lemma_words_unique(self.root(), other.root(), self.region(), Square::whole(), w, 3);
        self.lemma_same_parts(other);
    }

    /// Reading back what was written gives the tree that was written.
    pub proof fn lemma_round_trip(&self)
        requires
            self.wf(),
        ensures
            tree_of(self.words()) == Some(*self),
    {
        let t = choose|t: TreeNode| t.wf() && t.words() == self.words();
        t.lemma_words_unique(self);
    }

    /// Writes the tree as words.
    pub fn to_words(&self) -> (w: Vec<u64>)
        ensures
            w@ == self.words(),
    {
        let d: Domain = self.domain();
        let mut w: Vec<u64> = Vec::new();
        w.push(d.center_x2);
        w.push(d.center_y2);
        w.push(d.size);
        assert(w@ == seq![d.center_x2, d.center_y2, d.size]);
        self.root_node().write(&mut w);
        w
    }

    /// Reads a tree from words. `None` when the words are not those of a
    /// well-formed tree.
    pub fn from_words(words: &Vec<u64>) -> (r: Option<TreeNode>)
        ensures
            r == tree_of(words@),
            r matches Some(t) ==> t.wf() && t.words() == words@,
    {
        let ghost w = words@;
        if words.len() < 3 {
            proof {
                assert forall|t: TreeNode| t.wf() implies #[trigger] t.words() != w by {
                    t.root().lemma_tag();
                }
            }
            return None;
        }
        let domain = Domain { center_x2: words[0], center_y2: words[1], size: words[2] };
        if domain.size < 1 || domain.size > 0xFFFF_FFFF || domain.center_x2 > 0x1_FFFF_FFFE
            || domain.center_y2 > 0x1_FFFF_FFFE {
            proof {
                assert forall|t: TreeNode| t.wf() implies #[trigger] t.words() != w by {
                    lemma_header(t);
                }
            }
            return None;
        }
        proof {
            lemma_whole_grid();
        }
        let whole = Square { x0: 0, y0: 0, side: crate::grid::GRID_SIDE };
        match Node::parse(words, 3, &domain, whole) {
            None => {
                proof {
                    assert forall|t: TreeNode| t.wf() implies #[trigger] t.words() != w by {
                        lemma_header(t);
                    }
                }
                None
            },
            Some((root, end)) => {
                if end != words.len() {
                    proof {
                        assert forall|t: TreeNode| t.wf() implies #[trigger] t.words() != w by {
                            lemma_header(t);
                            if t.words() == w {
                                lemma_words_unique(t.root(), root, domain, whole, w, 3);
                            }
                        }
                    }
                    return None;
                }
                let tree = TreeNode::assemble(domain, root);
                proof {
                    lemma_header(tree);
                    assert(tree.words() =~= w) by {
                        let head = seq![domain.center_x2, domain.center_y2, domain.size];
                        assert(w.subrange(0, 3) =~= head);
                        assert(w =~= w.subrange(0, 3) + w.subrange(3, w.len() as int));
                    }
                    tree.lemma_round_trip();
                }
                Some(tree)
            },
        }
    }
}

/// What a buffer of bytes holds: the tree whose words the bytes unpack
/// into, or the reason why there is none.
pub open spec fn decoded(bytes: Seq<u8>) -> Result<TreeNode, CodecError> {
    match deserialized(bytes) {
        None => Err(CodecError::Packing),
        Some(words) => match tree_of(words) {
            Some(tree) => Ok(tree),
            None => Err(CodecError::Malformed),
        },
    }
}

impl TreeNode {
    /// Writes the tree as bytes. The bytes are the packed words of the
    /// tree, and reading them gives the tree back. Fails only where the
    /// packing does.
    pub fn encode(&self) -> (r: Result<Vec<u8>, CodecError>)
        requires
            self.wf(),
        ensures
            match r {
                Ok(bytes) => serialized(self.words()) == Some(bytes@) && decoded(bytes@) == Ok::<
                    TreeNode,
                    CodecError,
                >(*self),
                Err(e) => e == CodecError::Packing && serialized(self.words()) is None,
            },
    {
        let words = self.to_words();
        proof {
            self.lemma_round_trip();
        }
        match pack(&words) {
            Ok(bytes) => Ok(bytes),
            Err(_) => Err(CodecError::Packing),
        }
    }

    /// Reads a tree from bytes: unpacks them into words and reads the
    /// words. Fails where the bytes do not unpack and where the words are
    /// not those of a well-formed tree.
    pub fn decode(bytes: &[u8]) -> (r: Result<TreeNode, CodecError>)
        ensures
            r == decoded(bytes@),
            r matches Ok(t) ==> t.wf(),
    {
        match unpack(bytes) {
            Err(_) => Err(CodecError::Packing),
            Ok(words) => match TreeNode::from_words(&words) {
                Some(tree) => Ok(tree),
                None => Err(CodecError::Malformed),
            },
        }
    }
}

/// The first three words of a tree are its domain, and its root stands
/// behind them and ends with the words.
proof fn lemma_header(t: TreeNode)
    ensures
        t.words().len() == 3 + t.root().words().len(),
        t.words()[0] == t.region().center_x2,
        t.words()[1] == t.region().center_y2,
        t.words()[2] == t.region().size,
        starts_at(t.words(), 3, t.root().words()),
{
    let head = seq![t.region().center_x2, t.region().center_y2, t.region().size];
    let w = t.words();
    assert(w[0] == head[0] && w[1] == head[1] && w[2] == head[2]);
    lemma_starts_at_concat(w, 0, head, t.root().words());
    assert(w.subrange(0, w.len() as int) =~= w);
}

} // verus!
