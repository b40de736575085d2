//! One step of the distributed computation, as far as it is arithmetic on
//! bodies and trees: building the tree of a shard, folding trees into one,
//! and what the folding comes to whatever the sharding was.

use vstd::prelude::*;
use vstd::slice::slice_subrange;
use crate::body::Body;
use crate::codec::{decoded, CodecError};
use crate::exchange::{prefix_sum, ExchangePlan};
use crate::geometry::{Domain, Point};
use crate::tree::{absorb, union_of, TreeNode};

verus! {

/// Sum of the masses of the bodies.
pub open spec fn total_mass(bodies: Seq<Body>) -> nat
    decreases bodies.len(),
{
    if bodies.len() == 0 {
        0
    } else {
        total_mass(bodies.drop_last()) + bodies.last().mass as nat
    }
}

/// Sum over the bodies of mass times `x`.
pub open spec fn total_moment_x(bodies: Seq<Body>) -> int
    decreases bodies.len(),
{
    if bodies.len() == 0 {
        0
    } else {
        total_moment_x(bodies.drop_last()) + bodies.last().mass * bodies.last().position.x
    }
}

/// Sum over the bodies of mass times `y`.
pub open spec fn total_moment_y(bodies: Seq<Body>) -> int
    decreases bodies.len(),
{
    if bodies.len() == 0 {
        0
    } else {
        total_moment_y(bodies.drop_last()) + bodies.last().mass * bodies.last().position.y
    }
}

/// What a tree holds after the bodies have been inserted, one after the
/// other, into an empty tree.
pub open spec fn gathered(bodies: Seq<Body>) -> Map<Point, Body>
    decreases bodies.len(),
{
    if bodies.len() == 0 {
        Map::empty()
    } else {
        absorb(gathered(bodies.drop_last()), bodies.last())
    }
}

/// Every body that has mass lies in the domain.
pub open spec fn all_inside(domain: Domain, bodies: Seq<Body>) -> bool {
    forall|i: int|
        0 <= i < bodies.len() && (#[trigger] bodies[i]).mass > 0 ==> domain.contains(
            bodies[i].position,
        )
}

/// The sums over a sequence that is one body longer.
pub proof fn lemma_totals_step(bodies: Seq<Body>, i: int)
    requires
        0 <= i < bodies.len(),
    ensures
        total_mass(bodies.take(i + 1)) == total_mass(bodies.take(i)) + bodies[i].mass,
        total_moment_x(bodies.take(i + 1)) == total_moment_x(bodies.take(i)) + bodies[i].mass
            * bodies[i].position.x,
        total_moment_y(bodies.take(i + 1)) == total_moment_y(bodies.take(i)) + bodies[i].mass
            * bodies[i].position.y,
        gathered(bodies.take(i + 1)) == absorb(gathered(bodies.take(i)), bodies[i]),
{
    assert(bodies.take(i + 1).drop_last() =~= bodies.take(i));
}

/// The mass of a part is at most the mass of the whole.
pub proof fn lemma_total_mass_grows(bodies: Seq<Body>, i: int)
    requires
        0 <= i <= bodies.len(),
    ensures
        total_mass(bodies.take(i)) <= total_mass(bodies),
    decreases bodies.len() - i,
{
    if i < bodies.len() {
        lemma_totals_step(bodies, i);
        lemma_total_mass_grows(bodies, i + 1);
    } else {
        assert(bodies.take(i) =~= bodies);
    }
}

/// Mass adds up over sequences set one behind the other.
pub proof fn lemma_total_mass_concat(a: Seq<Body>, b: Seq<Body>)
    ensures
        total_mass(a + b) == total_mass(a) + total_mass(b),
    decreases b.len(),
{
    if b.len() == 0 {
        assert(a + b =~= a);
    } else {
        assert((a + b).drop_last() =~= a + b.drop_last());
        lemma_total_mass_concat(a, b.drop_last());
    }
}

/// Moments add up over sequences set one behind the other.
pub proof fn lemma_total_moment_concat(a: Seq<Body>, b: Seq<Body>)
    ensures
        total_moment_x(a + b) == total_moment_x(a) + total_moment_x(b),
        total_moment_y(a + b) == total_moment_y(a) + total_moment_y(b),
    decreases b.len(),
{
    if b.len() == 0 {
        assert(a + b =~= a);
    } else {
        assert((a + b).drop_last() =~= a + b.drop_last());
        lemma_total_moment_concat(a, b.drop_last());
    }
}

/// Every leaf of what bodies gather into lies at its own position and
/// carries mass, no more than all the bodies have together.
pub proof fn lemma_gathered_leaves(bodies: Seq<Body>)
    requires
        total_mass(bodies) <= u64::MAX,
    ensures
        forall|p: Point| #[trigger]
            gathered(bodies).contains_key(p) ==> gathered(bodies)[p].position == p && 0
                < gathered(bodies)[p].mass <= total_mass(bodies),
    decreases bodies.len(),
{
    if bodies.len() > 0 {
        let rest = bodies.drop_last();
        let x = bodies.last();
        lemma_gathered_leaves(rest);
        let g = gathered(rest);
        assert forall|p: Point| #[trigger] gathered(bodies).contains_key(p) implies gathered(
            bodies,
        )[p].position == p && 0 < gathered(bodies)[p].mass <= total_mass(bodies) by {
            if x.mass > 0 && p == x.position {
                if g.contains_key(p) {
                    assert(g[p].mass + x.mass <= total_mass(bodies));
                }
            } else {
                assert(g.contains_key(p));
            }
        }
    }
}

/// Sharding does not show: what the bodies of two shards gather into when
/// taken as one sequence is what the trees of the two shards hold together
/// once merged.
pub proof fn lemma_gathered_concat(a: Seq<Body>, b: Seq<Body>)
    requires
        total_mass(a + b) <= u64::MAX,
    ensures
        gathered(a + b) == union_of(gathered(a), gathered(b)),
    decreases b.len(),
{
    lemma_total_mass_concat(a, b);
    if b.len() == 0 {
        assert(a + b =~= a);
        assert(gathered(a) =~= union_of(gathered(a), gathered(b)));
    } else {
        let rest = b.drop_last();
        let x = b.last();
        assert((a + b).drop_last() =~= a + rest);
        lemma_total_mass_concat(a, rest);
        lemma_gathered_concat(a, rest);
        lemma_gathered_leaves(a);
        lemma_gathered_leaves(rest);
        let ga = gathered(a);
        let gr = gathered(rest);
        assert(absorb(union_of(ga, gr), x) =~= union_of(ga, absorb(gr, x)));
    }
}

/// The shards, set one behind the other.
pub open spec fn joined(parts: Seq<Seq<Body>>) -> Seq<Body>
    decreases parts.len(),
{
    if parts.len() == 0 {
        Seq::empty()
    } else {
        joined(parts.drop_last()) + parts.last()
    }
}

/// The shards that `bodies` are cut into when each but the last gets `len`
/// bodies.
pub open spec fn shards(bodies: Seq<Body>, len: nat) -> Seq<Seq<Body>>
    decreases bodies.len(),
{
    if bodies.len() == 0 || len == 0 {
        Seq::empty()
    } else if bodies.len() <= len {
        seq![bodies]
    } else {
        seq![bodies.take(len as int)] + shards(bodies.skip(len as int), len)
    }
}

/// Joining puts a shard in front as well as behind.
pub proof fn lemma_joined_front(first: Seq<Body>, parts: Seq<Seq<Body>>)
    ensures
        joined(seq![first] + parts) == first + joined(parts),
    decreases parts.len(),
{
    if parts.len() == 0 {
        assert(seq![first] + parts =~= seq![first]);
        assert(seq![first].drop_last() =~= Seq::<Seq<Body>>::empty());
        assert(joined(Seq::<Seq<Body>>::empty()) =~= Seq::<Body>::empty());
        assert(seq![first].last() == first);
        assert(joined(seq![first]) =~= first);
        assert(first + joined(parts) =~= first);
    } else {
        assert((seq![first] + parts).drop_last() =~= seq![first] + parts.drop_last());
        lemma_joined_front(first, parts.drop_last());
        assert((first + joined(parts.drop_last())) + parts.last() =~= first + (joined(
            parts.drop_last(),
        ) + parts.last()));
    }
}

/// Cutting into shards loses nothing and changes no order, and the number
/// of shards is the number of bodies over the length of a shard, rounded
/// up.
pub proof fn lemma_shards(bodies: Seq<Body>, len: nat)
    requires
        len > 0,
    ensures
        joined(shards(bodies, len)) == bodies,
        shards(bodies, len).len() * len < bodies.len() + len,
        forall|k: int|
            0 <= k < shards(bodies, len).len() ==> 0 < (#[trigger] shards(bodies, len)[k]).len()
                <= len,
    decreases bodies.len(),
{
    if bodies.len() == 0 {
        assert(0 * len == 0) by (nonlinear_arith);
    } else if bodies.len() <= len {
        lemma_joined_front(bodies, Seq::empty());
        assert(seq![bodies] + Seq::<Seq<Body>>::empty() =~= seq![bodies]);
        assert(bodies + Seq::<Body>::empty() =~= bodies);
        assert(1 * len == len) by (nonlinear_arith);
    } else {
        let first = bodies.take(len as int);
        let rest = bodies.skip(len as int);
        lemma_shards(rest, len);
        lemma_joined_front(first, shards(rest, len));
        assert(first + rest =~= bodies);
        let m = shards(rest, len).len();
        assert((1 + m) * len == len + m * len) by (nonlinear_arith);
    }
}

/// With shards of the length that [`shard_len`] gives there are no more
/// shards than workers.
pub proof fn lemma_shards_fit(bodies: Seq<Body>, n_threads: nat)
    requires
        n_threads > 0,
    ensures
        shards(bodies, (bodies.len() / n_threads + 1) as nat).len() <= n_threads,
{
    let n = bodies.len() as int;
    let t = n_threads as int;
    let len = n / t + 1;
    vstd::arithmetic::div_mod::lemma_fundamental_div_mod(n, t);
    vstd::arithmetic::div_mod::lemma_mod_pos_bound(n, t);
    vstd::arithmetic::div_mod::lemma_div_pos_is_pos(n, t);
    lemma_shards(bodies, len as nat);
    let m = shards(bodies, len as nat).len() as int;
    assert(m <= t) by (nonlinear_arith)
        requires
            m * len < n + len,
            n == t * (n / t) + n % t,
            0 <= n % t < t,
            len == n / t + 1,
            0 <= n / t,
            m >= 0,
            t > 0,
    ;
}

/// The step up to the merge comes to the same however the bodies were
/// sharded: where each tree holds what one shard gathers into, the trees
/// folded into an empty tree hold what all bodies, taken in their order,
/// gather into.
pub proof fn lemma_sharded_build(parts: Seq<Seq<Body>>, trees: Seq<TreeNode>)
    requires
        trees.len() == parts.len(),
        forall|k: int| 0 <= k < parts.len() ==> (#[trigger] trees[k])@ == gathered(parts[k]),
        total_mass(joined(parts)) <= u64::MAX,
    ensures
        folded(Map::empty(), trees, -1) == gathered(joined(parts)),
    decreases parts.len(),
{
    if parts.len() > 0 {
        let head = joined(parts.drop_last());
        lemma_total_mass_concat(head, parts.last());
        assert(trees.drop_last().len() == parts.drop_last().len());
        assert forall|k: int| 0 <= k < parts.drop_last().len() implies (
        #[trigger] trees.drop_last()[k])@ == gathered(parts.drop_last()[k]) by {
            assert(trees.drop_last()[k] == trees[k]);
        }
        lemma_sharded_build(parts.drop_last(), trees.drop_last());
        lemma_gathered_concat(head, parts.last());
        assert(trees.last() == trees[trees.len() - 1]);
    }
}

/// Why a tree could not be built from the bodies.
#[derive(Clone, Copy, Debug, PartialEq, Eq, Structural)]
pub enum BuildError {
    /// A body with mass lies outside the domain.
    OutOfDomain,
    /// The masses add up to more than `u64::MAX`.
    MassOverflow,
}

/// Number of bodies in each shard when `n_local` bodies are divided among
/// `n_threads` workers. The shards are cut from the front, so the last may
/// be shorter, and no more than `n_threads` of them are needed.
pub fn shard_len(n_local: usize, n_threads: usize) -> (len: usize)
    requires
        n_threads > 0,
        n_local < usize::MAX,
    ensures
        len == n_local / n_threads + 1,
        len * n_threads > n_local,
{
    proof {
        vstd::arithmetic::div_mod::lemma_fundamental_div_mod(n_local as int, n_threads as int);
        vstd::arithmetic::div_mod::lemma_mod_pos_bound(n_local as int, n_threads as int);
        vstd::arithmetic::div_mod::lemma_div_pos_is_pos(n_local as int, n_threads as int);
        assert((n_local / n_threads + 1) * n_threads == n_threads * (n_local / n_threads)
            + n_threads) by (nonlinear_arith);
        assert(n_local as int / n_threads as int <= n_local) by (nonlinear_arith)
            requires
                n_threads >= 1,
                n_local >= 0,
                n_local == n_threads * (n_local as int / n_threads as int) + (n_local as int
                    % n_threads as int),
                0 <= n_local as int % n_threads as int,
                0 <= n_local as int / n_threads as int,
        ;
    }
    n_local / n_threads + 1
}

/// Builds the tree of one shard: an empty tree over the domain into which
/// every body of the shard that has mass is inserted, in order. Bodies
/// without mass are placeholders and are passed over.
pub fn build_shard(domain: Domain, bodies: &[Body]) -> (r: Result<TreeNode, BuildError>)
    requires
        domain.wf(),
    ensures
        match r {
            Ok(tree) => {
                &&& tree.wf()
                &&& tree.region() == domain
                &&& tree@ == gathered(bodies@)
                &&& tree.mass_sum() == total_mass(bodies@)
                &&& tree.moment_x_sum() == total_moment_x(bodies@)
                &&& tree.moment_y_sum() == total_moment_y(bodies@)
            },
            Err(BuildError::OutOfDomain) => !all_inside(domain, bodies@),
            Err(BuildError::MassOverflow) => all_inside(domain, bodies@) && total_mass(bodies@)
                > u64::MAX,
        },
{
    match survey(domain, bodies) {
        Err(e) => {
            return Err(e);
        },
        Ok(()) => {},
    }
    let n: usize = bodies.len();
    let mut tree = TreeNode::new(domain);
    let mut j: usize = 0;
    while j < n
        invariant
            n == bodies.len(),
            0 <= j <= n,
            all_inside(domain, bodies@),
            total_mass(bodies@) <= u64::MAX,
            tree.wf(),
            tree.region() == domain,
            tree@ == gathered(bodies@.take(j as int)),
            tree.mass_sum() == total_mass(bodies@.take(j as int)),
            tree.moment_x_sum() == total_moment_x(bodies@.take(j as int)),
            tree.moment_y_sum() == total_moment_y(bodies@.take(j as int)),
        decreases n - j,
    {
        let b: Body = bodies[j];
        proof {
            lemma_totals_step(bodies@, j as int);
            lemma_total_mass_grows(bodies@, j + 1);
        }
        if b.mass > 0 {
            tree.insert(&b);
        } else {
            assert(b.mass * b.position.x == 0 && b.mass * b.position.y == 0) by (nonlinear_arith)
                requires
                    b.mass == 0,
            ;
        }
        j += 1;
    }
    assert(bodies@.take(n as int) =~= bodies@);
    Ok(tree)
}

/// Builds the tree of all local bodies the way the workers do together,
/// one shard after the other: cuts the bodies into shards for `n_threads`
/// workers, builds the tree of each shard and folds the trees into one.
/// The outcome is that of [`build_shard`] on all the bodies.
pub fn build_local(domain: Domain, bodies: &[Body], n_threads: usize) -> (r: Result<
    TreeNode,
    BuildError,
>)
    requires
        domain.wf(),
        n_threads > 0,
        bodies@.len() < usize::MAX,
    ensures
        match r {
            Ok(tree) => {
                &&& tree.wf()
                &&& tree.region() == domain
                &&& tree@ == gathered(bodies@)
                &&& tree.mass_sum() == total_mass(bodies@)
                &&& tree.moment_x_sum() == total_moment_x(bodies@)
                &&& tree.moment_y_sum() == total_moment_y(bodies@)
            },
            Err(BuildError::OutOfDomain) => !all_inside(domain, bodies@),
            Err(BuildError::MassOverflow) => all_inside(domain, bodies@) && total_mass(bodies@)
                > u64::MAX,
        },
{
    match survey(domain, bodies) {
        Err(e) => {
            return Err(e);
        },
        Ok(()) => {},
    }
    let n: usize = bodies.len();
    let len: usize = shard_len(n, n_threads);
    let mut parts: Vec<TreeNode> = Vec::new();
    let ghost mut cuts: Seq<Seq<Body>> = Seq::empty();
    let mut start: usize = 0;
    assert(bodies@.take(0) =~= Seq::<Body>::empty());
    while start < n
        invariant
            domain.wf(),
            n == bodies@.len(),
            len > 0,
            0 <= start <= n,
            all_inside(domain, bodies@),
            total_mass(bodies@) <= u64::MAX,
            parts@.len() == cuts.len(),
            forall|k: int|
                0 <= k < cuts.len() ==> (#[trigger] parts@[k]).wf() && parts@[k].region() == domain
                    && parts@[k]@ == gathered(cuts[k]),
            joined(cuts) == bodies@.take(start as int),
            folded_mass(parts@, -1) == total_mass(bodies@.take(start as int)),
            folded_moment_x(parts@, -1) == total_moment_x(bodies@.take(start as int)),
            folded_moment_y(parts@, -1) == total_moment_y(bodies@.take(start as int)),
        decreases n - start,
    {
        let end: usize = if n - start > len {
            start + len
        } else {
            n
        };
        let chunk = slice_subrange(bodies, start, end);
        let ghost head = bodies@.take(start as int);
        proof {
            assert(head + chunk@ =~= bodies@.take(end as int));
            lemma_total_mass_concat(head, chunk@);
            lemma_total_moment_concat(head, chunk@);
            lemma_total_mass_grows(bodies@, end as int);
            assert forall|i: int| 0 <= i < chunk@.len() && (#[trigger] chunk@[i]).mass
                > 0 implies domain.contains(chunk@[i].position) by {
                assert(chunk@[i] == bodies@[start + i]);
            }
        }
        match build_shard(domain, chunk) {
            Ok(tree) => {
                let ghost before = parts@;
                parts.push(tree);
                proof {
                    assert(parts@.drop_last() =~= before);
                    assert(cuts.push(chunk@).drop_last() =~= cuts);
                    cuts = cuts.push(chunk@);
                }
            },
            Err(e) => {
                return Err(e);
            },
        }
        start = end;
    }
    assert(bodies@.take(n as int) =~= bodies@);
    let mut root = TreeNode::new(domain);
    proof {
        lemma_sharded_build(cuts, parts@);
        assert(gathered(bodies@) =~= folded(Map::empty(), parts@, -1));
    }
    match merge_all(&mut root, parts) {
        Ok(()) => Ok(root),
        Err(_) => Err(BuildError::MassOverflow),
    }
}

/// Whether a tree can be built from the bodies: whether all that have mass
/// lie in the domain and the masses can be added up.
fn survey(domain: Domain, bodies: &[Body]) -> (r: Result<(), BuildError>)
    requires
        domain.wf(),
    ensures
        match r {
            Ok(()) => all_inside(domain, bodies@) && total_mass(bodies@) <= u64::MAX,
            Err(BuildError::OutOfDomain) => !all_inside(domain, bodies@),
            Err(BuildError::MassOverflow) => all_inside(domain, bodies@) && total_mass(bodies@)
                > u64::MAX,
        },
{
    let n: usize = bodies.len();
    let mut sum: u128 = 0;
    let mut i: usize = 0;
    while i < n
        invariant
            domain.wf(),
            n == bodies.len(),
            0 <= i <= n,
            sum == total_mass(bodies@.take(i as int)),
            sum <= i * u64::MAX,
            all_inside(domain, bodies@.take(i as int)),
        decreases n - i,
    {
        let b: Body = bodies[i];
        if b.mass > 0 && !domain.holds(b.position) {
            return Err(BuildError::OutOfDomain);
        }
        proof {
            lemma_totals_step(bodies@, i as int);
            assert((i + 1) * u64::MAX == i * u64::MAX + u64::MAX) by (nonlinear_arith);
            assert(i * u64::MAX <= usize::MAX * u64::MAX) by (nonlinear_arith)
                requires
                    i <= usize::MAX,
            ;
            assert forall|k: int|
                0 <= k < i + 1 && (#[trigger] bodies@.take(i + 1)[k]).mass > 0 implies domain.contains(
                bodies@.take(i + 1)[k].position,
            ) by {
                if k < i {
                    assert(bodies@.take(i as int)[k] == bodies@.take(i + 1)[k]);
                }
            }
        }
        sum = sum + b.mass as u128;
        i += 1;
    }
    assert(bodies@.take(n as int) =~= bodies@);
    if sum > u64::MAX as u128 {
        return Err(BuildError::MassOverflow);
    }
    Ok(())
}

/// What a tree holds after the trees of `parts` have been merged into it
/// one after the other, the one at index `skip` left out.
pub open spec fn folded(base: Map<Point, Body>, parts: Seq<TreeNode>, skip: int) -> Map<
    Point,
    Body,
>
    decreases parts.len(),
{
    if parts.len() == 0 {
        base
    } else if parts.len() - 1 == skip {
        folded(base, parts.drop_last(), skip)
    } else {
        union_of(folded(base, parts.drop_last(), skip), parts.last()@)
    }
}

/// Sum of the masses of the trees, the one at index `skip` left out.
pub open spec fn folded_mass(parts: Seq<TreeNode>, skip: int) -> nat
    decreases parts.len(),
{
    if parts.len() == 0 {
        0
    } else if parts.len() - 1 == skip {
        folded_mass(parts.drop_last(), skip)
    } else {
        folded_mass(parts.drop_last(), skip) + parts.last().mass_sum()
    }
}

/// Sum of the moments about the `y` axis of the trees, the one at index
/// `skip` left out.
pub open spec fn folded_moment_x(parts: Seq<TreeNode>, skip: int) -> int
    decreases parts.len(),
{
    if parts.len() == 0 {
        0
    } else if parts.len() - 1 == skip {
        folded_moment_x(parts.drop_last(), skip)
    } else {
        folded_moment_x(parts.drop_last(), skip) + parts.last().moment_x_sum()
    }
}

/// Sum of the moments about the `x` axis of the trees, the one at index
/// `skip` left out.
pub open spec fn folded_moment_y(parts: Seq<TreeNode>, skip: int) -> int
    decreases parts.len(),
{
    if parts.len() == 0 {
        0
    } else if parts.len() - 1 == skip {
        folded_moment_y(parts.drop_last(), skip)
    } else {
        folded_moment_y(parts.drop_last(), skip) + parts.last().moment_y_sum()
    }
}

/// Every tree is well formed.
pub open spec fn all_wf(parts: Seq<TreeNode>) -> bool {
    forall|i: int| 0 <= i < parts.len() ==> (#[trigger] parts[i]).wf()
}

/// Every tree but the one at index `skip` covers the domain.
pub open spec fn all_cover(domain: Domain, parts: Seq<TreeNode>, skip: int) -> bool {
    forall|i: int| 0 <= i < parts.len() && i != skip ==> (#[trigger] parts[i]).region() == domain
}

/// The folds over a sequence that is one tree longer.
pub proof fn lemma_folded_step(base: Map<Point, Body>, parts: Seq<TreeNode>, skip: int, i: int)
    requires
        0 <= i < parts.len(),
    ensures
        folded(base, parts.take(i + 1), skip) == if i == skip {
            folded(base, parts.take(i), skip)
        } else {
            union_of(folded(base, parts.take(i), skip), parts[i]@)
        },
        folded_mass(parts.take(i + 1), skip) == folded_mass(parts.take(i), skip) + if i == skip {
            0
        } else {
            parts[i].mass_sum()
        },
        folded_moment_x(parts.take(i + 1), skip) == folded_moment_x(parts.take(i), skip) + if i
            == skip {
            0
        } else {
            parts[i].moment_x_sum()
        },
        folded_moment_y(parts.take(i + 1), skip) == folded_moment_y(parts.take(i), skip) + if i
            == skip {
            0
        } else {
            parts[i].moment_y_sum()
        },
{
    assert(parts.take(i + 1).drop_last() =~= parts.take(i));
}

/// The mass of the first trees is at most the mass of all.
pub proof fn lemma_folded_mass_grows(parts: Seq<TreeNode>, skip: int, i: int)
    requires
        0 <= i <= parts.len(),
    ensures
        folded_mass(parts.take(i), skip) <= folded_mass(parts, skip),
    decreases parts.len() - i,
{
    if i < parts.len() {
        lemma_folded_step(Map::empty(), parts, skip, i);
        lemma_folded_mass_grows(parts, skip, i + 1);
    } else {
        assert(parts.take(i) =~= parts);
    }
}

/// Why trees could not be folded into one.
#[derive(Clone, Copy, Debug, PartialEq, Eq, Structural)]
pub enum MergeError {
    /// The trees do not include one for the rank that is to be left out.
    NoSuchRank,
    /// A tree covers another domain than the tree it is to be merged into.
    DomainMismatch,
    /// The masses add up to more than `u64::MAX`.
    MassOverflow,
}

/// Folds trees into `root`, one after the other, but for the one at index
/// `skip`. Either all of them are merged or, on an error, none.
fn merge_but(root: &mut TreeNode, parts: Vec<TreeNode>, skip: usize) -> (r: Result<
    (),
    MergeError,
>)
    requires
        old(root).wf(),
        all_wf(parts@),
    ensures
        final(root).wf(),
        final(root).region() == old(root).region(),
        match r {
            Ok(()) => {
                &&& all_cover(old(root).region(), parts@, skip as int)
                &&& final(root)@ == folded(old(root)@, parts@, skip as int)
                &&& final(root).mass_sum() == old(root).mass_sum() + folded_mass(
                    parts@,
                    skip as int,
                )
                &&& final(root).moment_x_sum() == old(root).moment_x_sum() + folded_moment_x(
                    parts@,
                    skip as int,
                )
                &&& final(root).moment_y_sum() == old(root).moment_y_sum() + folded_moment_y(
                    parts@,
                    skip as int,
                )
            },
            Err(MergeError::DomainMismatch) => *final(root) == *old(root) && !all_cover(
                old(root).region(),
                parts@,
                skip as int,
            ),
            Err(MergeError::MassOverflow) => *final(root) == *old(root) && all_cover(
                old(root).region(),
                parts@,
                skip as int,
            ) && old(root).mass_sum() + folded_mass(parts@, skip as int) > u64::MAX,
            Err(MergeError::NoSuchRank) => false,
        },
{
    let domain: Domain = root.domain();
    let n: usize = parts.len();
    let mut sum: u128 = root.mass() as u128;
    let mut i: usize = 0;
    while i < n
        invariant
            n == parts.len(),
            0 <= i <= n,
            all_wf(parts@),
            *root == *old(root),
            root.wf(),
            domain == root.region(),
            sum == root.mass_sum() + folded_mass(parts@.take(i as int), skip as int),
            sum <= (i + 1) * u64::MAX,
            all_cover(domain, parts@.take(i as int), skip as int),
        decreases n - i,
    {
        proof {
            lemma_folded_step(Map::empty(), parts@, skip as int, i as int);
            assert((i + 2) * u64::MAX == (i + 1) * u64::MAX + u64::MAX) by (nonlinear_arith);
            assert((i + 1) * u64::MAX <= usize::MAX * u64::MAX) by (nonlinear_arith)
                requires
                    i + 1 <= usize::MAX,
            ;
            assert(parts@[i as int].wf());
        }
        if i != skip {
            let d: Domain = parts[i].domain();
            if d.center_x2 != domain.center_x2 || d.center_y2 != domain.center_y2 || d.size
                != domain.size {
                assert(parts@[i as int].region() != domain);
                return Err(MergeError::DomainMismatch);
            }
            sum = sum + parts[i].mass() as u128;
        }
        proof {
            assert forall|k: int|
                0 <= k < i + 1 && k != skip implies (#[trigger] parts@.take(i + 1)[k]).region()
                == domain by {
                if k < i {
                    assert(parts@.take(i as int)[k] == parts@.take(i + 1)[k]);
                }
            }
        }
        i += 1;
    }
    assert(parts@.take(n as int) =~= parts@);
    if sum > u64::MAX as u128 {
        return Err(MergeError::MassOverflow);
    }
    let ghost all = parts@;
    let ghost start = root@;
    let ghost start_mass = root.mass_sum();
    let ghost start_mx = root.moment_x_sum();
    let ghost start_my = root.moment_y_sum();
    let mut k: usize = 0;
    for tree in it: parts.into_iter()
        invariant
            it.seq() == all,
            k == it.index(),
            k <= all.len(),
            all.len() <= usize::MAX,
            all_wf(all),
            all_cover(domain, all, skip as int),
            start_mass + folded_mass(all, skip as int) <= u64::MAX,
            root.wf(),
            root.region() == domain,
            root@ == folded(start, all.take(k as int), skip as int),
            root.mass_sum() == start_mass + folded_mass(all.take(k as int), skip as int),
            root.moment_x_sum() == start_mx + folded_moment_x(all.take(k as int), skip as int),
            root.moment_y_sum() == start_my + folded_moment_y(all.take(k as int), skip as int),
    {
        assert(k < all.len());
        proof {
            lemma_folded_step(start, all, skip as int, k as int);
            lemma_folded_mass_grows(all, skip as int, k + 1);
            assert(all[k as int].wf());
        }
        if k != skip {
            root.merge(tree);
        }
        k += 1;
    }
    assert(all.take(k as int) =~= all);
    Ok(())
}

/// Folds the partial trees of a process into `root`, in their order.
/// Either all of them are merged or, on an error, none.
pub fn merge_all(root: &mut TreeNode, parts: Vec<TreeNode>) -> (r: Result<(), MergeError>)
    requires
        old(root).wf(),
        all_wf(parts@),
    ensures
        final(root).wf(),
        final(root).region() == old(root).region(),
        match r {
            Ok(()) => {
                &&& all_cover(old(root).region(), parts@, -1)
                &&& final(root)@ == folded(old(root)@, parts@, -1)
                &&& final(root).mass_sum() == old(root).mass_sum() + folded_mass(parts@, -1)
                &&& final(root).moment_x_sum() == old(root).moment_x_sum() + folded_moment_x(
                    parts@,
                    -1,
                )
                &&& final(root).moment_y_sum() == old(root).moment_y_sum() + folded_moment_y(
                    parts@,
                    -1,
                )
            },
            Err(MergeError::DomainMismatch) => *final(root) == *old(root) && !all_cover(
                old(root).region(),
                parts@,
                -1,
            ),
            Err(MergeError::MassOverflow) => *final(root) == *old(root) && all_cover(
                old(root).region(),
                parts@,
                -1,
            ) && old(root).mass_sum() + folded_mass(parts@, -1) > u64::MAX,
            Err(MergeError::NoSuchRank) => false,
        },
{
    let n: usize = parts.len();
    proof {
        lemma_skip_outside(old(root)@, parts@, n as int, -1);
    }
    merge_but(root, parts, n)
}

/// Folds the trees of all processes into `root`, the tree of the process
/// itself, in the order of their ranks. The tree at index `rank` is the
/// process's own and is left out. Either all others are merged or, on an
/// error, none.
pub fn merge_peers(root: &mut TreeNode, peers: Vec<TreeNode>, rank: usize) -> (r: Result<
    (),
    MergeError,
>)
    requires
        old(root).wf(),
        all_wf(peers@),
    ensures
        final(root).wf(),
        final(root).region() == old(root).region(),
        match r {
            Ok(()) => {
                &&& rank < peers.len()
                &&& all_cover(old(root).region(), peers@, rank as int)
                &&& final(root)@ == folded(old(root)@, peers@, rank as int)
                &&& final(root).mass_sum() == old(root).mass_sum() + folded_mass(
                    peers@,
                    rank as int,
                )
                &&& final(root).moment_x_sum() == old(root).moment_x_sum() + folded_moment_x(
                    peers@,
                    rank as int,
                )
                &&& final(root).moment_y_sum() == old(root).moment_y_sum() + folded_moment_y(
                    peers@,
                    rank as int,
                )
            },
            Err(MergeError::NoSuchRank) => *final(root) == *old(root) && rank >= peers.len(),
            Err(MergeError::DomainMismatch) => *final(root) == *old(root) && rank < peers.len()
                && !all_cover(old(root).region(), peers@, rank as int),
            Err(MergeError::MassOverflow) => *final(root) == *old(root) && rank < peers.len()
                && all_cover(old(root).region(), peers@, rank as int) && old(root).mass_sum()
                + folded_mass(peers@, rank as int) > u64::MAX,
        },
{
    if rank >= peers.len() {
        return Err(MergeError::NoSuchRank);
    }
    merge_but(root, peers, rank)
}

/// Why the trees that were gathered from the processes could not be taken
/// in. Any of these ends the run: after it the processes no longer agree.
#[derive(Clone, Copy, Debug, PartialEq, Eq, Structural)]
pub enum StepError {
    /// The buffer is not as long as the lengths that were gathered say.
    Frame,
    /// The bytes of a process are not those of a tree.
    Decode(CodecError),
    /// The trees could not be merged.
    Merge(MergeError),
}

/// The bytes of process `i` in the gathered buffer.
pub open spec fn peer_part(plan: ExchangePlan, buffer: Seq<u8>, i: int) -> Seq<u8> {
    buffer.subrange(prefix_sum(plan.counts(), i), prefix_sum(plan.counts(), i + 1))
}

/// The bytes of each of the first `n` processes are those of a tree.
pub open spec fn all_decode(plan: ExchangePlan, buffer: Seq<u8>, n: int) -> bool {
    forall|i: int| 0 <= i < n ==> (#[trigger] decoded(peer_part(plan, buffer, i))) is Ok
}

/// The trees of the processes, in the order of their ranks.
pub open spec fn received(plan: ExchangePlan, buffer: Seq<u8>) -> Seq<TreeNode> {
    Seq::new(plan.counts().len(), |i: int| decoded(peer_part(plan, buffer, i)).unwrap())
}

/// Takes in what the exchange brought: reads the tree of every process
/// from the gathered buffer, in the order of ranks, and merges all but the
/// one at `rank`, the process's own, into `root`. The first set of bytes
/// that is no tree ends it, and so does a buffer of the wrong length; on
/// any error `root` is left as it was.
pub fn absorb_peers(root: &mut TreeNode, plan: &ExchangePlan, buffer: &[u8], rank: usize) -> (r:
    Result<(), StepError>)
    requires
        old(root).wf(),
        plan.wf(),
    ensures
        final(root).wf(),
        final(root).region() == old(root).region(),
        r is Err ==> *final(root) == *old(root),
        match r {
            Ok(()) => {
                &&& buffer@.len() == plan.total()
                &&& rank < plan.counts().len()
                &&& all_decode(*plan, buffer@, plan.counts().len() as int)
                &&& all_cover(old(root).region(), received(*plan, buffer@), rank as int)
                &&& final(root)@ == folded(old(root)@, received(*plan, buffer@), rank as int)
                &&& final(root).mass_sum() == old(root).mass_sum() + folded_mass(
                    received(*plan, buffer@),
                    rank as int,
                )
            },
            Err(StepError::Frame) => buffer@.len() != plan.total(),
            Err(StepError::Decode(e)) => buffer@.len() == plan.total() && exists|i: int|
                0 <= i < plan.counts().len() && all_decode(*plan, buffer@, i) && decoded(
                    peer_part(*plan, buffer@, i),
                ) == Err::<TreeNode, CodecError>(e),
            Err(StepError::Merge(e)) => {
                &&& buffer@.len() == plan.total()
                &&& all_decode(*plan, buffer@, plan.counts().len() as int)
                &&& match e {
                    MergeError::NoSuchRank => rank >= plan.counts().len(),
                    MergeError::DomainMismatch => rank < plan.counts().len() && !all_cover(
                        old(root).region(),
                        received(*plan, buffer@),
                        rank as int,
                    ),
                    MergeError::MassOverflow => rank < plan.counts().len() && all_cover(
                        old(root).region(),
                        received(*plan, buffer@),
                        rank as int,
                    ) && old(root).mass_sum() + folded_mass(
                        received(*plan, buffer@),
                        rank as int,
                    ) > u64::MAX,
                }
            },
        },
{
    if buffer.len() != plan.total_len() {
        return Err(StepError::Frame);
    }
    let n: usize = plan.len();
    let mut peers: Vec<TreeNode> = Vec::new();
    let mut i: usize = 0;
    while i < n
        invariant
            plan.wf(),
            n == plan.counts().len(),
            buffer@.len() == plan.total(),
            0 <= i <= n,
            *root == *old(root),
            root.wf(),
            all_decode(*plan, buffer@, i as int),
            peers@ == received(*plan, buffer@).take(i as int),
            all_wf(peers@),
        decreases n - i,
    {
        let bytes = plan.peer_bytes(buffer, i);
        match TreeNode::decode(bytes) {
            Ok(tree) => {
                peers.push(tree);
                proof {
                    assert(peers@ =~= received(*plan, buffer@).take(i + 1));
                }
            },
            Err(e) => {
                return Err(StepError::Decode(e));
            },
        }
        i += 1;
    }
    assert(peers@ =~= received(*plan, buffer@));
    match merge_peers(root, peers, rank) {
        Ok(()) => Ok(()),
        Err(e) => Err(StepError::Merge(e)),
    }
}

/// Leaving out an index that no tree has leaves out nothing, whichever
/// index it is.
pub proof fn lemma_skip_outside(base: Map<Point, Body>, parts: Seq<TreeNode>, a: int, b: int)
    requires
        a < 0 || a >= parts.len(),
        b < 0 || b >= parts.len(),
    ensures
        folded(base, parts, a) == folded(base, parts, b),
        folded_mass(parts, a) == folded_mass(parts, b),
        folded_moment_x(parts, a) == folded_moment_x(parts, b),
        folded_moment_y(parts, a) == folded_moment_y(parts, b),
    decreases parts.len(),
{
    if parts.len() > 0 {
        lemma_skip_outside(base, parts.drop_last(), a, b);
    }
}

} // verus!
