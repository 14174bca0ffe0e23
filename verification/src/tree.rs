//! What holds of every search tree.

use crate::arm::MoveNode;
use crate::node::{pair_key, Node};
use crate::number::{evaluates, Expr, Single};
use vstd::prelude::*;

verus! {

/// A search tree: the root, and after it every other node somewhere behind its parent.
#[derive(Debug)]
pub struct Tree<C, I, S: Single> {
    pub nodes: Vec<Node<C, I, S>>,
}

/// A choice among the children of a node: all of them, or those that were reached by a move of
/// one side from a range of moves, the upper end left out.
pub enum Via {
    Any,
    One(int, int),
    Two(int, int),
}

/// The moves below `m` of side one, or of side two.
pub open spec fn below(one: bool, m: int) -> Via {
    if one {
        Via::One(0, m)
    } else {
        Via::Two(0, m)
    }
}

/// The `i`-th move of side one, or of side two.
pub open spec fn just(one: bool, i: int) -> Via {
    if one {
        Via::One(i, i + 1)
    } else {
        Via::Two(i, i + 1)
    }
}

/// `node` is one of the chosen children of the node at `p`.
pub open spec fn passes<C, I, S: Single>(node: Node<C, I, S>, p: int, via: Via) -> bool {
    &&& node.parent is Some
    &&& node.parent->0 == p
    &&& match via {
        Via::Any => true,
        Via::One(lo, hi) => lo <= node.s1_choice < hi,
        Via::Two(lo, hi) => lo <= node.s2_choice < hi,
    }
}

/// The visits of the chosen children of the node at `p`, added up.
pub open spec fn tally<C, I, S: Single>(nodes: Seq<Node<C, I, S>>, p: int, via: Via) -> nat
    decreases nodes.len(),
{
    if nodes.len() == 0 {
        0
    } else {
        tally(nodes.drop_last(), p, via) + if passes(nodes.last(), p, via) {
            nodes.last().times_visited as nat
        } else {
            0
        }
    }
}

/// The depth below a node of depth `depth`. The count stops at what a `u16` can hold.
pub open spec fn deeper(depth: u16) -> int {
    if depth < u16::MAX {
        depth + 1
    } else {
        depth as int
    }
}

/// The node at `c` hangs below a node before it, from a move of each side that is listed there.
pub open spec fn linked<C, I, S: Single>(nodes: Seq<Node<C, I, S>>, c: int) -> bool {
    let node = nodes[c];
    let parent = nodes[node.parent->0 as int];
    &&& !node.root
    &&& node.parent is Some
    &&& node.parent->0 < c
    &&& parent.s1_options is Some
    &&& parent.s2_options is Some
    &&& node.s1_choice < parent.s1_options->0@.len()
    &&& node.s2_choice < parent.s2_options->0@.len()
    &&& node.depth == deeper(parent.depth)
}

/// The bucket that the node at `n` holds for the moves `a` and `b` is a run of its children, and
/// the moves are among those listed there.
pub open spec fn bucket_placed<C, I, S: Single>(
    nodes: Seq<Node<C, I, S>>,
    n: int,
    a: usize,
    b: usize,
) -> bool {
    nodes[n].bucket(a, b) is Some ==> {
        let bucket = nodes[n].bucket(a, b)->0;
        &&& nodes[n].s1_options is Some
        &&& nodes[n].s2_options is Some
        &&& a < nodes[n].s1_options->0@.len()
        &&& b < nodes[n].s2_options->0@.len()
        &&& bucket.count > 0
        &&& n < bucket.first
        &&& bucket.first + bucket.count <= nodes.len()
        &&& forall|c: int|
            #![trigger nodes[c]]
            bucket.first <= c < bucket.first + bucket.count ==> {
                &&& nodes[c].parent == Some(n as usize)
                &&& nodes[c].s1_choice == a % 256
                &&& nodes[c].s2_choice == b % 256
            }
    }
}

/// The node at `p` holds the one at `c` among the outcomes of the moves `a` and `b`.
pub open spec fn holds<C, I, S: Single>(
    nodes: Seq<Node<C, I, S>>,
    p: int,
    a: usize,
    b: usize,
    c: int,
) -> bool {
    &&& nodes[p].bucket(a, b) is Some
    &&& nodes[p].bucket(a, b)->0.first <= c
    &&& c < nodes[p].bucket(a, b)->0.first + nodes[p].bucket(a, b)->0.count
}

/// The node at `p` holds none among the outcomes of two pairs of moves.
pub open spec fn apart<C, I, S: Single>(nodes: Seq<Node<C, I, S>>, p: int) -> bool {
    forall|a: usize, b: usize, d: usize, e: usize, c: int| #[trigger]
        holds(nodes, p, a, b, c) && #[trigger] holds(nodes, p, d, e, c) ==> a == d && b == e
}

/// Whatever the node holds, it holds for a pair of moves.
pub open spec fn keyed<C, I, S: Single>(node: Node<C, I, S>) -> bool {
    forall|key: u128| #[trigger]
        node.children@.contains_key(key) ==> exists|a: usize, b: usize| key == #[trigger]
            pair_key(a, b)
}

/// The node at `c` is held by its parent.
pub open spec fn held<C, I, S: Single>(nodes: Seq<Node<C, I, S>>, c: int) -> bool {
    exists|a: usize, b: usize| #[trigger] holds(nodes, nodes[c].parent->0 as int, a, b, c)
}

/// Every node but the root is held by its parent.
pub open spec fn all_held<C, I, S: Single>(nodes: Seq<Node<C, I, S>>) -> bool {
    forall|c: int| 0 < c < nodes.len() ==> #[trigger] held(nodes, c)
}

/// Every move has been visited as often as the children that it leads to.
pub open spec fn side_counted<C, I, S: Single>(
    nodes: Seq<Node<C, I, S>>,
    n: int,
    options: Seq<MoveNode<C, S>>,
    one: bool,
) -> bool {
    forall|i: int|
        0 <= i < options.len() ==> (#[trigger] options[i]).visits == tally(
            nodes,
            n,
            just(one, i),
        )
}

/// A move without visits still has the zero that it was listed with as its total score.
pub open spec fn unvisited_unscored<C, S: Single>(options: Seq<MoveNode<C, S>>) -> bool {
    forall|i: int|
        0 <= i < options.len() && (#[trigger] options[i]).visits == 0 ==> evaluates(
            Expr::Count(0),
            options[i].total_score,
        )
}

/// The visits noted for the moves of a side at the node at `n` agree with those of its children,
/// and no move has a score without a visit.
pub open spec fn side_agrees<C, I, S: Single>(
    nodes: Seq<Node<C, I, S>>,
    n: int,
    one: bool,
) -> bool {
    nodes[n].options(one) is Some ==> {
        &&& side_counted(nodes, n, nodes[n].options(one)->0@, one)
        &&& unvisited_unscored(nodes[n].options(one)->0@)
    }
}

/// The visits noted at the node at `n` agree with those of its children.
pub open spec fn counted<C, I, S: Single>(nodes: Seq<Node<C, I, S>>, n: int) -> bool {
    &&& side_agrees(nodes, n, true)
    &&& side_agrees(nodes, n, false)
    &&& tally(nodes, n, Via::Any) <= nodes[n].times_visited
}

/// The nodes form a tree below the first of them.
pub open spec fn rooted<C, I, S: Single>(nodes: Seq<Node<C, I, S>>) -> bool {
    &&& 0 < nodes.len() <= usize::MAX
    &&& nodes[0].root
    &&& nodes[0].parent is None
    &&& nodes[0].depth == 0
    &&& forall|c: int| 0 < c < nodes.len() ==> #[trigger] linked(nodes, c)
    &&& forall|n: int|
        0 <= n < nodes.len() ==> ((#[trigger] nodes[n]).s1_options is Some
            <==> nodes[n].s2_options is Some)
    &&& forall|n: int, a: usize, b: usize|
        0 <= n < nodes.len() ==> #[trigger] bucket_placed(nodes, n, a, b)
    &&& forall|n: int| 0 <= n < nodes.len() ==> #[trigger] apart(nodes, n)
    &&& forall|n: int| 0 <= n < nodes.len() ==> keyed(#[trigger] nodes[n])
}

/// `new` are the moves `old`, where these were listed already, or what has been learned of them.
pub open spec fn side_kept<C, S: Single>(
    old: Option<Vec<MoveNode<C, S>>>,
    new: Option<Vec<MoveNode<C, S>>>,
) -> bool {
    old is Some ==> new is Some && new->0@.len() == old->0@.len()
}

/// `new` is the node `old` in the same place, with the moves that were listed there.
pub open spec fn kept<C, I, S: Single>(old: Node<C, I, S>, new: Node<C, I, S>) -> bool {
    &&& new.same_place(old)
    &&& side_kept(old.s1_options, new.s1_options)
    &&& side_kept(old.s2_options, new.s2_options)
    &&& new.s1_options is Some <==> new.s2_options is Some
}

/// The nodes still form a tree where each of them is kept, and their parents still hold them.
pub proof fn lemma_rooted_kept<C, I, S: Single>(old: Seq<Node<C, I, S>>, new: Seq<Node<C, I, S>>)
    requires
        rooted(old),
        new.len() == old.len(),
        forall|x: int| 0 <= x < old.len() ==> kept(old[x], #[trigger] new[x]),
    ensures
        rooted(new),
        all_held(old) ==> all_held(new),
{
    assert(kept(old[0], new[0]));
    assert forall|c: int| 0 < c < new.len() implies #[trigger] linked(new, c) by {
        assert(linked(old, c));
        assert(kept(old[c], new[c]));
        let p = old[c].parent->0 as int;
        assert(kept(old[p], new[p]));
    }
    assert forall|n: int, a: usize, b: usize| 0 <= n < new.len() implies #[trigger] bucket_placed(
        new,
        n,
        a,
        b,
    ) by {
        assert(bucket_placed(old, n, a, b));
        assert(kept(old[n], new[n]));
        if new[n].bucket(a, b) is Some {
            let bucket = new[n].bucket(a, b)->0;
            assert forall|c: int|
                #![trigger new[c]]
                bucket.first <= c < bucket.first + bucket.count implies {
                &&& new[c].parent == Some(n as usize)
                &&& new[c].s1_choice == a % 256
                &&& new[c].s2_choice == b % 256
            } by {
                assert(kept(old[c], new[c]));
                assert(old[c].parent == Some(n as usize));
            }
        }
    }
    assert forall|p: int, a: usize, b: usize, c: int| 0 <= p < new.len() implies #[trigger] holds(
        new,
        p,
        a,
        b,
        c,
    ) == holds(old, p, a, b, c) by {
        assert(kept(old[p], new[p]));
    }
    assert forall|n: int| 0 <= n < new.len() implies #[trigger] apart(new, n) by {
        assert(apart(old, n));
    }
    assert forall|n: int| 0 <= n < new.len() implies keyed(#[trigger] new[n]) by {
        assert(kept(old[n], new[n]));
        assert(keyed(old[n]));
    }
    assert forall|n: int| 0 <= n < new.len() implies ((#[trigger] new[n]).s1_options is Some
        <==> new[n].s2_options is Some) by {
        assert(kept(old[n], new[n]));
    }
    if all_held(old) {
        assert forall|c: int| 0 < c < new.len() implies #[trigger] held(new, c) by {
            assert(held(old, c));
            assert(linked(old, c));
            assert(kept(old[c], new[c]));
            let p = old[c].parent->0 as int;
            let (a, b) = choose|a: usize, b: usize| #[trigger] holds(old, p, a, b, c);
            assert(holds(new, p, a, b, c));
        }
    }
}

/// The nodes form a tree, and the visits in it agree.
pub open spec fn well_formed<C, I, S: Single>(nodes: Seq<Node<C, I, S>>) -> bool {
    &&& rooted(nodes)
    &&& forall|n: int| 0 <= n < nodes.len() ==> #[trigger] counted(nodes, n)
}

impl<C, I, S: Single> Tree<C, I, S> {
    pub open spec fn wf(self) -> bool {
        well_formed(self.nodes@)
    }
}

/// The node at `x` is the one at `leaf` or above it.
pub open spec fn on_path<C, I, S: Single>(nodes: Seq<Node<C, I, S>>, leaf: int, x: int) -> bool
    decreases leaf,
{
    ||| x == leaf
    ||| 0 < leaf < nodes.len() && nodes[leaf].parent is Some && nodes[leaf].parent->0 < leaf
        && on_path(nodes, nodes[leaf].parent->0 as int, x)
}

/// The child of the node at `x` on the way down to `leaf`.
pub open spec fn toward<C, I, S: Single>(nodes: Seq<Node<C, I, S>>, leaf: int, x: int) -> int
    decreases leaf,
{
    if 0 < leaf < nodes.len() && nodes[leaf].parent is Some && nodes[leaf].parent->0 < leaf
        && nodes[leaf].parent->0 != x {
        toward(nodes, nodes[leaf].parent->0 as int, x)
    } else {
        leaf
    }
}

/// The nodes from below the root down to `n`.
pub open spec fn path_to<C, I, S: Single>(nodes: Seq<Node<C, I, S>>, n: int) -> Seq<int>
    decreases n,
{
    if 0 < n < nodes.len() && nodes[n].parent is Some && nodes[n].parent->0 < n {
        path_to(nodes, nodes[n].parent->0 as int).push(n)
    } else {
        Seq::empty()
    }
}

/// Every node but the root hangs below one before it.
pub open spec fn parents_before<C, I, S: Single>(nodes: Seq<Node<C, I, S>>) -> bool {
    forall|c: int|
        0 < c < nodes.len() ==> (#[trigger] nodes[c]).parent is Some && nodes[c].parent->0 < c
}

pub proof fn lemma_parents_before<C, I, S: Single>(nodes: Seq<Node<C, I, S>>)
    requires
        rooted(nodes),
    ensures
        parents_before(nodes),
{
    assert forall|c: int| 0 < c < nodes.len() implies (#[trigger] nodes[c]).parent is Some
        && nodes[c].parent->0 < c by {
        assert(linked(nodes, c));
    }
}

pub proof fn lemma_path_root<C, I, S: Single>(nodes: Seq<Node<C, I, S>>, leaf: int)
    requires
        parents_before(nodes),
        0 <= leaf < nodes.len(),
    ensures
        on_path(nodes, leaf, 0),
    decreases leaf,
{
    if leaf > 0 {
        lemma_path_root(nodes, nodes[leaf].parent->0 as int);
    }
}

pub proof fn lemma_path_above<C, I, S: Single>(nodes: Seq<Node<C, I, S>>, leaf: int, x: int)
    requires
        on_path(nodes, leaf, x),
        0 <= leaf,
    ensures
        0 <= x <= leaf,
    decreases leaf,
{
    if x != leaf {
        lemma_path_above(nodes, nodes[leaf].parent->0 as int, x);
    }
}

/// A node above `leaf` whose parent is `p` is the child of `p` on the way to `leaf`.
pub proof fn lemma_toward_unique<C, I, S: Single>(
    nodes: Seq<Node<C, I, S>>,
    leaf: int,
    x: int,
    p: int,
)
    requires
        parents_before(nodes),
        0 <= leaf < nodes.len(),
        on_path(nodes, leaf, x),
        0 < x,
        nodes[x].parent == Some(p as usize),
        0 <= p <= usize::MAX,
    ensures
        on_path(nodes, leaf, p),
        p < x,
        p != leaf,
        toward(nodes, leaf, p) == x,
    decreases leaf,
{
    lemma_path_above(nodes, leaf, x);
    if x != leaf {
        lemma_toward_unique(nodes, nodes[leaf].parent->0 as int, x, p);
        lemma_path_above(nodes, nodes[leaf].parent->0 as int, x);
    } else {
        assert(on_path(nodes, p, p));
    }
}

pub proof fn lemma_toward<C, I, S: Single>(nodes: Seq<Node<C, I, S>>, leaf: int, p: int)
    requires
        parents_before(nodes),
        0 <= leaf < nodes.len(),
        on_path(nodes, leaf, p),
        p != leaf,
    ensures
        on_path(nodes, leaf, toward(nodes, leaf, p)),
        0 <= p < toward(nodes, leaf, p) <= leaf,
        nodes[toward(nodes, leaf, p)].parent->0 == p,
    decreases leaf,
{
    lemma_path_above(nodes, leaf, p);
    let q = nodes[leaf].parent->0 as int;
    if q != p {
        lemma_toward(nodes, q, p);
    }
}

/// Paths depend on the parents of the nodes alone.
pub proof fn lemma_path_frame<C, I, S: Single>(
    a: Seq<Node<C, I, S>>,
    b: Seq<Node<C, I, S>>,
    leaf: int,
    x: int,
)
    requires
        0 <= leaf < a.len(),
        a.len() <= b.len(),
        forall|c: int| 0 <= c < a.len() ==> (#[trigger] b[c]).parent == a[c].parent,
    ensures
        on_path(a, leaf, x) == on_path(b, leaf, x),
        toward(a, leaf, x) == toward(b, leaf, x),
        path_to(a, leaf) == path_to(b, leaf),
    decreases leaf,
{
    assert(b[leaf].parent == a[leaf].parent);
    if 0 < leaf && a[leaf].parent is Some && a[leaf].parent->0 < leaf {
        lemma_path_frame(a, b, a[leaf].parent->0 as int, x);
    }
}

} // verus!
