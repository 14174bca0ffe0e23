//! What the figures on a search stand for.

use crate::backpropagate::{credited_with, node_credited};
use crate::battle::Battle;
use crate::iteration::{is_round, iterated, Round};
use crate::laws::{law_depth_counts_steps, lemma_expanded, lemma_selected};
use crate::node::Node;
use crate::number::Single;
use crate::search::{law_searched, lemma_last_round, searched, SearchStats};
use crate::selection::relisted;
use crate::tally::visited_once_more;
use crate::tree::{
    lemma_parents_before, lemma_path_above, linked, on_path, parents_before, path_to, well_formed,
};
use vstd::prelude::*;

verus! {

/// The visits of all nodes but the root, added up.
pub open spec fn visits_below_root<C, I, S: Single>(nodes: Seq<Node<C, I, S>>) -> nat
    decreases nodes.len(),
{
    if nodes.len() <= 1 {
        0
    } else {
        visits_below_root(nodes.drop_last()) + nodes.last().times_visited as nat
    }
}

/// How many nodes but the root are above the one at `leaf`, or that one, among the first `m`.
spec fn steps_among<C, I, S: Single>(nodes: Seq<Node<C, I, S>>, leaf: int, m: int) -> nat
    decreases m,
{
    if m <= 1 {
        0
    } else {
        steps_among(nodes, leaf, m - 1) + if on_path(nodes, leaf, m - 1) {
            1nat
        } else {
            0
        }
    }
}

proof fn lemma_steps_of_parent<C, I, S: Single>(nodes: Seq<Node<C, I, S>>, leaf: int, m: int)
    requires
        parents_before(nodes),
        0 < leaf < nodes.len(),
        m <= leaf,
    ensures
        steps_among(nodes, leaf, m) == steps_among(nodes, nodes[leaf].parent->0 as int, m),
    decreases m,
{
    if m > 1 {
        lemma_steps_of_parent(nodes, leaf, m - 1);
    }
}

/// The nodes above another one, and that one, are the steps to it.
proof fn lemma_steps<C, I, S: Single>(nodes: Seq<Node<C, I, S>>, leaf: int, m: int)
    requires
        parents_before(nodes),
        0 <= leaf < nodes.len(),
        leaf < m,
    ensures
        steps_among(nodes, leaf, m) == path_to(nodes, leaf).len(),
    decreases leaf, m,
{
    if m > leaf + 1 {
        lemma_steps(nodes, leaf, m - 1);
        if on_path(nodes, leaf, m - 1) {
            lemma_path_above(nodes, leaf, m - 1);
        }
    } else if leaf > 0 {
        let p = nodes[leaf].parent->0 as int;
        lemma_steps(nodes, p, leaf);
        lemma_steps_of_parent(nodes, leaf, leaf);
        assert(on_path(nodes, leaf, leaf));
    }
}

proof fn lemma_visits_below_upto<C, I, S: Single>(
    a: Seq<Node<C, I, S>>,
    b: Seq<Node<C, I, S>>,
    leaf: int,
    m: int,
)
    requires
        visited_once_more(a, b, leaf),
        0 <= m <= a.len(),
    ensures
        visits_below_root(b.take(m)) == visits_below_root(a.take(m)) + steps_among(a, leaf, m),
    decreases m,
{
    if m > 1 {
        lemma_visits_below_upto(a, b, leaf, m - 1);
        assert(a.take(m).drop_last() =~= a.take(m - 1));
        assert(b.take(m).drop_last() =~= b.take(m - 1));
        assert(a.take(m).last() == a[m - 1]);
        assert(b.take(m).last() == b[m - 1]);
    }
}

/// One more visit of a node and of all above it adds a visit for each step to the node.
proof fn lemma_visits_below_gained<C, I, S: Single>(
    a: Seq<Node<C, I, S>>,
    b: Seq<Node<C, I, S>>,
    leaf: int,
)
    requires
        parents_before(a),
        0 <= leaf < a.len(),
        visited_once_more(a, b, leaf),
    ensures
        visits_below_root(b) == visits_below_root(a) + path_to(a, leaf).len(),
{
    lemma_visits_below_upto(a, b, leaf, a.len() as int);
    lemma_steps(a, leaf, a.len() as int);
    assert(a.take(a.len() as int) =~= a);
    assert(b.take(b.len() as int) =~= b);
}

proof fn lemma_visits_below_same<C, I, S: Single>(
    a: Seq<Node<C, I, S>>,
    b: Seq<Node<C, I, S>>,
)
    requires
        0 < a.len() <= b.len(),
        forall|x: int| 0 <= x < a.len() ==> (#[trigger] b[x]).times_visited == a[x].times_visited,
        forall|x: int| a.len() <= x < b.len() ==> (#[trigger] b[x]).times_visited == 0,
    ensures
        visits_below_root(b) == visits_below_root(a),
    decreases b.len(),
{
    if b.len() > a.len() {
        assert forall|x: int| 0 <= x < a.len() implies (
        #[trigger] b.drop_last()[x]).times_visited == a[x].times_visited by {
            assert(b.drop_last()[x] == b[x]);
        }
        assert forall|x: int| a.len() <= x < b.drop_last().len() implies (
        #[trigger] b.drop_last()[x]).times_visited == 0 by {
            assert(b.drop_last()[x] == b[x]);
        }
        lemma_visits_below_same(a, b.drop_last());
        assert(b.last() == b[b.len() - 1]);
    } else if a.len() > 1 {
        assert forall|x: int| 0 <= x < a.drop_last().len() implies (
        #[trigger] b.drop_last()[x]).times_visited == a.drop_last()[x].times_visited by {
            assert(b.drop_last()[x] == b[x]);
        }
        lemma_visits_below_same(a.drop_last(), b.drop_last());
        assert(b.last() == b[b.len() - 1]);
    }
}

proof fn lemma_path_depth<C, I, S: Single>(nodes: Seq<Node<C, I, S>>, leaf: int, x: int)
    requires
        well_formed(nodes),
        0 <= leaf < nodes.len(),
        on_path(nodes, leaf, x),
    ensures
        nodes[x].depth <= nodes[leaf].depth,
    decreases leaf,
{
    if x != leaf {
        assert(linked(nodes, leaf));
        lemma_path_depth(nodes, nodes[leaf].parent->0 as int, x);
    }
}

/// The node at `x` has been visited.
pub open spec fn visited<C, I, S: Single>(nodes: Seq<Node<C, I, S>>, x: int) -> bool {
    0 <= x < nodes.len() && nodes[x].times_visited > 0
}

/// What a round says of itself: the nodes that it added, counted as far as a `u32` goes, and the
/// depth of the node that it scored, which is the deepest of those that it visited.
pub proof fn law_iteration_figures<B: Battle>(
    old: Seq<Node<B::Choice, B::Instruction, B::Score>>,
    s: B,
    root_eval: B::Score,
    new: Seq<Node<B::Choice, B::Instruction, B::Score>>,
    t: B,
    depth: u16,
    added: u32,
)
    requires
        well_formed(old),
        new.len() <= usize::MAX,
        iterated(old, s, root_eval, new, t, depth, added),
    ensures
        old.len() <= new.len(),
        (new.len() - old.len()) % 0x1_0000_0000 == added,
        forall|x: int| 0 <= x < old.len() ==> (#[trigger] new[x]).depth == old[x].depth,
        forall|x: int|
            0 <= x < old.len() ==> (#[trigger] new[x]).times_visited >= old[x].times_visited,
        exists|x: int| #[trigger] visited(new, x) && new[x].depth == depth,
        forall|x: int| #[trigger] visited(new, x) ==> visited(old, x) || new[x].depth <= depth,
        depth < u16::MAX ==> visits_below_root(new) == visits_below_root(old) + depth,
{
    let round = choose|round: Round<B>| #[trigger]
        is_round(old, s, root_eval, round, new, t, depth, added);
    let (walked, n, i1, i2, m1) = (round.walked, round.n, round.i1, round.i2, round.reached);
    let (larger, leaf, m2, score) = (round.larger, round.leaf, round.scored, round.score);
    lemma_selected(old, 0, s, walked, n, i1, i2, m1);
    lemma_expanded(walked, n, i1, i2, m1, larger, leaf, added, m2);
    lemma_parents_before(larger);
    let lost = choose|lost: B::Score| #[trigger]
        credited_with(larger, leaf, score, lost, new);
    assert(visited_once_more(larger, new, leaf));
    assert forall|x: int| 0 <= x < old.len() implies (#[trigger] larger[x]).depth == old[x].depth
        && larger[x].times_visited == old[x].times_visited by {
        assert(relisted(old[x], walked[x]));
        assert(larger[x] == (Node { children: larger[x].children, ..walked[x] }));
    }
    assert forall|x: int| 0 <= x < new.len() implies (#[trigger] new[x]).depth
        == larger[x].depth by {
        assert(node_credited(larger, leaf, score, lost, x, new[x]));
    }
    assert forall|x: int| 0 <= x < old.len() implies (#[trigger] new[x]).depth == old[x].depth
        && new[x].times_visited >= old[x].times_visited by {
        assert(larger[x].depth == old[x].depth);
    }
    assert(on_path(larger, leaf, leaf));
    assert(visited(new, leaf) && new[leaf].depth == depth);
    assert forall|x: int| #[trigger] visited(new, x) implies visited(old, x) || new[x].depth
        <= depth by {
        assert(new[x].depth == larger[x].depth);
        if on_path(larger, leaf, x) {
            lemma_path_depth(larger, leaf, x);
        } else if x < old.len() {
            assert(larger[x].times_visited == old[x].times_visited);
        }
    }
    lemma_visits_below_same(old, larger);
    lemma_visits_below_gained(larger, new, leaf);
    law_depth_counts_steps(larger, leaf);
}

/// What the figures on a search of `k` rounds from a root alone stand for.
///
/// The nodes that were added are counted, but for whole multiples of two to the thirty-second
/// that a single round may have added. The largest depth is that of the deepest node that was
/// visited. Where a `u16` could count all depths, their sum is the sum of the visits of all nodes
/// but the root.
#[verifier::rlimit(40)]
pub proof fn law_search_figures<B: Battle>(
    first: Seq<Node<B::Choice, B::Instruction, B::Score>>,
    s: B,
    root_eval: B::Score,
    k: nat,
    nodes: Seq<Node<B::Choice, B::Instruction, B::Score>>,
    t: B,
    stats: SearchStats,
)
    requires
        well_formed(first),
        first.len() == 1,
        first[0].times_visited == 0,
        first[0].s1_options is Some,
        k <= u32::MAX,
        searched(first, s, root_eval, k, nodes, t, stats),
    ensures
        stats.nodes_expanded <= nodes.len() - 1,
        (nodes.len() - 1 - stats.nodes_expanded) % 0x1_0000_0000 == 0,
        forall|x: int| #[trigger] visited(nodes, x) ==> nodes[x].depth <= stats.max_depth,
        k == 0 ==> stats.max_depth == 0,
        k > 0 ==> exists|x: int| #[trigger]
            visited(nodes, x) && nodes[x].depth == stats.max_depth,
        stats.max_depth < u16::MAX ==> stats.total_depth == visits_below_root(nodes),
    decreases k,
{
    if k > 0 {
        let (before, m, sofar, depth, added) = lemma_last_round(
            first,
            s,
            root_eval,
            k,
            nodes,
            t,
            stats,
        );
        law_search_figures(first, s, root_eval, (k - 1) as nat, before, m, sofar);
        law_searched(first, s, root_eval, (k - 1) as nat, before, m, sofar);
        law_iteration_figures(before, m, root_eval, nodes, t, depth, added);
        assert((k - 1) * sofar.max_depth + depth <= u64::MAX) by (nonlinear_arith)
            requires
                k - 1 <= u32::MAX,
                sofar.max_depth <= u16::MAX,
                depth <= u16::MAX,
                k >= 1,
        ;
        if k > 1 && sofar.max_depth == stats.max_depth {
            let x = choose|x: int| #[trigger]
                visited(before, x) && before[x].depth == sofar.max_depth;
            assert(visited(nodes, x));
        }
    }
}

} // verus!
