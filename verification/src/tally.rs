//! How the visits of children add up.

use crate::arm::MoveNode;
use crate::average::visit_sum;
use crate::node::Node;
use crate::number::Single;
use crate::tree::{
    below, counted, just, lemma_toward, lemma_toward_unique, linked, on_path, parents_before,
    passes, side_counted, tally, toward, well_formed, Via,
};
use vstd::prelude::*;

verus! {

/// `a` and `b` agree on which children there are and how often each was visited.
pub open spec fn same_visits<C, I, S: Single>(
    a: Seq<Node<C, I, S>>,
    b: Seq<Node<C, I, S>>,
) -> bool {
    &&& a.len() == b.len()
    &&& forall|x: int|
        #![trigger b[x]]
        0 <= x < a.len() ==> {
            &&& b[x].parent == a[x].parent
            &&& b[x].s1_choice == a[x].s1_choice
            &&& b[x].s2_choice == a[x].s2_choice
            &&& b[x].times_visited == a[x].times_visited
        }
}

pub proof fn lemma_tally_same<C, I, S: Single>(
    a: Seq<Node<C, I, S>>,
    b: Seq<Node<C, I, S>>,
    p: int,
    via: Via,
)
    requires
        same_visits(a, b),
    ensures
        tally(a, p, via) == tally(b, p, via),
    decreases a.len(),
{
    if a.len() > 0 {
        assert(b.last() == b[b.len() - 1]);
        assert forall|x: int| #![trigger b.drop_last()[x]] 0 <= x < a.drop_last().len() implies {
            &&& b.drop_last()[x].parent == a.drop_last()[x].parent
            &&& b.drop_last()[x].s1_choice == a.drop_last()[x].s1_choice
            &&& b.drop_last()[x].s2_choice == a.drop_last()[x].s2_choice
            &&& b.drop_last()[x].times_visited == a.drop_last()[x].times_visited
        } by {
            assert(b.drop_last()[x] == b[x]);
        }
        lemma_tally_same(a.drop_last(), b.drop_last(), p, via);
    }
}

/// Nodes that were never visited do not count.
pub proof fn lemma_tally_unvisited<C, I, S: Single>(
    a: Seq<Node<C, I, S>>,
    b: Seq<Node<C, I, S>>,
    p: int,
    via: Via,
)
    requires
        a.len() <= b.len(),
        b.take(a.len() as int) == a,
        forall|x: int| a.len() <= x < b.len() ==> (#[trigger] b[x]).times_visited == 0,
    ensures
        tally(b, p, via) == tally(a, p, via),
    decreases b.len(),
{
    if b.len() > a.len() {
        assert(b.drop_last().take(a.len() as int) =~= a);
        assert(b.last() == b[b.len() - 1]);
        assert forall|x: int| a.len() <= x < b.drop_last().len() implies (
        #[trigger] b.drop_last()[x]).times_visited == 0 by {
            assert(b.drop_last()[x] == b[x]);
        }
        lemma_tally_unvisited(a, b.drop_last(), p, via);
    } else {
        assert(a =~= b);
    }
}

pub proof fn lemma_tally_childless<C, I, S: Single>(
    nodes: Seq<Node<C, I, S>>,
    p: int,
    via: Via,
)
    requires
        forall|x: int|
            0 <= x < nodes.len() ==> (#[trigger] nodes[x]).parent is None || nodes[x].parent->0
                != p,
    ensures
        tally(nodes, p, via) == 0,
    decreases nodes.len(),
{
    if nodes.len() > 0 {
        assert(nodes.last() == nodes[nodes.len() - 1]);
        assert forall|x: int| 0 <= x < nodes.drop_last().len() implies (
        #[trigger] nodes.drop_last()[x]).parent is None || nodes.drop_last()[x].parent->0 != p by {
            assert(nodes.drop_last()[x] == nodes[x]);
        }
        lemma_tally_childless(nodes.drop_last(), p, via);
    }
}

pub proof fn lemma_tally_part<C, I, S: Single>(nodes: Seq<Node<C, I, S>>, p: int, via: Via)
    ensures
        tally(nodes, p, via) <= tally(nodes, p, Via::Any),
    decreases nodes.len(),
{
    if nodes.len() > 0 {
        lemma_tally_part(nodes.drop_last(), p, via);
    }
}

pub proof fn lemma_tally_member<C, I, S: Single>(
    nodes: Seq<Node<C, I, S>>,
    p: int,
    via: Via,
    c: int,
)
    requires
        0 <= c < nodes.len(),
        passes(nodes[c], p, via),
    ensures
        nodes[c].times_visited <= tally(nodes, p, via),
    decreases nodes.len(),
{
    if c < nodes.len() - 1 {
        lemma_tally_member(nodes.drop_last(), p, via, c);
    }
}

/// No node is visited more often than the root.
pub proof fn lemma_root_visited_most<C, I, S: Single>(nodes: Seq<Node<C, I, S>>, x: int)
    requires
        well_formed(nodes),
        0 <= x < nodes.len(),
    ensures
        nodes[x].times_visited <= nodes[0].times_visited,
    decreases x,
{
    if x > 0 {
        assert(linked(nodes, x));
        let p = nodes[x].parent->0 as int;
        lemma_root_visited_most(nodes, p);
        lemma_tally_member(nodes, p, Via::Any, x);
        assert(counted(nodes, p));
    }
}

/// What one more visit of the node at `leaf`, and of all above it, adds to the tally of the
/// chosen children of the node at `p`.
pub open spec fn gained<C, I, S: Single>(
    nodes: Seq<Node<C, I, S>>,
    leaf: int,
    p: int,
    via: Via,
) -> nat {
    if on_path(nodes, leaf, p) && p != leaf && passes(nodes[toward(nodes, leaf, p)], p, via) {
        1
    } else {
        0
    }
}

/// `b` is `a` with one more visit of the node at `leaf` and of all above it.
pub open spec fn visited_once_more<C, I, S: Single>(
    a: Seq<Node<C, I, S>>,
    b: Seq<Node<C, I, S>>,
    leaf: int,
) -> bool {
    &&& a.len() == b.len()
    &&& forall|x: int|
        #![trigger b[x]]
        0 <= x < a.len() ==> {
            &&& b[x].parent == a[x].parent
            &&& b[x].s1_choice == a[x].s1_choice
            &&& b[x].s2_choice == a[x].s2_choice
            &&& b[x].times_visited == a[x].times_visited + if on_path(a, leaf, x) {
                1int
            } else {
                0
            }
        }
}

proof fn lemma_tally_gained_upto<C, I, S: Single>(
    a: Seq<Node<C, I, S>>,
    b: Seq<Node<C, I, S>>,
    leaf: int,
    p: int,
    via: Via,
    m: int,
)
    requires
        parents_before(a),
        a[0].parent is None,
        0 <= leaf < a.len() <= usize::MAX,
        0 <= p < a.len(),
        visited_once_more(a, b, leaf),
        0 <= m <= a.len(),
    ensures
        tally(b.take(m), p, via) == tally(a.take(m), p, via) + if toward(a, leaf, p) < m {
            gained(a, leaf, p, via)
        } else {
            0
        },
    decreases m,
{
    if on_path(a, leaf, p) && p != leaf {
        lemma_toward(a, leaf, p);
    }
    if m > 0 {
        let x = m - 1;
        lemma_tally_gained_upto(a, b, leaf, p, via, x);
        assert(a.take(m).drop_last() =~= a.take(x));
        assert(b.take(m).drop_last() =~= b.take(x));
        assert(a.take(m).last() == a[x]);
        assert(b.take(m).last() == b[x]);
        if on_path(a, leaf, x) && passes(a[x], p, via) {
            lemma_toward_unique(a, leaf, x, p);
        }
    }
}

pub proof fn lemma_tally_gained<C, I, S: Single>(
    a: Seq<Node<C, I, S>>,
    b: Seq<Node<C, I, S>>,
    leaf: int,
    p: int,
    via: Via,
)
    requires
        parents_before(a),
        a[0].parent is None,
        0 <= leaf < a.len() <= usize::MAX,
        0 <= p < a.len(),
        visited_once_more(a, b, leaf),
    ensures
        tally(b, p, via) == tally(a, p, via) + gained(a, leaf, p, via),
{
    lemma_tally_gained_upto(a, b, leaf, p, via, a.len() as int);
    assert(a.take(a.len() as int) =~= a);
    assert(b.take(b.len() as int) =~= b);
    if on_path(a, leaf, p) && p != leaf {
        lemma_toward(a, leaf, p);
    }
}

proof fn lemma_tally_split<C, I, S: Single>(
    nodes: Seq<Node<C, I, S>>,
    p: int,
    one: bool,
    m: int,
)
    requires
        0 <= m,
    ensures
        tally(nodes, p, below(one, m + 1)) == tally(nodes, p, below(one, m)) + tally(
            nodes,
            p,
            just(one, m),
        ),
    decreases nodes.len(),
{
    if nodes.len() > 0 {
        lemma_tally_split(nodes.drop_last(), p, one, m);
    }
}

proof fn lemma_tally_none<C, I, S: Single>(nodes: Seq<Node<C, I, S>>, p: int, one: bool)
    ensures
        tally(nodes, p, below(one, 0)) == 0,
    decreases nodes.len(),
{
    if nodes.len() > 0 {
        lemma_tally_none(nodes.drop_last(), p, one);
    }
}

proof fn lemma_tally_all<C, I, S: Single>(
    nodes: Seq<Node<C, I, S>>,
    p: int,
    one: bool,
    m: int,
)
    requires
        forall|x: int|
            0 <= x < nodes.len() && passes(#[trigger] nodes[x], p, Via::Any) ==> passes(
                nodes[x],
                p,
                below(one, m),
            ),
    ensures
        tally(nodes, p, below(one, m)) == tally(nodes, p, Via::Any),
    decreases nodes.len(),
{
    if nodes.len() > 0 {
        assert(nodes.last() == nodes[nodes.len() - 1]);
        assert forall|x: int|
            0 <= x < nodes.drop_last().len() && passes(
                #[trigger] nodes.drop_last()[x],
                p,
                Via::Any,
            ) implies passes(nodes.drop_last()[x], p, below(one, m)) by {
            assert(nodes.drop_last()[x] == nodes[x]);
        }
        lemma_tally_all(nodes.drop_last(), p, one, m);
    }
}

proof fn lemma_visit_sum_upto<C, I, S: Single>(
    nodes: Seq<Node<C, I, S>>,
    p: int,
    options: Seq<MoveNode<C, S>>,
    one: bool,
    m: int,
)
    requires
        side_counted(nodes, p, options, one),
        0 <= m <= options.len(),
    ensures
        visit_sum(options.take(m)) == tally(nodes, p, below(one, m)),
    decreases m,
{
    if m > 0 {
        lemma_visit_sum_upto(nodes, p, options, one, m - 1);
        lemma_tally_split(nodes, p, one, m - 1);
        assert(options.take(m).drop_last() =~= options.take(m - 1));
        assert(options.take(m).last() == options[m - 1]);
    } else {
        lemma_tally_none(nodes, p, one);
    }
}

/// The visits of the moves of either side at a node add up to those of its children.
pub proof fn lemma_visit_sum<C, I, S: Single>(nodes: Seq<Node<C, I, S>>, p: int)
    requires
        well_formed(nodes),
        0 <= p < nodes.len(),
        nodes[p].s1_options is Some,
    ensures
        visit_sum(nodes[p].s1_options->0@) == tally(nodes, p, Via::Any),
        visit_sum(nodes[p].s2_options->0@) == tally(nodes, p, Via::Any),
{
    assert(counted(nodes, p));
    let s1 = nodes[p].s1_options->0@;
    let s2 = nodes[p].s2_options->0@;
    lemma_visit_sum_upto(nodes, p, s1, true, s1.len() as int);
    lemma_visit_sum_upto(nodes, p, s2, false, s2.len() as int);
    assert(s1.take(s1.len() as int) =~= s1);
    assert(s2.take(s2.len() as int) =~= s2);
    assert forall|x: int|
        0 <= x < nodes.len() && passes(#[trigger] nodes[x], p, Via::Any) implies passes(
        nodes[x],
        p,
        below(true, s1.len() as int),
    ) && passes(nodes[x], p, below(false, s2.len() as int)) by {
        if x > 0 {
            assert(linked(nodes, x));
        }
    }
    lemma_tally_all(nodes, p, true, s1.len() as int);
    lemma_tally_all(nodes, p, false, s2.len() as int);
}

} // verus!
