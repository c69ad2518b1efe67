use crate::types::{EntrantId, NodeIndex, TournamentNode, TournamentRound, TournamentRoundResult};
use vstd::prelude::*;

verus! {

/// One node of the bracket arena: its payload and, for a round, the indices of
/// its children on side `A` and side `B`.
#[derive(Clone, Debug)]
pub struct GraphNode<M> {
    pub weight: TournamentNode<M>,
    pub children: Option<(usize, usize)>,
}

/// The bracket arena: nodes in an indexed list, each round linking to its two
/// children by index.
#[derive(Clone, Debug)]
pub struct TournamentGraph<M> {
    nodes: Vec<GraphNode<M>>,
}

pub open spec fn is_entrant_node<M>(n: GraphNode<M>) -> bool {
    n.weight is Entrant
}

pub open spec fn is_round_node<M>(n: GraphNode<M>) -> bool {
    n.weight is Round
}

pub open spec fn is_complete_node<M>(n: GraphNode<M>) -> bool {
    n.weight is Round && n.weight->Round_0 is Complete
}

pub open spec fn is_incomplete_node<M>(n: GraphNode<M>) -> bool {
    n.weight is Round && n.weight->Round_0 is Incomplete
}

pub open spec fn entrant_pred<M>() -> spec_fn(GraphNode<M>) -> bool {
    |n: GraphNode<M>| is_entrant_node(n)
}

pub open spec fn round_pred<M>() -> spec_fn(GraphNode<M>) -> bool {
    |n: GraphNode<M>| is_round_node(n)
}

pub open spec fn complete_pred<M>() -> spec_fn(GraphNode<M>) -> bool {
    |n: GraphNode<M>| is_complete_node(n)
}

pub open spec fn incomplete_pred<M>() -> spec_fn(GraphNode<M>) -> bool {
    |n: GraphNode<M>| is_incomplete_node(n)
}

/// The number of nodes of `s` that satisfy `p`.
pub open spec fn count_nodes<M>(s: Seq<GraphNode<M>>, p: spec_fn(GraphNode<M>) -> bool) -> nat
    decreases s.len(),
{
    if s.len() == 0 {
        0
    } else {
        count_nodes(s.drop_last(), p) + if p(s.last()) {
            1nat
        } else {
            0nat
        }
    }
}

pub open spec fn count_entrants<M>(s: Seq<GraphNode<M>>) -> nat {
    count_nodes(s, entrant_pred())
}

pub open spec fn count_rounds<M>(s: Seq<GraphNode<M>>) -> nat {
    count_nodes(s, round_pred())
}

pub open spec fn count_complete<M>(s: Seq<GraphNode<M>>) -> nat {
    count_nodes(s, complete_pred())
}

pub open spec fn count_incomplete<M>(s: Seq<GraphNode<M>>) -> nat {
    count_nodes(s, incomplete_pred())
}

/// The entrant id of a leaf node.
pub open spec fn leaf_id<M>(n: GraphNode<M>) -> int {
    n.weight->Entrant_0.0 as int
}

/// The nodes at indices `[i, end)` of `s` form a binary tree rooted at `i`,
/// laid out in pre-order: a leaf is an entrant with no children; a round has its
/// `A` child right after it and its `B` child right after the `A` subtree.
pub open spec fn tree_at<M>(s: Seq<GraphNode<M>>, i: int, end: int) -> bool
    decreases end - i,
{
    if !(0 <= i < end <= s.len()) {
        false
    } else {
        match s[i].children {
            None => end == i + 1 && is_entrant_node(s[i]),
            Some((a, b)) => {
                &&& is_round_node(s[i])
                &&& a == i + 1
                &&& i + 1 < b < end
                &&& tree_at(s, i + 1, b as int)
                &&& tree_at(s, b as int, end)
            },
        }
    }
}

/// The end of the pre-order subtree rooted at `i`.
pub open spec fn sub_end<M>(s: Seq<GraphNode<M>>, i: int) -> int
    decreases s.len() - i,
{
    if !(0 <= i < s.len()) {
        i + 1
    } else {
        match s[i].children {
            None => i + 1,
            Some((a, b)) => if i < b < s.len() {
                sub_end(s, b as int)
            } else {
                i + 1
            },
        }
    }
}

/// The nodes at `[i, end)` are the bracket that seeds entrants `lo .. hi`:
/// one entrant is a single leaf; three entrants give a round whose `B` side is
/// the first entrant (a bye) and whose `A` side is a round over the other two;
/// otherwise the lower half of the ids (the smaller one for an odd count) goes
/// to side `A` and the upper half to side `B`. Every round starts incomplete.
pub open spec fn seeded<M>(s: Seq<GraphNode<M>>, i: int, end: int, lo: int, hi: int) -> bool
    decreases hi - lo,
{
    if hi - lo <= 0 || !(0 <= i < end <= s.len()) {
        false
    } else if hi - lo == 1 {
        end == i + 1 && is_entrant_node(s[i]) && leaf_id(s[i]) == lo && s[i].children is None
    } else {
        match s[i].children {
            None => false,
            Some((a, b)) => {
                &&& s[i].weight == TournamentNode::<M>::Round(TournamentRound::Incomplete)
                &&& a == i + 1
                &&& i + 1 < b < end
                &&& if hi - lo == 3 {
                    seeded(s, i + 1, b as int, lo + 1, hi) && seeded(s, b as int, end, lo, lo + 1)
                } else {
                    seeded(s, i + 1, b as int, lo, lo + (hi - lo) / 2) && seeded(
                        s,
                        b as int,
                        end,
                        lo + (hi - lo) / 2,
                        hi,
                    )
                }
            },
        }
    }
}

/// The entrant that won the subtree at `i`: a leaf wins itself, a complete round
/// is won by the winner of the child on its winning side, an incomplete round
/// has no winner yet.
pub open spec fn winner_spec<M>(s: Seq<GraphNode<M>>, i: int) -> Option<EntrantId>
    decreases s.len() - i,
{
    if !(0 <= i < s.len()) {
        None
    } else {
        match s[i].weight {
            TournamentNode::Entrant(e) => Some(e),
            TournamentNode::Round(TournamentRound::Incomplete) => None,
            TournamentNode::Round(TournamentRound::Complete { result, .. }) => match s[i].children {
                None => None,
                Some((a, b)) => {
                    let c = if result is A {
                        a as int
                    } else {
                        b as int
                    };
                    if i < c < s.len() {
                        winner_spec(s, c)
                    } else {
                        None
                    }
                },
            },
        }
    }
}

/// The child of round `i` on the side `result` names.
pub open spec fn child_on<M>(s: Seq<GraphNode<M>>, i: int, result: TournamentRoundResult) -> int {
    if result is A {
        s[i].children->Some_0.0 as int
    } else {
        s[i].children->Some_0.1 as int
    }
}

pub proof fn lemma_count_push<M>(s: Seq<GraphNode<M>>, x: GraphNode<M>, p: spec_fn(GraphNode<M>) -> bool)
    ensures
        count_nodes(s.push(x), p) == count_nodes(s, p) + if p(x) {
            1nat
        } else {
            0nat
        },
{
    assert(s.push(x).drop_last() =~= s);
}

pub proof fn lemma_count_concat<M>(s: Seq<GraphNode<M>>, t: Seq<GraphNode<M>>, p: spec_fn(GraphNode<M>) -> bool)
    ensures
        count_nodes(s + t, p) == count_nodes(s, p) + count_nodes(t, p),
    decreases t.len(),
{
    if t.len() == 0 {
        assert(s + t =~= s);
    } else {
        lemma_count_concat(s, t.drop_last(), p);
        assert((s + t).drop_last() =~= s + t.drop_last());
    }
}

/// Where `p` holds of the nodes of `s` exactly at the positions where `q` holds
/// of those of `t`, the two counts agree.
pub proof fn lemma_count_same<M>(
    s: Seq<GraphNode<M>>,
    t: Seq<GraphNode<M>>,
    p: spec_fn(GraphNode<M>) -> bool,
    q: spec_fn(GraphNode<M>) -> bool,
)
    requires
        s.len() == t.len(),
        forall|k: int| 0 <= k < s.len() ==> p(s[k]) == q(t[k]),
    ensures
        count_nodes(s, p) == count_nodes(t, q),
    decreases s.len(),
{
    if s.len() > 0 {
        lemma_count_same(s.drop_last(), t.drop_last(), p, q);
    }
}

pub proof fn lemma_count_pos<M>(s: Seq<GraphNode<M>>, p: spec_fn(GraphNode<M>) -> bool, k: int)
    requires
        0 <= k < s.len(),
        p(s[k]),
    ensures
        count_nodes(s, p) >= 1,
    decreases s.len(),
{
    if k < s.len() - 1 {
        lemma_count_pos(s.drop_last(), p, k);
    }
}

pub proof fn lemma_count_zero<M>(s: Seq<GraphNode<M>>, p: spec_fn(GraphNode<M>) -> bool)
    requires
        forall|k: int| 0 <= k < s.len() ==> !p(s[k]),
    ensures
        count_nodes(s, p) == 0,
    decreases s.len(),
{
    if s.len() > 0 {
        lemma_count_zero(s.drop_last(), p);
    }
}

/// What the seeding shape gives: a pre-order tree of `2 (hi - lo) - 1` nodes,
/// with `hi - lo` leaves that hold the ids `lo .. hi` once each, and
/// `hi - lo - 1` rounds, all incomplete.
pub proof fn lemma_seeded<M>(s: Seq<GraphNode<M>>, i: int, end: int, lo: int, hi: int)
    requires
        seeded(s, i, end, lo, hi),
    ensures
        tree_at(s, i, end),
        end - i == 2 * (hi - lo) - 1,
        count_entrants(s.subrange(i, end)) == hi - lo,
        count_rounds(s.subrange(i, end)) == hi - lo - 1,
        forall|k: int| i <= k < end ==> !is_complete_node(#[trigger] s[k]),
        forall|k: int| i <= k < end && is_entrant_node(#[trigger] s[k]) ==> lo <= leaf_id(s[k]) < hi,
        forall|j: int, k: int|
            i <= j < end && i <= k < end && j != k && is_entrant_node(#[trigger] s[j])
                && is_entrant_node(#[trigger] s[k]) ==> leaf_id(s[j]) != leaf_id(s[k]),
    decreases hi - lo,
{
    if hi - lo == 1 {
        assert(s.subrange(i, end) =~= seq![s[i]]);
        assert(seq![s[i]] =~= Seq::<GraphNode<M>>::empty().push(s[i]));
        lemma_count_push(Seq::<GraphNode<M>>::empty(), s[i], entrant_pred());
        lemma_count_push(Seq::<GraphNode<M>>::empty(), s[i], round_pred());
    } else {
        let b = s[i].children->Some_0.1 as int;
        let (alo, ahi, blo, bhi) = if hi - lo == 3 {
            (lo + 1, hi, lo, lo + 1)
        } else {
            (lo, lo + (hi - lo) / 2, lo + (hi - lo) / 2, hi)
        };
        lemma_seeded(s, i + 1, b, alo, ahi);
        lemma_seeded(s, b, end, blo, bhi);
        let head = seq![s[i]];
        assert(head =~= Seq::<GraphNode<M>>::empty().push(s[i]));
        lemma_count_push(Seq::<GraphNode<M>>::empty(), s[i], entrant_pred());
        lemma_count_push(Seq::<GraphNode<M>>::empty(), s[i], round_pred());
        assert(s.subrange(i, end) =~= head + s.subrange(i + 1, b) + s.subrange(b, end));
        lemma_count_concat(head, s.subrange(i + 1, b), entrant_pred());
        lemma_count_concat(head + s.subrange(i + 1, b), s.subrange(b, end), entrant_pred());
        lemma_count_concat(head, s.subrange(i + 1, b), round_pred());
        lemma_count_concat(head + s.subrange(i + 1, b), s.subrange(b, end), round_pred());
    }
}

/// The seeding shape of `[i, end)` depends on those nodes alone.
pub proof fn lemma_seeded_frame<M>(
    s: Seq<GraphNode<M>>,
    t: Seq<GraphNode<M>>,
    i: int,
    end: int,
    lo: int,
    hi: int,
)
    requires
        seeded(s, i, end, lo, hi),
        end <= t.len(),
        forall|k: int| i <= k < end ==> t[k] == s[k],
    ensures
        seeded(t, i, end, lo, hi),
    decreases hi - lo,
{
    if hi - lo > 1 {
        let b = s[i].children->Some_0.1 as int;
        if hi - lo == 3 {
            lemma_seeded_frame(s, t, i + 1, b, lo + 1, hi);
            lemma_seeded_frame(s, t, b, end, lo, lo + 1);
        } else {
            lemma_seeded_frame(s, t, i + 1, b, lo, lo + (hi - lo) / 2);
            lemma_seeded_frame(s, t, b, end, lo + (hi - lo) / 2, hi);
        }
    }
}

/// Every complete round has no incomplete child: a round is only decided once
/// both sides have a winner.
pub open spec fn rounds_closed<M>(s: Seq<GraphNode<M>>) -> bool {
    forall|k: int|
        0 <= k < s.len() && is_complete_node(#[trigger] s[k]) ==> !is_incomplete_node(
            s[s[k].children->Some_0.0 as int],
        ) && !is_incomplete_node(s[s[k].children->Some_0.1 as int])
}

/// Nodes that keep their children and their kind keep the tree shape.
pub proof fn lemma_tree_frame<M>(s: Seq<GraphNode<M>>, t: Seq<GraphNode<M>>, i: int, end: int)
    requires
        tree_at(s, i, end),
        end <= t.len(),
        forall|k: int|
            i <= k < end ==> (#[trigger] t[k]).children == s[k].children && is_entrant_node(t[k])
                == is_entrant_node(s[k]) && is_round_node(t[k]) == is_round_node(s[k]),
    ensures
        tree_at(t, i, end),
    decreases end - i,
{
    if let Some((a, b)) = s[i].children {
        lemma_tree_frame(s, t, i + 1, b as int);
        lemma_tree_frame(s, t, b as int, end);
    }
}

/// The subtree rooted at `i` ends at `end`.
pub proof fn lemma_sub_end_eq<M>(s: Seq<GraphNode<M>>, i: int, end: int)
    requires
        tree_at(s, i, end),
    ensures
        sub_end(s, i) == end,
    decreases end - i,
{
    if let Some((a, b)) = s[i].children {
        lemma_sub_end_eq(s, b as int, end);
    }
}

/// Every node of a tree roots a subtree of its own, which ends inside the tree.
pub proof fn lemma_subtree<M>(s: Seq<GraphNode<M>>, i: int, end: int, j: int)
    requires
        tree_at(s, i, end),
        i <= j < end,
    ensures
        tree_at(s, j, sub_end(s, j)),
        sub_end(s, j) <= end,
    decreases end - i,
{
    if j == i {
        lemma_sub_end_eq(s, i, end);
    } else if let Some((a, b)) = s[i].children {
        if j < b {
            lemma_subtree(s, i + 1, b as int, j);
        } else {
            lemma_subtree(s, b as int, end, j);
        }
    }
}

/// The winner of a subtree depends on the subtree's nodes alone.
pub proof fn lemma_winner_frame<M>(s: Seq<GraphNode<M>>, t: Seq<GraphNode<M>>, i: int, end: int)
    requires
        tree_at(s, i, end),
        end <= t.len(),
        forall|k: int| i <= k < end ==> t[k] == s[k],
    ensures
        winner_spec(t, i) == winner_spec(s, i),
    decreases end - i,
{
    if let Some((a, b)) = s[i].children {
        lemma_winner_frame(s, t, i + 1, b as int);
        lemma_winner_frame(s, t, b as int, end);
    }
}

/// The winner of a subtree is one of its leaves.
pub proof fn lemma_winner_leaf<M>(s: Seq<GraphNode<M>>, i: int, end: int)
    requires
        tree_at(s, i, end),
        winner_spec(s, i) is Some,
    ensures
        exists|k: int|
            i <= k < end && is_entrant_node(#[trigger] s[k]) && s[k].weight->Entrant_0
                == winner_spec(s, i)->Some_0,
    decreases end - i,
{
    if let Some((a, b)) = s[i].children {
        let result = s[i].weight->Round_0->Complete_result;
        if result is A {
            lemma_winner_leaf(s, i + 1, b as int);
        } else {
            lemma_winner_leaf(s, b as int, end);
        }
    } else {
        assert(is_entrant_node(s[i]));
    }
}

/// Below a leaf or a complete round no round is incomplete, where complete
/// rounds are closed.
pub proof fn lemma_closed_subtree<M>(s: Seq<GraphNode<M>>, i: int, end: int)
    requires
        tree_at(s, i, end),
        rounds_closed(s),
        !is_incomplete_node(s[i]),
    ensures
        forall|k: int| i <= k < end ==> !is_incomplete_node(#[trigger] s[k]),
    decreases end - i,
{
    if let Some((a, b)) = s[i].children {
        assert(is_complete_node(s[i]));
        lemma_closed_subtree(s, i + 1, b as int);
        lemma_closed_subtree(s, b as int, end);
    }
}

/// A leaf or a complete round has a winner, where complete rounds are closed.
pub proof fn lemma_winner_some<M>(s: Seq<GraphNode<M>>, i: int, end: int)
    requires
        tree_at(s, i, end),
        rounds_closed(s),
        !is_incomplete_node(s[i]),
    ensures
        winner_spec(s, i) is Some,
    decreases end - i,
{
    if let Some((a, b)) = s[i].children {
        assert(is_complete_node(s[i]));
        let result = s[i].weight->Round_0->Complete_result;
        if result is A {
            lemma_winner_some(s, i + 1, b as int);
        } else {
            lemma_winner_some(s, b as int, end);
        }
    }
}

impl<M> TournamentGraph<M> {
    /// The nodes of the arena, by index.
    pub closed spec fn view(&self) -> Seq<GraphNode<M>> {
        self.nodes@
    }

    pub(crate) fn new() -> (r: TournamentGraph<M>)
        ensures
            r@ == Seq::<GraphNode<M>>::empty(),
    {
        TournamentGraph { nodes: Vec::new() }
    }

    pub(crate) fn push(&mut self, n: GraphNode<M>)
        ensures
            final(self)@ == old(self)@.push(n),
    {
        self.nodes.push(n);
    }

    /// Replaces the node at `i`.
    pub(crate) fn set(&mut self, i: usize, n: GraphNode<M>)
        requires
            i < old(self)@.len(),
        ensures
            final(self)@ == old(self)@.update(i as int, n),
    {
        self.nodes.set(i, n);
    }

    /// The children of round `i`.
    pub(crate) fn child_pair(&self, i: usize) -> (r: (usize, usize))
        requires
            i < self@.len(),
            self@[i as int].children is Some,
        ensures
            r == self@[i as int].children->Some_0,
    {
        match self.nodes[i].children {
            Some(pair) => pair,
            None => (0, 0),
        }
    }

    /// The number of nodes, entrant leaves and rounds together.
    pub fn node_count(&self) -> (r: usize)
        ensures
            r == self@.len(),
    {
        self.nodes.len()
    }

    /// The payload of node `id`, or `None` where the arena holds no such node.
    pub fn node_weight(&self, id: NodeIndex) -> (r: Option<&TournamentNode<M>>)
        ensures
            id.0 < self@.len() ==> r == Some(&self@[id.0 as int].weight),
            id.0 >= self@.len() ==> r is None,
    {
        if id.0 < self.nodes.len() {
            Some(&self.nodes[id.0].weight)
        } else {
            None
        }
    }

    /// The children of node `id` on sides `A` and `B`; `None` for a leaf or where
    /// the arena holds no such node.
    pub fn children(&self, id: NodeIndex) -> (r: Option<(NodeIndex, NodeIndex)>)
        ensures
            id.0 < self@.len() ==> match self@[id.0 as int].children {
                None => r is None,
                Some((a, b)) => r == Some((NodeIndex(a), NodeIndex(b))),
            },
            id.0 >= self@.len() ==> r is None,
    {
        if id.0 < self.nodes.len() {
            match self.nodes[id.0].children {
                Some((a, b)) => Some((NodeIndex(a), NodeIndex(b))),
                None => None,
            }
        } else {
            None
        }
    }

    /// The entrant that won the subtree at `i`, following winning sides down to
    /// a leaf.
    pub(crate) fn winner_at(&self, i: usize) -> (r: Option<EntrantId>)
        ensures
            r == winner_spec(self@, i as int),
        decreases self@.len() - i,
    {
        if i >= self.nodes.len() {
            return None;
        }
        let node = &self.nodes[i];
        match &node.weight {
            TournamentNode::Entrant(e) => Some(*e),
            TournamentNode::Round(TournamentRound::Incomplete) => None,
            TournamentNode::Round(TournamentRound::Complete { result, .. }) => match node.children {
                None => None,
                Some((a, b)) => {
                    let c = match result {
                        TournamentRoundResult::A => a,
                        TournamentRoundResult::B => b,
                    };
                    if i < c && c < self.nodes.len() {
                        self.winner_at(c)
                    } else {
                        None
                    }
                },
            },
        }
    }
}

} // verus!
