use crate::graph::{
    child_on, complete_pred, count_complete, count_entrants, count_incomplete, count_rounds,
    entrant_pred, incomplete_pred, is_complete_node, is_entrant_node, is_incomplete_node,
    is_round_node, leaf_id, lemma_closed_subtree, lemma_count_pos, lemma_count_push,
    lemma_count_same, lemma_count_zero, lemma_seeded, lemma_seeded_frame, lemma_subtree,
    lemma_tree_frame, lemma_winner_frame, lemma_winner_leaf, lemma_winner_some, round_pred,
    rounds_closed, seeded, sub_end, tree_at, winner_spec, GraphNode, TournamentGraph,
};
use crate::types::{
    BattleResult, BattleSystem, EntrantId, NodeIndex, TournamentEdge, TournamentError,
    TournamentNode, TournamentRound, TournamentRoundResult,
};
use vstd::prelude::*;

verus! {

/// Appends the bracket that seeds entrants `lo .. hi` to `g`, in pre-order.
fn build_subtree<M>(g: &mut TournamentGraph<M>, lo: usize, hi: usize)
    requires
        lo < hi,
        old(g)@.len() + 2 * (hi - lo) <= usize::MAX,
    ensures
        final(g)@.len() == old(g)@.len() + 2 * (hi - lo) - 1,
        final(g)@.subrange(0, old(g)@.len() as int) == old(g)@,
        seeded(final(g)@, old(g)@.len() as int, final(g)@.len() as int, lo as int, hi as int),
    decreases hi - lo,
{
    let ghost g0 = g@;
    let start = g.node_count();
    if hi - lo == 1 {
        g.push(GraphNode { weight: TournamentNode::Entrant(EntrantId(lo)), children: None });
        assert(g@.subrange(0, start as int) =~= g0);
        return;
    }
    g.push(GraphNode { weight: TournamentNode::Round(TournamentRound::Incomplete), children: None });
    let ghost g1 = g@;
    let (alo, ahi, blo, bhi) = if hi - lo == 3 {
        (lo + 1, hi, lo, lo + 1)
    } else {
        (lo, lo + (hi - lo) / 2, lo + (hi - lo) / 2, hi)
    };
    build_subtree(g, alo, ahi);
    let ghost g2 = g@;
    let b = g.node_count();
    build_subtree(g, blo, bhi);
    let ghost g3 = g@;
    let end = g.node_count();
    let node = GraphNode {
        weight: TournamentNode::Round(TournamentRound::Incomplete),
        children: Some((start + 1, b)),
    };
    g.set(start, node);
    proof {
        assert forall|k: int| start + 1 <= k < b implies g@[k] == g2[k] by {
            assert(g2[k] == g2.subrange(0, b as int)[k]);
            assert(g3[k] == g3.subrange(0, b as int)[k]);
        }
        lemma_seeded_frame(g2, g@, start + 1, b as int, alo as int, ahi as int);
        lemma_seeded_frame(g3, g@, b as int, end as int, blo as int, bhi as int);
        lemma_seeded(g@, start + 1, b as int, alo as int, ahi as int);
        lemma_seeded(g@, b as int, end as int, blo as int, bhi as int);
        assert forall|k: int| 0 <= k < start implies g@[k] == g0[k] by {
            assert(g1[k] == g1.subrange(0, start + 1)[k]);
            assert(g2[k] == g2.subrange(0, start + 1)[k]);
            assert(g3[k] == g3.subrange(0, b as int)[k]);
        }
        assert(g@.subrange(0, start as int) =~= g0);
    }
}


/// A single-elimination tournament: the entrants, a battle policy `B`, and the
/// bracket arena whose root, node 0, is the grand finals.
pub struct Tournament<E, M, B: BattleSystem<E, M>> {
    graph: TournamentGraph<M>,
    entrants: Vec<E>,
    grand_finals: NodeIndex,
    policy: core::marker::PhantomData<B>,
}

/// Each leaf of `s` names an entrant below `n`, and no two leaves name the same.
pub open spec fn leaves_ok<M>(s: Seq<GraphNode<M>>, n: int) -> bool {
    &&& forall|k: int| 0 <= k < s.len() && is_entrant_node(#[trigger] s[k]) ==> 0 <= leaf_id(s[k]) < n
    &&& forall|j: int, k: int|
        0 <= j < s.len() && 0 <= k < s.len() && j != k && is_entrant_node(#[trigger] s[j])
            && is_entrant_node(#[trigger] s[k]) ==> leaf_id(s[j]) != leaf_id(s[k])
}

/// The shape and bookkeeping that every reachable bracket of `n` entrants has.
pub open spec fn arena_ok<M>(s: Seq<GraphNode<M>>, n: int) -> bool {
    &&& tree_at(s, 0, s.len() as int)
    &&& leaves_ok(s, n)
    &&& count_entrants(s) == n
    &&& count_rounds(s) + 1 == n
    &&& rounds_closed(s)
}

/// From `s0` to `s1` only incomplete rounds at `[lo, hi)` changed, each to a
/// complete round; the links between nodes stayed as they were.
pub open spec fn step_ok<M>(s0: Seq<GraphNode<M>>, s1: Seq<GraphNode<M>>, lo: int, hi: int) -> bool {
    &&& s1.len() == s0.len()
    &&& forall|k: int| 0 <= k < s0.len() ==> (#[trigger] s1[k]).children == s0[k].children
    &&& forall|k: int|
        0 <= k < s0.len() ==> #[trigger] s1[k] == s0[k] || (lo <= k < hi && is_incomplete_node(s0[k])
            && is_complete_node(s1[k]))
}

/// Deciding one incomplete round whose children are decided keeps the arena sound.
proof fn lemma_decide_round<M>(s: Seq<GraphNode<M>>, i: int, x: GraphNode<M>, n: int)
    requires
        arena_ok(s, n),
        0 <= i < s.len(),
        is_incomplete_node(s[i]),
        is_complete_node(x),
        x.children == s[i].children,
        !is_incomplete_node(s[s[i].children->Some_0.0 as int]),
        !is_incomplete_node(s[s[i].children->Some_0.1 as int]),
    ensures
        arena_ok(s.update(i, x), n),
        step_ok(s, s.update(i, x), i, i + 1),
{
    let t = s.update(i, x);
    lemma_tree_frame(s, t, 0, s.len() as int);
    lemma_count_same(s, t, entrant_pred(), entrant_pred());
    lemma_count_same(s, t, round_pred(), round_pred());
    assert forall|k: int| 0 <= k < t.len() && is_complete_node(#[trigger] t[k]) implies !is_incomplete_node(
        t[t[k].children->Some_0.0 as int],
    ) && !is_incomplete_node(t[t[k].children->Some_0.1 as int]) by {
        lemma_subtree(s, 0, s.len() as int, k);
        if k != i {
            assert(is_complete_node(s[k]));
        }
    }
}

/// Some leaf at `[lo, hi)` of `s` names entrant `e`.
pub open spec fn names_leaf_in<M>(s: Seq<GraphNode<M>>, lo: int, hi: int, e: int) -> bool {
    exists|k: int| lo <= k < hi && is_entrant_node(#[trigger] s[k]) && leaf_id(s[k]) == e
}

/// Every entrant that no leaf at `[lo, hi)` of `s` names is the same in `v1` as
/// in `v0`.
pub open spec fn others_kept<M, E>(s: Seq<GraphNode<M>>, lo: int, hi: int, v0: Seq<E>, v1: Seq<E>) -> bool {
    forall|e: int| 0 <= e < v0.len() && !names_leaf_in(s, lo, hi, e) ==> #[trigger] v1[e] == v0[e]
}

/// Every round of `s` is complete.
pub open spec fn all_complete<M>(s: Seq<GraphNode<M>>) -> bool {
    forall|k: int| 0 <= k < s.len() ==> !is_incomplete_node(#[trigger] s[k])
}

impl<E, M, B: BattleSystem<E, M>> Tournament<E, M, B> {
    /// The bracket's nodes, by index.
    pub closed spec fn nodes(&self) -> Seq<GraphNode<M>> {
        self.graph@
    }

    /// The entrants, by id.
    pub closed spec fn entrants_seq(&self) -> Seq<E> {
        self.entrants@
    }

    /// The bracket is a pre-order binary tree over all its nodes, rooted at node
    /// 0, whose leaves name each entrant exactly once.
    pub closed spec fn wf(&self) -> bool {
        let s = self.graph@;
        let n = self.entrants@.len();
        &&& n >= 1
        &&& self.grand_finals.0 == 0
        &&& arena_ok(s, n as int)
    }

    /// Builds the bracket for `entrants`, seeded in list order.
    pub fn new(entrants: Vec<E>) -> (r: Result<Self, TournamentError>)
        requires
            entrants@.len() < usize::MAX / 2,
        ensures
            entrants@.len() == 0 <==> r == Err::<Self, TournamentError>(
                TournamentError::NeedsAtLeastOneEntrant,
            ),
            entrants@.len() > 0 <==> r is Ok,
            r matches Ok(t) ==> {
                &&& t.wf()
                &&& t.entrants_seq() == entrants@
                &&& seeded(t.nodes(), 0, t.nodes().len() as int, 0, entrants@.len() as int)
                &&& count_entrants(t.nodes()) == entrants@.len()
                &&& count_rounds(t.nodes()) == entrants@.len() - 1
                &&& count_complete(t.nodes()) == 0
                &&& count_incomplete(t.nodes()) == entrants@.len() - 1
            },
    {
        let n = entrants.len();
        if n == 0 {
            return Err(TournamentError::NeedsAtLeastOneEntrant);
        }
        let mut g = TournamentGraph::new();
        build_subtree(&mut g, 0, n);
        proof {
            let s = g@;
            lemma_seeded(s, 0, s.len() as int, 0, n as int);
            assert(s.subrange(0, s.len() as int) =~= s);
            lemma_count_zero(s, complete_pred());
            lemma_count_same(s, s, incomplete_pred(), round_pred());
            assert(rounds_closed(s));
        }
        Ok(Tournament { graph: g, entrants, grand_finals: NodeIndex(0), policy: core::marker::PhantomData })
    }
}


/// Plays one round between entrants `x` (side `A`) and `y` (side `B`), falling
/// back on the tiebreaker after a tie. Each entrant is handed out mutably for the
/// duration of the call and then put back in its place.
fn battle_pair<E, M, B: BattleSystem<E, M>>(entrants: &mut Vec<E>, x: usize, y: usize) -> (r: (
    TournamentRoundResult,
    M,
))
    requires
        x < old(entrants)@.len(),
        y < old(entrants)@.len(),
        x != y,
    ensures
        final(entrants)@.len() == old(entrants)@.len(),
        forall|k: int| 0 <= k < old(entrants)@.len() && k != x && k != y ==> final(entrants)@[k] == old(entrants)@[k],
{
    let ghost v0 = entrants@;
    let (lo, hi) = if x < y {
        (x, y)
    } else {
        (y, x)
    };
    let mut e_hi = entrants.remove(hi);
    let mut e_lo = entrants.remove(lo);
    let r = if x < y {
        decide::<E, M, B>(&mut e_lo, &mut e_hi)
    } else {
        decide::<E, M, B>(&mut e_hi, &mut e_lo)
    };
    entrants.insert(lo, e_lo);
    entrants.insert(hi, e_hi);
    proof {
        assert forall|k: int| 0 <= k < v0.len() && k != x && k != y implies entrants@[k] == v0[k] by {
            if k < lo {
            } else if k < hi {
            } else {
            }
        }
    }
    r
}

/// The decided outcome of one battle: the policy's own, or its tiebreaker's.
fn decide<E, M, B: BattleSystem<E, M>>(a: &mut E, b: &mut E) -> (r: (TournamentRoundResult, M)) {
    match B::battle(a, b) {
        BattleResult::Solved(result, metadata) => (result, metadata),
        BattleResult::Tie => B::tiebreaker(a, b),
    }
}

impl<E, M, B: BattleSystem<E, M>> Tournament<E, M, B> {
    /// Builds the bracket for `size` entrants, made in turn by `gen`.
    pub fn new_from_gen<F: Fn() -> E>(size: usize, gen: F) -> (r: Result<Self, TournamentError>)
        requires
            size < usize::MAX / 2,
            forall|| #[trigger] gen.requires(()),
        ensures
            size == 0 <==> r == Err::<Self, TournamentError>(TournamentError::NeedsAtLeastOneEntrant),
            size > 0 <==> r is Ok,
            r matches Ok(t) ==> {
                &&& t.wf()
                &&& t.entrants_seq().len() == size
                &&& forall|k: int| 0 <= k < size ==> gen.ensures((), #[trigger] t.entrants_seq()[k])
                &&& seeded(t.nodes(), 0, t.nodes().len() as int, 0, size as int)
                &&& count_entrants(t.nodes()) == size
                &&& count_rounds(t.nodes()) == size - 1
                &&& count_complete(t.nodes()) == 0
                &&& count_incomplete(t.nodes()) == size - 1
            },
    {
        let mut entrants: Vec<E> = Vec::new();
        let mut i: usize = 0;
        while i < size
            invariant
                i <= size,
                entrants@.len() == i,
                forall|| #[trigger] gen.requires(()),
                forall|k: int| 0 <= k < i ==> gen.ensures((), #[trigger] entrants@[k]),
            decreases size - i,
        {
            let e = gen();
            entrants.push(e);
            i = i + 1;
        }
        Self::new(entrants)
    }

    /// The number of entrants.
    pub fn len_entrants(&self) -> (r: usize)
        ensures
            r == self.entrants_seq().len(),
    {
        self.entrants.len()
    }

    /// The number of rounds, complete and incomplete.
    pub fn len_rounds(&self) -> (r: usize)
        ensures
            r == count_rounds(self.nodes()),
    {
        let s = self.graph.node_count();
        let mut c: usize = 0;
        let mut k: usize = 0;
        while k < s
            invariant
                s == self.graph@.len(),
                k <= s,
                c <= k,
                c == count_rounds(self.graph@.subrange(0, k as int)),
            decreases s - k,
        {
            proof {
                assert(self.graph@.subrange(0, k + 1) =~= self.graph@.subrange(0, k as int).push(self.graph@[k as int]));
                lemma_count_push(self.graph@.subrange(0, k as int), self.graph@[k as int], round_pred());
            }
            if let Some(TournamentNode::Round(_)) = self.graph.node_weight(NodeIndex(k)) {
                c = c + 1;
            }
            k = k + 1;
        }
        proof {
            assert(self.graph@.subrange(0, s as int) =~= self.graph@);
        }
        c
    }

    /// The number of complete rounds.
    pub fn len_rounds_complete(&self) -> (r: usize)
        ensures
            r == count_complete(self.nodes()),
    {
        let s = self.graph.node_count();
        let mut c: usize = 0;
        let mut k: usize = 0;
        while k < s
            invariant
                s == self.graph@.len(),
                k <= s,
                c <= k,
                c == count_complete(self.graph@.subrange(0, k as int)),
            decreases s - k,
        {
            proof {
                assert(self.graph@.subrange(0, k + 1) =~= self.graph@.subrange(0, k as int).push(self.graph@[k as int]));
                lemma_count_push(self.graph@.subrange(0, k as int), self.graph@[k as int], complete_pred());
            }
            if let Some(TournamentNode::Round(TournamentRound::Complete { .. })) = self.graph.node_weight(NodeIndex(k)) {
                c = c + 1;
            }
            k = k + 1;
        }
        proof {
            assert(self.graph@.subrange(0, s as int) =~= self.graph@);
        }
        c
    }

    /// The number of incomplete rounds.
    pub fn len_rounds_incomplete(&self) -> (r: usize)
        ensures
            r == count_incomplete(self.nodes()),
    {
        let s = self.graph.node_count();
        let mut c: usize = 0;
        let mut k: usize = 0;
        while k < s
            invariant
                s == self.graph@.len(),
                k <= s,
                c <= k,
                c == count_incomplete(self.graph@.subrange(0, k as int)),
            decreases s - k,
        {
            proof {
                assert(self.graph@.subrange(0, k + 1) =~= self.graph@.subrange(0, k as int).push(self.graph@[k as int]));
                lemma_count_push(self.graph@.subrange(0, k as int), self.graph@[k as int], incomplete_pred());
            }
            if let Some(TournamentNode::Round(TournamentRound::Incomplete)) = self.graph.node_weight(NodeIndex(k)) {
                c = c + 1;
            }
            k = k + 1;
        }
        proof {
            assert(self.graph@.subrange(0, s as int) =~= self.graph@);
        }
        c
    }

    /// The entrant of id `id`.
    pub fn entrant(&self, id: EntrantId) -> (r: Result<&E, TournamentError>)
        ensures
            id.0 < self.entrants_seq().len() ==> r == Ok::<&E, TournamentError>(&self.entrants_seq()[id.0 as int]),
            id.0 >= self.entrants_seq().len() ==> r == Err::<&E, TournamentError>(TournamentError::EntrantNotFound(id)),
    {
        if id.0 < self.entrants.len() {
            Ok(&self.entrants[id.0])
        } else {
            Err(TournamentError::EntrantNotFound(id))
        }
    }

    /// The index of the grand finals, the root of the bracket.
    pub fn grand_finals(&self) -> (r: &NodeIndex)
        requires
            self.wf(),
        ensures
            r.0 == 0,
    {
        &self.grand_finals
    }

    /// The bracket arena, for reading and rendering.
    pub fn graph(&self) -> (r: &TournamentGraph<M>)
        ensures
            r@ == self.nodes(),
    {
        &self.graph
    }

    /// The child of round `id` on side `target`.
    pub fn child_node(&self, id: NodeIndex, target: TournamentEdge) -> (r: Result<NodeIndex, TournamentError>)
        ensures
            id.0 >= self.nodes().len() ==> r == Err::<NodeIndex, TournamentError>(TournamentError::RoundNotFound(id)),
            id.0 < self.nodes().len() ==> match self.nodes()[id.0 as int].children {
                None => r == Err::<NodeIndex, TournamentError>(TournamentError::MalformedBracket),
                Some((a, b)) => r == Ok::<NodeIndex, TournamentError>(
                    if target is A { NodeIndex(a) } else { NodeIndex(b) },
                ),
            },
    {
        if id.0 >= self.graph.node_count() {
            return Err(TournamentError::RoundNotFound(id));
        }
        match self.graph.children(id) {
            Some((a, b)) => match target {
                TournamentEdge::A => Ok(a),
                TournamentEdge::B => Ok(b),
            },
            None => Err(TournamentError::MalformedBracket),
        }
    }

    /// The children of round `id`, in the order `(A, B)`.
    pub fn child_nodes(&self, id: NodeIndex) -> (r: Result<(NodeIndex, NodeIndex), TournamentError>)
        ensures
            id.0 >= self.nodes().len() ==> r == Err::<(NodeIndex, NodeIndex), TournamentError>(TournamentError::RoundNotFound(id)),
            id.0 < self.nodes().len() ==> match self.nodes()[id.0 as int].children {
                None => r == Err::<(NodeIndex, NodeIndex), TournamentError>(TournamentError::MalformedBracket),
                Some((a, b)) => r == Ok::<(NodeIndex, NodeIndex), TournamentError>((NodeIndex(a), NodeIndex(b))),
            },
    {
        let a = self.child_node(id, TournamentEdge::A)?;
        let b = self.child_node(id, TournamentEdge::B)?;
        Ok((a, b))
    }

    /// The entrant that won node `id`: the entrant itself for a leaf, `None` for
    /// a round not solved yet.
    pub fn winner(&self, id: NodeIndex) -> (r: Result<Option<EntrantId>, TournamentError>)
        ensures
            id.0 >= self.nodes().len() ==> r == Err::<Option<EntrantId>, TournamentError>(TournamentError::RoundNotFound(id)),
            id.0 < self.nodes().len() ==> r == Ok::<Option<EntrantId>, TournamentError>(winner_spec(self.nodes(), id.0 as int)),
    {
        if id.0 >= self.graph.node_count() {
            return Err(TournamentError::RoundNotFound(id));
        }
        Ok(self.graph.winner_at(id.0))
    }

    /// As `winner`, but hands out the winning entrant itself.
    pub fn winner_entrant(&self, id: NodeIndex) -> (r: Result<Option<&E>, TournamentError>)
        requires
            self.wf(),
        ensures
            id.0 >= self.nodes().len() ==> r == Err::<Option<&E>, TournamentError>(TournamentError::RoundNotFound(id)),
            id.0 < self.nodes().len() ==> match winner_spec(self.nodes(), id.0 as int) {
                None => r == Ok::<Option<&E>, TournamentError>(None),
                Some(e) => r == Ok::<Option<&E>, TournamentError>(Some(&self.entrants_seq()[e.0 as int])),
            },
    {
        match self.winner(id)? {
            None => Ok(None),
            Some(e) => {
                proof {
                    let s = self.graph@;
                    lemma_subtree(s, 0, s.len() as int, id.0 as int);
                    lemma_winner_leaf(s, id.0 as int, sub_end(s, id.0 as int));
                }
                Ok(Some(&self.entrants[e.0]))
            },
        }
    }

    /// Solves round `id` and every round it depends on, reusing rounds solved
    /// before, and returns the side that won it.
    pub fn solve_round(&mut self, id: NodeIndex) -> (r: Result<TournamentRoundResult, TournamentError>)
        requires
            old(self).wf(),
        ensures
            final(self).wf(),
            final(self).entrants_seq().len() == old(self).entrants_seq().len(),
            id.0 >= old(self).nodes().len() ==> r == Err::<TournamentRoundResult, TournamentError>(
                TournamentError::RoundNotFound(id),
            ) && *final(self) == *old(self),
            id.0 < old(self).nodes().len() && is_entrant_node(old(self).nodes()[id.0 as int]) ==> (r matches Err(
                TournamentError::Other(_),
            )) && *final(self) == *old(self),
            id.0 < old(self).nodes().len() && is_round_node(old(self).nodes()[id.0 as int]) ==> {
                let s0 = old(self).nodes();
                let s1 = final(self).nodes();
                let end = sub_end(s0, id.0 as int);
                &&& r is Ok
                &&& step_ok(s0, s1, id.0 as int, end)
                &&& forall|k: int| id.0 <= k < end ==> !is_incomplete_node(#[trigger] s1[k])
                &&& is_complete_node(s1[id.0 as int])
                &&& s1[id.0 as int].weight->Round_0->Complete_result == r->Ok_0
                &&& winner_spec(s1, id.0 as int) is Some
                &&& winner_spec(s1, id.0 as int) == winner_spec(s1, child_on(s1, id.0 as int, r->Ok_0))
                &&& is_complete_node(s0[id.0 as int]) ==> *final(self) == *old(self)
                &&& others_kept(s0, id.0 as int, end, old(self).entrants_seq(), final(self).entrants_seq())
            },
    {
        if id.0 >= self.graph.node_count() {
            return Err(TournamentError::RoundNotFound(id));
        }
        if let Some(TournamentNode::Entrant(_)) = self.graph.node_weight(id) {
            return Err(TournamentError::Other("an entrant leaf is not a round"));
        }
        let ghost s0 = self.graph@;
        let ghost end = sub_end(s0, id.0 as int);
        proof {
            lemma_subtree(s0, 0, s0.len() as int, id.0 as int);
        }
        let res = self.solve_rec(id.0, Ghost(end));
        proof {
            let s1 = self.graph@;
            lemma_tree_frame(s0, s1, id.0 as int, end);
            lemma_winner_some(s1, id.0 as int, end);
        }
        Ok(res)
    }

    /// Solves every round, up to and including the grand finals. A bracket of one
    /// entrant has no round: its grand finals is the entrant itself, and solving
    /// it does nothing.
    pub fn solve(&mut self) -> (r: Result<(), TournamentError>)
        requires
            old(self).wf(),
        ensures
            r is Ok,
            Self::solve_outcome(*old(self), *final(self)),
    {
        let ghost s0 = self.graph@;
        if let Some(TournamentNode::Entrant(_)) = self.graph.node_weight(NodeIndex(0)) {
            proof {
                lemma_closed_subtree(s0, 0, s0.len() as int);
                lemma_count_zero(s0, incomplete_pred());
                lemma_count_same(s0, s0, complete_pred(), round_pred());
                lemma_winner_some(s0, 0, s0.len() as int);
            }
            return Ok(());
        }
        let ghost end = s0.len() as int;
        self.solve_rec(0, Ghost(end));
        proof {
            let s1 = self.graph@;
            lemma_count_zero(s1, incomplete_pred());
            lemma_count_same(s1, s1, complete_pred(), round_pred());
            lemma_winner_some(s1, 0, s1.len() as int);
            if all_complete(s0) {
                assert(!is_incomplete_node(s0[0]));
            }
        }
        Ok(())
    }

    /// What solving the whole bracket does: from a sound bracket `before` it
    /// reaches the sound bracket `after` in which every round is complete; only
    /// incomplete rounds were decided, the other nodes are as they were, and a
    /// bracket already solved is left exactly as it is.
    pub open spec fn solve_outcome(before: Self, after: Self) -> bool {
        let s0 = before.nodes();
        let s1 = after.nodes();
        let n = before.entrants_seq().len();
        &&& after.wf()
        &&& after.entrants_seq().len() == n
        &&& step_ok(s0, s1, 0, s0.len() as int)
        &&& all_complete(s1)
        &&& count_incomplete(s1) == 0
        &&& count_complete(s1) == n - 1
        &&& winner_spec(s1, 0) is Some
        &&& all_complete(s0) ==> after == before
    }

    /// Solves the incomplete round `i` whose subtree ends at `end`, solving first
    /// whatever it depends on; a complete round is returned as it stands.
    fn solve_rec(&mut self, i: usize, Ghost(end): Ghost<int>) -> (r: TournamentRoundResult)
        requires
            old(self).wf(),
            tree_at(old(self).nodes(), i as int, end),
            is_round_node(old(self).nodes()[i as int]),
        ensures
            final(self).wf(),
            final(self).entrants_seq().len() == old(self).entrants_seq().len(),
            step_ok(old(self).nodes(), final(self).nodes(), i as int, end),
            forall|k: int| i <= k < end ==> !is_incomplete_node(#[trigger] final(self).nodes()[k]),
            is_complete_node(final(self).nodes()[i as int]),
            final(self).nodes()[i as int].weight->Round_0->Complete_result == r,
            is_complete_node(old(self).nodes()[i as int]) ==> *final(self) == *old(self),
            others_kept(old(self).nodes(), i as int, end, old(self).entrants_seq(), final(self).entrants_seq()),
        decreases end - i, 0nat,
    {
        let ghost s0 = self.graph@;
        if let Some(TournamentNode::Round(TournamentRound::Complete { result, .. })) =
            self.graph.node_weight(NodeIndex(i)) {
            let res = *result;
            proof {
                lemma_closed_subtree(s0, i as int, end);
            }
            return res;
        }
        let (a, b) = self.graph.child_pair(i);
        let wa = self.solve_side(a, Ghost(b as int));
        let ghost s1 = self.graph@;
        proof {
            lemma_tree_frame(s0, s1, b as int, end);
        }
        let ghost v1 = self.entrants@;
        let wb = self.solve_side(b, Ghost(end));
        let ghost s2 = self.graph@;
        let ghost v2 = self.entrants@;
        proof {
            lemma_tree_frame(s0, s1, a as int, b as int);
            lemma_winner_frame(s1, s2, a as int, b as int);
            lemma_tree_frame(s1, s2, a as int, b as int);
            lemma_tree_frame(s1, s2, b as int, end);
            lemma_winner_leaf(s2, a as int, b as int);
            lemma_winner_leaf(s2, b as int, end);
        }
        let (result, metadata) = battle_pair::<E, M, B>(&mut self.entrants, wa.0, wb.0);
        let node = GraphNode {
            weight: TournamentNode::Round(TournamentRound::Complete { result, metadata }),
            children: Some((a, b)),
        };
        let ghost n = self.entrants@.len() as int;
        proof {
            lemma_decide_round(s2, i as int, node, n);
            let v0 = old(self).entrants@;
            let v3 = self.entrants@;
            assert forall|e: int| 0 <= e < v0.len() && !names_leaf_in(s0, i as int, end, e) implies #[trigger] v3[e] == v0[e] by {
                assert forall|k: int| b <= k < end && is_entrant_node(#[trigger] s1[k]) implies leaf_id(s1[k]) != e by {
                    assert(s1[k] == s0[k]);
                }
                if e == wa.0 as int || e == wb.0 as int {
                    let ka = choose|k: int| a <= k < b && is_entrant_node(#[trigger] s2[k]) && s2[k].weight->Entrant_0 == wa;
                    let kb = choose|k: int| b <= k < end && is_entrant_node(#[trigger] s2[k]) && s2[k].weight->Entrant_0 == wb;
                    if s2[ka] != s0[ka] {
                        assert(s1[ka] == s0[ka]);
                    }
                    if s2[kb] != s0[kb] {
                        assert(s1[kb] == s0[kb]);
                    }
                }
                assert(v1[e] == v0[e]);
                assert(v2[e] == v1[e]);
            }
        }
        self.graph.set(i, node);
        proof {
            let s3 = self.graph@;
            assert forall|k: int| 0 <= k < s0.len() implies #[trigger] s3[k] == s0[k] || (i <= k < end
                && is_incomplete_node(s0[k]) && is_complete_node(s3[k])) by {
                if s1[k] != s0[k] {
                    assert(s2[k] == s1[k]);
                }
            }
            assert forall|k: int| i <= k < end implies !is_incomplete_node(#[trigger] s3[k]) by {
                if a <= k < b {
                    assert(!is_incomplete_node(s1[k]));
                }
            }
        }
        result
    }

    /// Makes sure node `c`, whose subtree ends at `end`, has a winner and returns it.
    fn solve_side(&mut self, c: usize, Ghost(end): Ghost<int>) -> (r: EntrantId)
        requires
            old(self).wf(),
            tree_at(old(self).nodes(), c as int, end),
        ensures
            final(self).wf(),
            final(self).entrants_seq().len() == old(self).entrants_seq().len(),
            step_ok(old(self).nodes(), final(self).nodes(), c as int, end),
            forall|k: int| c <= k < end ==> !is_incomplete_node(#[trigger] final(self).nodes()[k]),
            winner_spec(final(self).nodes(), c as int) == Some(r),
            others_kept(old(self).nodes(), c as int, end, old(self).entrants_seq(), final(self).entrants_seq()),
        decreases end - c, 1nat,
    {
        let incomplete = match self.graph.node_weight(NodeIndex(c)) {
            Some(TournamentNode::Round(TournamentRound::Incomplete)) => true,
            _ => false,
        };
        if incomplete {
            self.solve_rec(c, Ghost(end));
        }
        proof {
            let s = self.graph@;
            lemma_tree_frame(old(self).graph@, s, c as int, end);
            lemma_closed_subtree(s, c as int, end);
            lemma_winner_some(s, c as int, end);
        }
        match self.graph.winner_at(c) {
            Some(w) => w,
            None => EntrantId(0),
        }
    }
}

/// Solving twice in a row: the second solve finds every round complete, so it
/// decides nothing and leaves the tournament, winner included, as the first
/// solve left it.
pub proof fn lemma_solve_twice<E, M, B: BattleSystem<E, M>>(
    t0: Tournament<E, M, B>,
    t1: Tournament<E, M, B>,
    t2: Tournament<E, M, B>,
)
    requires
        Tournament::solve_outcome(t0, t1),
        Tournament::solve_outcome(t1, t2),
    ensures
        t2 == t1,
        winner_spec(t2.nodes(), 0) == winner_spec(t1.nodes(), 0),
        count_complete(t2.nodes()) == t0.entrants_seq().len() - 1,
{
}

/// A tournament of one entrant has no round, its grand finals is the entrant's
/// own leaf and already has that entrant as its winner, and solving it changes
/// nothing.
pub proof fn lemma_single_entrant<E, M, B: BattleSystem<E, M>>(
    t: Tournament<E, M, B>,
    after: Tournament<E, M, B>,
)
    requires
        t.wf(),
        t.entrants_seq().len() == 1,
    ensures
        count_rounds(t.nodes()) == 0,
        is_entrant_node(t.nodes()[0]),
        winner_spec(t.nodes(), 0) == Some(EntrantId(0)),
        Tournament::solve_outcome(t, after) ==> after == t,
{
    let s = t.nodes();
    if is_round_node(s[0]) {
        lemma_count_pos(s, round_pred(), 0);
    }
    assert forall|k: int| 0 <= k < s.len() implies !is_incomplete_node(#[trigger] s[k]) by {
        if is_round_node(s[k]) {
            lemma_count_pos(s, round_pred(), k);
        }
    }
}

} // verus!
