use vstd::prelude::*;

verus! {

/// The index of an entrant in a tournament's entrant list, assigned in input order.
#[derive(Clone, Copy, Debug, PartialEq, Eq, Structural)]
pub struct EntrantId(pub usize);

/// The index of a node in a tournament's bracket graph.
#[derive(Clone, Copy, Debug, PartialEq, Eq, Structural)]
pub struct NodeIndex(pub usize);

impl NodeIndex {
    /// Builds the index `i`.
    pub fn new(i: usize) -> (r: NodeIndex)
        ensures
            r.0 == i,
    {
        NodeIndex(i)
    }

    /// The plain position of the node in the graph.
    pub fn index(&self) -> (r: usize)
        ensures
            r == self.0,
    {
        self.0
    }
}

/// The side of a parent-to-child link of a round.
#[derive(Clone, Copy, Debug, PartialEq, Eq, Structural)]
pub enum TournamentEdge {
    /// The link to the child on side `A`.
    A,
    /// The link to the child on side `B`.
    B,
}

/// Which side of a solved round produced its winner.
#[derive(Clone, Copy, Debug, PartialEq, Eq, Structural)]
pub enum TournamentRoundResult {
    /// The winner came from side `A`.
    A,
    /// The winner came from side `B`.
    B,
}

/// The side label that names the same side as a round result.
pub open spec fn edge_of(r: TournamentRoundResult) -> TournamentEdge {
    match r {
        TournamentRoundResult::A => TournamentEdge::A,
        TournamentRoundResult::B => TournamentEdge::B,
    }
}

/// The round result that names the same side as a side label.
pub open spec fn result_of(e: TournamentEdge) -> TournamentRoundResult {
    match e {
        TournamentEdge::A => TournamentRoundResult::A,
        TournamentEdge::B => TournamentRoundResult::B,
    }
}

impl From<TournamentRoundResult> for TournamentEdge {
    fn from(r: TournamentRoundResult) -> (e: TournamentEdge)
        ensures
            e == edge_of(r),
    {
        match r {
            TournamentRoundResult::A => TournamentEdge::A,
            TournamentRoundResult::B => TournamentEdge::B,
        }
    }
}

impl vstd::std_specs::convert::FromSpecImpl<TournamentRoundResult> for TournamentEdge {
    open spec fn obeys_from_spec() -> bool {
        true
    }

    open spec fn from_spec(r: TournamentRoundResult) -> TournamentEdge {
        edge_of(r)
    }
}

impl From<TournamentEdge> for TournamentRoundResult {
    fn from(e: TournamentEdge) -> (r: TournamentRoundResult)
        ensures
            r == result_of(e),
    {
        match e {
            TournamentEdge::A => TournamentRoundResult::A,
            TournamentEdge::B => TournamentRoundResult::B,
        }
    }
}

impl vstd::std_specs::convert::FromSpecImpl<TournamentEdge> for TournamentRoundResult {
    open spec fn obeys_from_spec() -> bool {
        true
    }

    open spec fn from_spec(e: TournamentEdge) -> TournamentRoundResult {
        result_of(e)
    }
}

/// Converting a side label to a round result and back gives the label again.
pub proof fn lemma_side_round_trip(e: TournamentEdge, r: TournamentRoundResult)
    ensures
        edge_of(result_of(e)) == e,
        result_of(edge_of(r)) == r,
{
}

/// One round of a bracket.
#[derive(Clone, Debug)]
pub enum TournamentRound<M> {
    /// Not played yet.
    Incomplete,
    /// Played: the side that won and the metadata the battle policy attached.
    Complete { result: TournamentRoundResult, metadata: M },
}

impl<M> TournamentRound<M> {
    /// The metadata of the round, or `None` while it is incomplete.
    pub fn metadata(&self) -> (r: Option<&M>)
        ensures
            match *self {
                TournamentRound::Incomplete => r is None,
                TournamentRound::Complete { metadata, .. } => r == Some(&metadata),
            },
    {
        match self {
            TournamentRound::Complete { metadata, .. } => Some(metadata),
            TournamentRound::Incomplete => None,
        }
    }

    /// Mutable access to the metadata of the round, or `None` while it is incomplete.
    pub fn metadata_mut(&mut self) -> (r: Option<&mut M>)
        ensures
            match *old(self) {
                TournamentRound::Incomplete => r is None && *final(self) == *old(self),
                TournamentRound::Complete { result, metadata } => r is Some && *r->Some_0
                    == metadata && *final(self) == (TournamentRound::Complete {
                    result,
                    metadata: *final(r->Some_0),
                }),
            },
    {
        match self {
            TournamentRound::Complete { metadata, .. } => Some(metadata),
            TournamentRound::Incomplete => None,
        }
    }

    /// The winning side of the round, or `None` while it is incomplete.
    pub fn result(&self) -> (r: Option<&TournamentRoundResult>)
        ensures
            match *self {
                TournamentRound::Incomplete => r is None,
                TournamentRound::Complete { result, .. } => r == Some(&result),
            },
    {
        match self {
            TournamentRound::Complete { result, .. } => Some(result),
            TournamentRound::Incomplete => None,
        }
    }
}

/// A node of the bracket graph: an entrant leaf or a round.
#[derive(Clone, Debug)]
pub enum TournamentNode<M> {
    /// The starting point of one entrant.
    Entrant(EntrantId),
    /// A round between the winners of its two children.
    Round(TournamentRound<M>),
}

impl<M> TournamentNode<M> {
    /// The entrant of a leaf, or `None` for a round.
    pub fn entrant(&self) -> (r: Option<&EntrantId>)
        ensures
            match *self {
                TournamentNode::Entrant(e) => r == Some(&e),
                TournamentNode::Round(_) => r is None,
            },
    {
        match self {
            TournamentNode::Entrant(eid) => Some(eid),
            TournamentNode::Round(_) => None,
        }
    }

    /// The round of a round node, or `None` for a leaf.
    pub fn round(&self) -> (r: Option<&TournamentRound<M>>)
        ensures
            match *self {
                TournamentNode::Entrant(_) => r is None,
                TournamentNode::Round(round) => r == Some(&round),
            },
    {
        match self {
            TournamentNode::Round(round) => Some(round),
            TournamentNode::Entrant(_) => None,
        }
    }

    /// The metadata of a complete round; `None` for a leaf or an incomplete round.
    pub fn metadata(&self) -> (r: Option<&M>)
        ensures
            match *self {
                TournamentNode::Round(TournamentRound::Complete { metadata, .. }) => r == Some(
                    &metadata,
                ),
                _ => r is None,
            },
    {
        match self {
            TournamentNode::Round(round) => round.metadata(),
            TournamentNode::Entrant(_) => None,
        }
    }

    /// Mutable access to the metadata of a complete round; `None` for a leaf or an
    /// incomplete round.
    pub fn metadata_mut(&mut self) -> (r: Option<&mut M>)
        ensures
            match *old(self) {
                TournamentNode::Round(TournamentRound::Complete { result, metadata }) => r is Some
                    && *r->Some_0 == metadata && *final(self) == TournamentNode::Round(
                    TournamentRound::Complete { result, metadata: *final(r->Some_0) },
                ),
                _ => r is None && *final(self) == *old(self),
            },
    {
        match self {
            TournamentNode::Round(round) => round.metadata_mut(),
            TournamentNode::Entrant(_) => None,
        }
    }

    /// The winning side of a complete round; `None` for a leaf or an incomplete round.
    pub fn result(&self) -> (r: Option<&TournamentRoundResult>)
        ensures
            match *self {
                TournamentNode::Round(TournamentRound::Complete { result, .. }) => r == Some(
                    &result,
                ),
                _ => r is None,
            },
    {
        match self {
            TournamentNode::Round(round) => round.result(),
            TournamentNode::Entrant(_) => None,
        }
    }
}

/// What a battle policy reports for one battle.
#[derive(Clone, Debug)]
pub enum BattleResult<M> {
    /// A decided battle: the winning side and the round's metadata.
    Solved(TournamentRoundResult, M),
    /// A tie, to be settled by the policy's tiebreaker.
    Tie,
}

/// A battle policy: decides rounds between two entrants.
///
/// Each call gets exclusive access to the two entrants for its own duration, so
/// a policy may change them (damage carried from round to round).
pub trait BattleSystem<E, M> {
    /// Plays a round between the entrant on side `A` and the one on side `B`.
    fn battle(a: &mut E, b: &mut E) -> BattleResult<M>;

    /// Settles a round for which `battle` reported a tie; always decides.
    fn tiebreaker(a: &mut E, b: &mut E) -> (TournamentRoundResult, M);
}

/// The errors of the library.
#[derive(Clone, Copy, Debug, PartialEq, Eq)]
pub enum TournamentError {
    /// The graph holds no node of this index.
    RoundNotFound(NodeIndex),
    /// The tournament holds no entrant of this id.
    EntrantNotFound(EntrantId),
    /// A round lacks its two children, one on each side.
    MalformedBracket,
    /// A tournament was asked for with no entrants.
    NeedsAtLeastOneEntrant,
    /// An internal invariant did not hold, described in words.
    Other(&'static str),
    /// Rendering the bracket failed.
    PrintFailure,
}

} // verus!
