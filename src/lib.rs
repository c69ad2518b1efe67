//! Single-elimination tournament brackets over caller-supplied entrants and a
//! caller-supplied battle policy.
//!
//! A bracket is built once from an ordered list of entrants and is then solved
//! bottom-up, round by round, with already-solved rounds reused.
mod graph;
mod tournament;
mod types;

pub use crate::graph::child_on;
pub use crate::graph::count_complete;
pub use crate::graph::count_entrants;
pub use crate::graph::count_incomplete;
pub use crate::graph::count_nodes;
pub use crate::graph::count_rounds;
pub use crate::graph::rounds_closed;
pub use crate::graph::seeded;
pub use crate::graph::sub_end;
pub use crate::graph::tree_at;
pub use crate::graph::winner_spec;
pub use crate::graph::GraphNode;
pub use crate::graph::TournamentGraph;
pub use crate::tournament::all_complete;
pub use crate::tournament::arena_ok;
pub use crate::tournament::leaves_ok;
pub use crate::tournament::lemma_single_entrant;
pub use crate::tournament::lemma_solve_twice;
pub use crate::tournament::names_leaf_in;
pub use crate::tournament::others_kept;
pub use crate::tournament::step_ok;
pub use crate::tournament::Tournament;
pub use crate::types::edge_of;
pub use crate::types::lemma_side_round_trip;
pub use crate::types::result_of;
pub use crate::types::BattleResult;
pub use crate::types::BattleSystem;
pub use crate::types::EntrantId;
pub use crate::types::NodeIndex;
pub use crate::types::TournamentEdge;
pub use crate::types::TournamentError;
pub use crate::types::TournamentNode;
pub use crate::types::TournamentRound;
pub use crate::types::TournamentRoundResult;
