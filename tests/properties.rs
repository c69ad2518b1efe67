use ultra_tournament::{
    BattleResult, BattleSystem, EntrantId, NodeIndex, Tournament, TournamentEdge, TournamentError,
    TournamentNode, TournamentRound, TournamentRoundResult,
};

#[derive(Debug, Clone, Copy, PartialEq)]
struct Counted {
    value: u32,
    battles: u32,
    tiebreaks: u32,
}

fn counted(values: &[u32]) -> Vec<Counted> {
    values.iter().map(|v| Counted { value: *v, battles: 0, tiebreaks: 0 }).collect()
}

#[derive(Clone)]
struct MaxWins;

impl BattleSystem<Counted, u32> for MaxWins {
    fn battle(a: &mut Counted, b: &mut Counted) -> BattleResult<u32> {
        a.battles += 1;
        b.battles += 1;
        if a.value > b.value {
            BattleResult::Solved(TournamentRoundResult::A, a.value - b.value)
        } else if a.value < b.value {
            BattleResult::Solved(TournamentRoundResult::B, b.value - a.value)
        } else {
            BattleResult::Tie
        }
    }
    fn tiebreaker(a: &mut Counted, b: &mut Counted) -> (TournamentRoundResult, u32) {
        a.tiebreaks += 1;
        b.tiebreaks += 1;
        (TournamentRoundResult::B, 0)
    }
}

#[derive(Clone)]
struct AlwaysTie;

impl BattleSystem<Counted, u32> for AlwaysTie {
    fn battle(a: &mut Counted, b: &mut Counted) -> BattleResult<u32> {
        a.battles += 1;
        b.battles += 1;
        BattleResult::Tie
    }
    fn tiebreaker(a: &mut Counted, b: &mut Counted) -> (TournamentRoundResult, u32) {
        a.tiebreaks += 1;
        b.tiebreaks += 1;
        (TournamentRoundResult::A, 7)
    }
}

fn total_battles<B: BattleSystem<Counted, u32>>(t: &Tournament<Counted, u32, B>) -> u32 {
    let mut sum = 0;
    for i in 0..t.len_entrants() {
        sum += t.entrant(EntrantId(i)).unwrap().battles;
    }
    sum / 2
}

fn total_tiebreaks<B: BattleSystem<Counted, u32>>(t: &Tournament<Counted, u32, B>) -> u32 {
    let mut sum = 0;
    for i in 0..t.len_entrants() {
        sum += t.entrant(EntrantId(i)).unwrap().tiebreaks;
    }
    sum / 2
}

fn winner_value<B: BattleSystem<Counted, u32>>(t: &Tournament<Counted, u32, B>) -> u32 {
    t.winner_entrant(*t.grand_finals()).unwrap().unwrap().value
}

#[test]
fn every_size_has_n_leaves_and_n_minus_one_rounds() {
    for n in 1..70usize {
        let values: Vec<u32> = (0..n as u32).collect();
        let t = Tournament::<Counted, u32, MaxWins>::new(counted(&values)).unwrap();
        assert_eq!(t.len_entrants(), n);
        assert_eq!(t.len_rounds(), n - 1);
        assert_eq!(t.graph().node_count(), 2 * n - 1);
        assert_eq!(t.len_rounds_incomplete(), n - 1);
        assert_eq!(t.len_rounds_complete(), 0);
    }
}

#[test]
fn solving_completes_every_round() {
    for n in 1..70usize {
        let values: Vec<u32> = (0..n as u32).map(|v| (v * 37) % 101).collect();
        let mut t = Tournament::<Counted, u32, MaxWins>::new(counted(&values)).unwrap();
        t.solve().unwrap();
        assert_eq!(t.len_rounds_incomplete(), 0);
        assert_eq!(t.len_rounds_complete(), n - 1);
        assert_eq!(winner_value(&t), *values.iter().max().unwrap());
    }
}

#[test]
fn solving_twice_battles_each_round_once() {
    let values = [6, 1, 2, 9, 3, 4, 127, 5, 8, 7];
    let mut t = Tournament::<Counted, u32, MaxWins>::new(counted(&values)).unwrap();
    t.solve().unwrap();
    let first = t.winner(*t.grand_finals()).unwrap();
    assert_eq!(total_battles(&t), 9);
    t.solve().unwrap();
    t.solve().unwrap();
    assert_eq!(t.winner(*t.grand_finals()).unwrap(), first);
    assert_eq!(total_battles(&t), 9);
}

#[test]
fn partial_solves_are_reused() {
    let values = [6, 1, 2, 9, 3, 4, 127, 5, 8, 7];
    let mut t = Tournament::<Counted, u32, MaxWins>::new(counted(&values)).unwrap();
    let (a, b) = t.child_nodes(*t.grand_finals()).unwrap();
    assert_eq!(t.solve_round(a).unwrap(), TournamentRoundResult::B);
    assert_eq!(t.winner(a).unwrap(), Some(EntrantId(3)));
    assert_eq!(t.winner(b).unwrap(), None);
    assert_eq!(t.len_rounds_complete(), 4);
    assert_eq!(total_battles(&t), 4);
    for i in 5..10 {
        assert_eq!(t.entrant(EntrantId(i)).unwrap().battles, 0);
    }
    t.solve().unwrap();
    assert_eq!(total_battles(&t), 9);
    assert_eq!(t.winner(b).unwrap(), Some(EntrantId(6)));
    assert_eq!(t.solve_round(a).unwrap(), TournamentRoundResult::B);
    assert_eq!(total_battles(&t), 9);
}

#[test]
fn decisive_policy_is_deterministic() {
    let values = [14, 3, 99, 42, 7, 63, 21, 88, 5, 70, 31];
    let mut t1 = Tournament::<Counted, u32, MaxWins>::new(counted(&values)).unwrap();
    let mut t2 = Tournament::<Counted, u32, MaxWins>::new(counted(&values)).unwrap();
    t1.solve().unwrap();
    t2.solve().unwrap();
    for k in 0..t1.graph().node_count() {
        let id = NodeIndex::new(k);
        assert_eq!(t1.winner(id).unwrap(), t2.winner(id).unwrap());
        let w1 = t1.graph().node_weight(id).unwrap();
        let w2 = t2.graph().node_weight(id).unwrap();
        assert_eq!(w1.metadata(), w2.metadata());
        assert_eq!(w1.result(), w2.result());
    }
    assert_eq!(winner_value(&t1), 99);
}

#[test]
fn bye_bracket_finals() {
    let values = [6, 1, 2, 9, 3, 4, 127, 5, 8, 7];
    let mut t = Tournament::<Counted, u32, MaxWins>::new(counted(&values)).unwrap();
    t.solve().unwrap();
    let root = *t.grand_finals();
    assert_eq!(root.index(), 0);
    assert_eq!(t.winner(root).unwrap(), Some(EntrantId(6)));
    let finals = t.graph().node_weight(root).unwrap();
    assert_eq!(finals.result(), Some(&TournamentRoundResult::B));
    assert_eq!(finals.metadata(), Some(&118));
    let a = t.child_node(root, TournamentEdge::A).unwrap();
    let b = t.child_node(root, TournamentEdge::B).unwrap();
    assert_eq!(t.winner(a).unwrap(), Some(EntrantId(3)));
    assert_eq!(t.winner(b).unwrap(), Some(EntrantId(6)));
}

#[test]
fn three_entrants_give_a_bye_on_side_b() {
    let mut t = Tournament::<Counted, u32, MaxWins>::new(counted(&[5, 8, 2])).unwrap();
    let root = *t.grand_finals();
    let a = t.child_node(root, TournamentEdge::A).unwrap();
    let b = t.child_node(root, TournamentEdge::B).unwrap();
    assert_eq!(t.graph().node_weight(b).unwrap().entrant(), Some(&EntrantId(0)));
    assert!(t.graph().node_weight(a).unwrap().round().is_some());
    let (aa, ab) = t.child_nodes(a).unwrap();
    assert_eq!(t.graph().node_weight(aa).unwrap().entrant(), Some(&EntrantId(1)));
    assert_eq!(t.graph().node_weight(ab).unwrap().entrant(), Some(&EntrantId(2)));
    t.solve().unwrap();
    assert_eq!(t.solve_round(root).unwrap(), TournamentRoundResult::A);
    assert_eq!(t.winner(root).unwrap(), Some(EntrantId(1)));
    assert_eq!(t.entrant(EntrantId(0)).unwrap().battles, 1);
    assert_eq!(t.entrant(EntrantId(1)).unwrap().battles, 2);
}

#[test]
fn four_entrants_split_in_halves() {
    let t = Tournament::<Counted, u32, MaxWins>::new(counted(&[1, 2, 3, 4])).unwrap();
    let root = *t.grand_finals();
    let (a, b) = t.child_nodes(root).unwrap();
    let (aa, ab) = t.child_nodes(a).unwrap();
    let (ba, bb) = t.child_nodes(b).unwrap();
    let g = t.graph();
    assert_eq!(g.node_weight(aa).unwrap().entrant(), Some(&EntrantId(0)));
    assert_eq!(g.node_weight(ab).unwrap().entrant(), Some(&EntrantId(1)));
    assert_eq!(g.node_weight(ba).unwrap().entrant(), Some(&EntrantId(2)));
    assert_eq!(g.node_weight(bb).unwrap().entrant(), Some(&EntrantId(3)));
    assert_eq!(g.children(root), Some((a, b)));
    assert_eq!(g.children(aa), None);
}

#[test]
fn ties_go_to_the_tiebreaker_every_round() {
    let values = [4, 4, 4, 4, 4, 4, 4];
    let mut t = Tournament::<Counted, u32, AlwaysTie>::new(counted(&values)).unwrap();
    t.solve().unwrap();
    assert_eq!(total_battles(&t), 6);
    assert_eq!(total_tiebreaks(&t), 6);
    for k in 0..t.graph().node_count() {
        let node = t.graph().node_weight(NodeIndex::new(k)).unwrap();
        if let TournamentNode::Round(round) = node {
            assert_eq!(round.result(), Some(&TournamentRoundResult::A));
            assert_eq!(round.metadata(), Some(&7));
        }
    }
    assert_eq!(t.winner(*t.grand_finals()).unwrap(), Some(EntrantId(1)));
}

#[test]
fn equal_entrants_use_the_tiebreaker() {
    let mut t = Tournament::<Counted, u32, MaxWins>::new(counted(&[3, 3])).unwrap();
    assert_eq!(t.solve_round(*t.grand_finals()).unwrap(), TournamentRoundResult::B);
    assert_eq!(total_tiebreaks(&t), 1);
    assert_eq!(t.winner(*t.grand_finals()).unwrap(), Some(EntrantId(1)));
}

#[test]
fn empty_list_is_refused() {
    let r = Tournament::<Counted, u32, MaxWins>::new(vec![]);
    assert!(matches!(r, Err(TournamentError::NeedsAtLeastOneEntrant)));
    let g = Tournament::<Counted, u32, MaxWins>::new_from_gen(0, || Counted {
        value: 1,
        battles: 0,
        tiebreaks: 0,
    });
    assert!(matches!(g, Err(TournamentError::NeedsAtLeastOneEntrant)));
}

#[test]
fn unknown_ids_are_reported() {
    let mut t = Tournament::<Counted, u32, MaxWins>::new(counted(&[1, 2, 3])).unwrap();
    assert_eq!(t.entrant(EntrantId(3)).err(), Some(TournamentError::EntrantNotFound(EntrantId(3))));
    assert_eq!(t.entrant(EntrantId(2)).unwrap().value, 3);
    let missing = NodeIndex::new(5);
    assert_eq!(t.winner(missing), Err(TournamentError::RoundNotFound(missing)));
    assert_eq!(t.winner_entrant(missing).err(), Some(TournamentError::RoundNotFound(missing)));
    assert_eq!(t.child_node(missing, TournamentEdge::A), Err(TournamentError::RoundNotFound(missing)));
    assert_eq!(t.child_nodes(missing), Err(TournamentError::RoundNotFound(missing)));
    assert_eq!(t.solve_round(missing), Err(TournamentError::RoundNotFound(missing)));
    assert!(t.graph().node_weight(missing).is_none());
}

#[test]
fn leaves_are_not_rounds() {
    let mut t = Tournament::<Counted, u32, MaxWins>::new(counted(&[1, 2])).unwrap();
    let (a, _) = t.child_nodes(*t.grand_finals()).unwrap();
    assert_eq!(t.child_node(a, TournamentEdge::B), Err(TournamentError::MalformedBracket));
    assert!(matches!(t.solve_round(a), Err(TournamentError::Other(_))));
    assert_eq!(t.winner(a).unwrap(), Some(EntrantId(0)));
    assert_eq!(t.len_rounds_complete(), 0);
}

#[test]
fn single_entrant_wins_without_battle() {
    let mut t = Tournament::<Counted, u32, MaxWins>::new(counted(&[42])).unwrap();
    assert_eq!(t.len_rounds(), 0);
    assert_eq!(t.winner(*t.grand_finals()).unwrap(), Some(EntrantId(0)));
    t.solve().unwrap();
    assert_eq!(total_battles(&t), 0);
    assert_eq!(winner_value(&t), 42);
    assert_eq!(t.len_rounds_complete(), 0);
}

#[test]
fn entrants_from_a_generator() {
    let mut t = Tournament::<Counted, u32, MaxWins>::new_from_gen(5, || Counted {
        value: 9,
        battles: 0,
        tiebreaks: 0,
    })
    .unwrap();
    assert_eq!(t.len_entrants(), 5);
    assert_eq!(t.len_rounds(), 4);
    t.solve().unwrap();
    assert_eq!(total_tiebreaks(&t), 4);
}

#[test]
fn sides_convert_both_ways() {
    assert_eq!(TournamentEdge::from(TournamentRoundResult::A), TournamentEdge::A);
    assert_eq!(TournamentEdge::from(TournamentRoundResult::B), TournamentEdge::B);
    assert_eq!(TournamentRoundResult::from(TournamentEdge::A), TournamentRoundResult::A);
    assert_eq!(TournamentRoundResult::from(TournamentEdge::B), TournamentRoundResult::B);
}

#[test]
fn round_accessors() {
    let mut round: TournamentRound<String> = TournamentRound::Complete {
        result: TournamentRoundResult::B,
        metadata: "close".to_string(),
    };
    assert_eq!(round.result(), Some(&TournamentRoundResult::B));
    round.metadata_mut().unwrap().push_str(" call");
    assert_eq!(round.metadata(), Some(&"close call".to_string()));
    let mut node = TournamentNode::Round(round);
    *node.metadata_mut().unwrap() = "rematch".to_string();
    assert_eq!(node.metadata(), Some(&"rematch".to_string()));
    assert_eq!(node.result(), Some(&TournamentRoundResult::B));
    assert!(node.entrant().is_none());
    let mut incomplete: TournamentNode<String> = TournamentNode::Round(TournamentRound::Incomplete);
    assert!(incomplete.metadata_mut().is_none());
    assert!(incomplete.result().is_none());
    let mut leaf: TournamentNode<String> = TournamentNode::Entrant(EntrantId(4));
    assert_eq!(leaf.entrant(), Some(&EntrantId(4)));
    assert!(leaf.round().is_none());
    assert!(leaf.metadata_mut().is_none());
    assert!(leaf.metadata().is_none());
}
