use ring_puzzle::board::{
    build_graph, data_hash, is_solved, load_map, move_data, move_possibilities, state_hash, Arrangement,
    GraphNode, Move, PuzzleError, HUB, NUM_LOCATIONS,
};
use ring_puzzle::search::{solve, solve_bfs, solve_puzzle, DEFAULT_MAX_DEPTH};

fn two_swaps() -> Vec<(char, char)> {
    vec![('1', '2'), ('2', '1'), ('3', '3'), ('4', '5'), ('5', '4'), ('6', '6')]
}

fn already_solved() -> Vec<(char, char)> {
    vec![('1', '1'), ('2', '2'), ('3', '3'), ('4', '4'), ('5', '5'), ('6', '6')]
}

fn cells(a: &Arrangement) -> Vec<Option<u8>> {
    (0..NUM_LOCATIONS).map(|l| a.get(l)).collect()
}

fn empties(a: &Arrangement) -> usize {
    cells(a).iter().filter(|c| c.is_none()).count()
}

#[test]
fn graph_has_ring_and_hub() {
    let g = build_graph();
    assert_eq!(g.neighbors(HUB), &vec![1, 2, 3, 4, 5, 6]);
    assert_eq!(g.neighbors(1), &vec![2, 6, HUB]);
    assert_eq!(g.neighbors(6), &vec![1, 5, HUB]);
    assert_eq!(g.neighbors(3), &vec![4, 2, HUB]);
}

#[test]
fn load_places_tokens_and_leaves_hub_empty() {
    let a = load_map(&two_swaps()).unwrap();
    assert_eq!(cells(&a), vec![None, Some(2), Some(1), Some(3), Some(5), Some(4), Some(6)]);
}

#[test]
fn load_accepts_any_order() {
    let m = vec![('6', '6'), ('3', '3'), ('1', '2'), ('5', '4'), ('2', '1'), ('4', '5')];
    let a = load_map(&m).unwrap();
    assert_eq!(cells(&a), vec![None, Some(2), Some(1), Some(3), Some(5), Some(4), Some(6)]);
}

#[test]
fn load_allows_repeated_tokens() {
    let m = vec![('1', '1'), ('2', '1'), ('3', '3'), ('4', '4'), ('5', '5'), ('6', '6')];
    let a = load_map(&m).unwrap();
    assert_eq!(a.get(2), Some(1));
}

#[test]
fn load_rejects_missing_location() {
    let m = vec![('1', '2'), ('2', '1'), ('3', '3'), ('4', '5'), ('5', '4')];
    assert!(matches!(load_map(&m), Err(PuzzleError::MalformedInput)));
}

#[test]
fn load_rejects_unknown_identifiers() {
    let mut m = two_swaps();
    m[2] = ('3', '7');
    assert!(matches!(load_map(&m), Err(PuzzleError::MalformedInput)));
    let mut m = two_swaps();
    m[2] = ('M', '3');
    assert!(matches!(load_map(&m), Err(PuzzleError::MalformedInput)));
}

#[test]
fn load_rejects_location_named_twice() {
    let mut m = two_swaps();
    m.push(('3', '3'));
    assert!(matches!(load_map(&m), Err(PuzzleError::MalformedInput)));
}

#[test]
fn placed_nodes() {
    assert!(GraphNode { location: 3, data: Some(3) }.is_placed());
    assert!(!GraphNode { location: 3, data: Some(4) }.is_placed());
    assert!(!GraphNode { location: 3, data: None }.is_placed());
    assert!(GraphNode { location: HUB, data: None }.is_placed());
    assert!(!GraphNode { location: HUB, data: Some(1) }.is_placed());
}

#[test]
fn solved_check() {
    assert!(is_solved(&load_map(&already_solved()).unwrap()));
    assert!(!is_solved(&load_map(&two_swaps()).unwrap()));
}

#[test]
fn backwards_move_swaps_ends() {
    let m = Move { from: 4, to: HUB };
    assert_eq!(m.backwards_move(), Move { from: HUB, to: 4 });
}

#[test]
fn data_hash_values() {
    assert_eq!(data_hash(None), 0);
    assert_eq!(data_hash(Some(5)), 5);
}

#[test]
fn fingerprint_exact_value() {
    let a = load_map(&two_swaps()).unwrap();
    assert_eq!(state_hash(&a), 2 | (1 << 3) | (3 << 6) | (5 << 9) | (4 << 12) | (6 << 15));
    assert_eq!(state_hash(&a), 215754);
}

#[test]
fn fingerprint_tells_arrangements_apart() {
    let g = build_graph();
    let a = load_map(&two_swaps()).unwrap();
    let b = load_map(&already_solved()).unwrap();
    assert_ne!(state_hash(&a), state_hash(&b));
    let c = move_data(&g, &a, Move { from: 1, to: HUB }).unwrap();
    assert_ne!(state_hash(&a), state_hash(&c));
    let a2 = load_map(&two_swaps()).unwrap();
    assert_eq!(state_hash(&a), state_hash(&a2));
}

#[test]
fn moves_from_empty_hub() {
    let g = build_graph();
    let a = load_map(&two_swaps()).unwrap();
    let ms = move_possibilities(&g, &a);
    let expected: Vec<Move> = (1..7).map(|f| Move { from: f, to: HUB }).collect();
    assert_eq!(ms, expected);
}

#[test]
fn moves_from_empty_outer_location() {
    let g = build_graph();
    let a = load_map(&two_swaps()).unwrap();
    let b = move_data(&g, &a, Move { from: 1, to: HUB }).unwrap();
    let ms = move_possibilities(&g, &b);
    assert_eq!(ms, vec![Move { from: 2, to: 1 }, Move { from: 6, to: 1 }, Move { from: HUB, to: 1 }]);
    for m in ms {
        assert!(move_data(&g, &b, m).is_ok());
    }
}

#[test]
fn move_relocates_token_and_keeps_input() {
    let g = build_graph();
    let a = load_map(&two_swaps()).unwrap();
    let b = move_data(&g, &a, Move { from: 4, to: HUB }).unwrap();
    assert_eq!(cells(&b), vec![Some(5), Some(2), Some(1), Some(3), None, Some(4), Some(6)]);
    assert_eq!(cells(&a), vec![None, Some(2), Some(1), Some(3), Some(5), Some(4), Some(6)]);
    assert_eq!(empties(&b), 1);
}

#[test]
fn illegal_moves_are_refused() {
    let g = build_graph();
    let a = load_map(&two_swaps()).unwrap();
    // target not empty
    assert!(matches!(move_data(&g, &a, Move { from: 1, to: 2 }), Err(PuzzleError::IllegalMove)));
    // source empty
    assert!(matches!(move_data(&g, &a, Move { from: HUB, to: HUB }), Err(PuzzleError::IllegalMove)));
    // out of range
    assert!(matches!(move_data(&g, &a, Move { from: 9, to: HUB }), Err(PuzzleError::IllegalMove)));
    let b = move_data(&g, &a, Move { from: 1, to: HUB }).unwrap();
    // not adjacent
    assert!(matches!(move_data(&g, &b, Move { from: 3, to: 1 }), Err(PuzzleError::IllegalMove)));
}

#[test]
fn move_then_inverse_restores() {
    let g = build_graph();
    let a = load_map(&two_swaps()).unwrap();
    let m = Move { from: 3, to: HUB };
    let b = move_data(&g, &a, m).unwrap();
    let c = move_data(&g, &b, m.backwards_move()).unwrap();
    assert_eq!(cells(&c), cells(&a));
    assert_eq!(state_hash(&c), state_hash(&a));
}

#[test]
fn breadth_first_solves_two_swaps() {
    let r = solve_puzzle(&two_swaps(), DEFAULT_MAX_DEPTH).unwrap();
    assert_eq!(r.moves.len(), 6);
    assert!(is_solved(&r.arrangement));
    let g = build_graph();
    let mut a = load_map(&two_swaps()).unwrap();
    assert_eq!(empties(&a), 1);
    for m in &r.moves {
        a = move_data(&g, &a, *m).unwrap();
        assert_eq!(empties(&a), 1);
    }
    assert_eq!(cells(&a), cells(&r.arrangement));
    assert!(is_solved(&a));
}

#[test]
fn breadth_first_respects_depth_bound() {
    let r = solve_puzzle(&two_swaps(), 10).unwrap();
    assert!(!r.moves.is_empty() && r.moves.len() <= 10);
    assert!(matches!(solve_puzzle(&two_swaps(), 5), Err(PuzzleError::NoSolutionFound)));
}

#[test]
fn solved_start_needs_no_moves() {
    let r = solve_puzzle(&already_solved(), DEFAULT_MAX_DEPTH).unwrap();
    assert!(r.moves.is_empty());
    assert!(is_solved(&r.arrangement));
}

#[test]
fn missing_location_fails_before_search() {
    let m = vec![('1', '2'), ('2', '1'), ('3', '3'), ('4', '5'), ('6', '6')];
    assert!(matches!(solve_puzzle(&m, DEFAULT_MAX_DEPTH), Err(PuzzleError::MalformedInput)));
}

#[test]
fn zero_depth_on_unsolved_start_fails() {
    assert!(matches!(solve_puzzle(&two_swaps(), 0), Err(PuzzleError::NoSolutionFound)));
    let g = build_graph();
    let a = load_map(&two_swaps()).unwrap();
    assert!(matches!(solve_bfs(&g, &a, 0), Err(PuzzleError::NoSolutionFound)));
}

#[test]
fn depth_first_finds_shortest() {
    let g = build_graph();
    let a = load_map(&two_swaps()).unwrap();
    let visited = vec![state_hash(&a)];
    let r = solve(&g, &a, &Vec::new(), &visited, 10).unwrap();
    assert_eq!(r.moves.len(), 6);
    assert!(is_solved(&r.arrangement));
    let mut b = load_map(&two_swaps()).unwrap();
    for m in &r.moves {
        b = move_data(&g, &b, *m).unwrap();
    }
    assert_eq!(cells(&b), cells(&r.arrangement));
}

#[test]
fn depth_first_keeps_history() {
    let g = build_graph();
    let a = load_map(&two_swaps()).unwrap();
    let history = vec![Move { from: 4, to: HUB }, Move { from: HUB, to: 4 }];
    let visited = vec![state_hash(&a)];
    let r = solve(&g, &a, &history, &visited, 12).unwrap();
    assert_eq!(r.moves.len(), 8);
    assert_eq!(r.moves[..2], history[..]);
}

#[test]
fn depth_first_errors() {
    let g = build_graph();
    let a = load_map(&two_swaps()).unwrap();
    let visited = vec![state_hash(&a)];
    assert!(matches!(solve(&g, &a, &Vec::new(), &visited, 0), Err(PuzzleError::DepthExceeded)));
    assert!(matches!(solve(&g, &a, &Vec::new(), &visited, 5), Err(PuzzleError::NoSolutionFound)));
    let s = load_map(&already_solved()).unwrap();
    let r = solve(&g, &s, &Vec::new(), &Vec::new(), 0).unwrap();
    assert!(r.moves.is_empty());
}
