use shenzhen_solver::{Card, Game, GameMove, GameState, MoveColumnParameters, Suit};
use Suit::{Black, FaceDown, Green, Red, Special};

fn card(suit: Suit, value: Option<u8>) -> Card {
    Card { suit, value }
}

fn solved() -> GameState {
    GameState {
        columns: [vec![], vec![], vec![], vec![], vec![], vec![], vec![], vec![]],
        top_left_storage: vec![card(FaceDown, None); 3],
        top_right_storage: [1, 9, 9, 9],
    }
}

fn almost_solved() -> GameState {
    GameState {
        columns: [vec![card(Red, Some(9))], vec![], vec![], vec![], vec![], vec![], vec![], vec![]],
        top_left_storage: vec![card(FaceDown, None); 3],
        top_right_storage: [1, 8, 9, 9],
    }
}

#[test]
fn test_is_solved() {
    let solved = solved();
    assert_eq!(solved.is_solved(), true);

    // The base case
    let mut game = Game::new();
    let result = game.play(solved.clone());
    assert_eq!(result.is_none(), false);
    let result = result.unwrap();
    assert_eq!(result.len(), 1);
    assert_eq!(&result[0].0, &solved);
}

#[test]
fn test_move_to_top_right_solve() {
    let almost_solved = almost_solved();
    assert_eq!(almost_solved.is_solved(), false);

    // Solved after a single iteration
    let mut game = Game::new();
    let result = game.play(almost_solved.clone());
    assert_eq!(result.is_none(), false);
    let result = result.unwrap();
    assert_eq!(result.len(), 2);
    assert_eq!(&result[0].0, &almost_solved);
    assert_eq!(result.last().unwrap().0.is_solved(), true);
}

/// Replays a move on a copy of the board, checking that it is legal.
fn replay(state: &GameState, game_move: GameMove) -> GameState {
    let mut next = state.clone();
    match game_move {
        GameMove::Start => panic!("Start inside a solution"),
        GameMove::ColumnToTopRightStorage { column } => {
            assert!(next.can_move_column_to_top_right_storage(column));
            next.move_column_to_top_right_storage(column);
        }
        GameMove::TopLeftToTopRightStorage { top_left_index } => {
            assert!(next.can_move_top_left_to_top_right_storage(top_left_index));
            next.move_top_left_to_top_right_storage(top_left_index);
        }
        GameMove::CollectDragons { suit } => {
            assert!(next.can_collect_dragons(suit));
            next.collect_dragons(suit);
        }
        GameMove::ColumnToOtherColumn { from_column_index, to_column_index, stack_size } => {
            let p = MoveColumnParameters { from_column_index, to_column_index, stack_size };
            assert!(next.can_move_column_to_other_column(p));
            next.move_column_to_other_column(p);
        }
        GameMove::ToTopLeftStorage { column } => {
            assert!(next.can_move_column_to_top_left(column));
            next.move_column_to_top_left(column);
        }
        GameMove::TopLeftToColumn { top_left_index, column_index } => {
            assert!(next.can_move_top_left_to_column(top_left_index, column_index));
            next.move_top_left_to_column(top_left_index, column_index);
        }
    }
    next
}

fn check_solution(initial: &GameState, solution: &[(GameState, GameMove)]) {
    assert_eq!(&solution[0].0, initial);
    assert_eq!(solution[0].1, GameMove::Start);
    for i in 1..solution.len() {
        let next = replay(&solution[i - 1].0, solution[i].1);
        assert_eq!(next.columns, solution[i].0.columns);
        assert_eq!(next.top_left_storage, solution[i].0.top_left_storage);
        assert_eq!(next.top_right_storage, solution[i].0.top_right_storage);
    }
    assert!(solution.last().unwrap().0.is_solved());
    for i in 0..solution.len() {
        for j in 0..i {
            assert_ne!(solution[i].0, solution[j].0);
        }
    }
}

#[test]
fn one_move_away_in_a_later_column() {
    let state = GameState {
        columns: [vec![], vec![], vec![], vec![], vec![], vec![card(Green, Some(9))], vec![], vec![]],
        top_left_storage: vec![card(FaceDown, None); 3],
        top_right_storage: [1, 9, 8, 9],
    };
    let result = Game::new().play(state.clone()).unwrap();
    assert_eq!(result.len(), 2);
    assert_eq!(result[1].1, GameMove::ColumnToTopRightStorage { column: 5 });
    assert_eq!(result[1].0.top_right_storage, [1, 9, 9, 9]);
    check_solution(&state, &result);
}

#[test]
fn solves_an_end_game_with_dragons() {
    let state = GameState {
        columns: [
            vec![card(Red, None), card(Green, Some(9))],
            vec![card(Red, None), card(Black, Some(9))],
            vec![card(Red, None)],
            vec![card(Red, Some(9)), card(Red, None)],
            vec![],
            vec![],
            vec![],
            vec![],
        ],
        top_left_storage: vec![card(FaceDown, None), card(FaceDown, None)],
        top_right_storage: [1, 8, 8, 8],
    };
    let result = Game::new().play(state.clone()).unwrap();
    check_solution(&state, &result);
    let last = &result.last().unwrap().0;
    assert_eq!(last.top_right_storage, [1, 9, 9, 9]);
    assert_eq!(last.top_left_storage, vec![card(FaceDown, None); 3]);
}

#[test]
fn a_search_with_no_expansion_finds_nothing() {
    assert!(Game::new().play_with_limit(almost_solved(), 0).is_none());
    assert!(Game::new().play_with_limit(almost_solved(), 2).is_some());
}

#[test]
fn a_stuck_board_has_no_solution() {
    // A red dragon buried under a red one: only three dragons are ever
    // reachable, and the cards cannot all be moved.
    let state = GameState {
        columns: [vec![card(Red, None), card(Red, None)], vec![], vec![], vec![], vec![], vec![], vec![], vec![]],
        top_left_storage: vec![card(FaceDown, None), card(FaceDown, None), card(Red, None)],
        top_right_storage: [1, 9, 9, 9],
    };
    assert!(Game::new().play(state).is_none());
}

#[test]
fn heuristic_values() {
    let state = GameState {
        columns: [
            vec![card(Red, None), card(Red, Some(9))],
            vec![card(Green, Some(5))],
            vec![card(Black, Some(5)), card(Green, Some(6)), card(Black, None)],
            vec![],
            vec![],
            vec![],
            vec![],
            vec![],
        ],
        top_left_storage: vec![card(FaceDown, None)],
        top_right_storage: [1, 2, 3, 4],
    };
    // 1 + 2 + 3 + 4, less the 2 + 3 cards of the columns holding a dragon
    assert_eq!(Game::heuristic(&state), 5);
    assert_eq!(Game::heuristic(&solved()), 28);
}

fn parse_column(text: &str) -> Vec<Card> {
    text.split_whitespace()
        .map(|c| {
            let suit = match &c[0..1] {
                "R" => Red,
                "G" => Green,
                "B" => Black,
                _ => Special,
            };
            let value = if &c[1..] == "d" { None } else { Some(c[1..].parse::<u8>().unwrap()) };
            card(suit, value)
        })
        .collect()
}

#[test]
fn solves_a_full_deal() {
    let state = GameState {
        top_left_storage: vec![],
        top_right_storage: [0, 0, 0, 0],
        columns: [
            parse_column("Bd Rd B7 R7 B6"),
            parse_column("Rd R9 G8 G7 R4"),
            parse_column("G2 B3 B5 R5 G3"),
            parse_column("G1 Rd S1 R1 G6"),
            parse_column("G4 R8 R2 R6 Bd"),
            parse_column("G5 B4 Rd B1 B8"),
            parse_column("Gd R3 Gd B2 Gd"),
            parse_column("B9 Bd Gd G9 Bd"),
        ],
    };
    let result = Game::new().play(state.clone()).unwrap();
    check_solution(&state, &result);
    let last = &result.last().unwrap().0;
    assert_eq!(last.top_right_storage, [1, 9, 9, 9]);
    assert_eq!(last.top_left_storage, vec![card(FaceDown, None); 3]);
}

#[test]
fn an_inconsistent_solved_board_ends_the_search() {
    let state = GameState {
        columns: [vec![], vec![], vec![], vec![], vec![], vec![], vec![], vec![]],
        top_left_storage: vec![],
        top_right_storage: [0, 0, 0, 0],
    };
    assert!(!state.has_won_layout());
    let mut game = Game::new();
    assert!(game.play(state).is_none());
    assert!(game.last_search_abandoned());
}

#[test]
fn an_exhausted_search_is_not_abandoned() {
    let state = GameState {
        columns: [vec![card(Red, None), card(Red, None)], vec![], vec![], vec![], vec![], vec![], vec![], vec![]],
        top_left_storage: vec![card(FaceDown, None), card(FaceDown, None), card(Red, None)],
        top_right_storage: [1, 9, 9, 9],
    };
    let mut game = Game::new();
    assert!(game.play(state).is_none());
    assert!(!game.last_search_abandoned());
    let mut game = Game::new();
    assert!(game.play(solved()).is_some());
    assert!(!game.last_search_abandoned());
}

#[test]
fn won_layouts() {
    assert!(solved().has_won_layout());
    assert!(!almost_solved().has_won_layout());
    let mut s = solved();
    s.top_left_storage.pop();
    assert!(!s.has_won_layout());
}

#[test]
fn one_move_away_takes_the_foundation_move() {
    let result = Game::new().play(almost_solved()).unwrap();
    assert_eq!(result[1].1, GameMove::ColumnToTopRightStorage { column: 0 });
    check_solution(&almost_solved(), &result);
}
