use shenzhen_solver::{Card, GameState, MoveColumnParameters, Suit};
use std::collections::hash_map::DefaultHasher;
use std::hash::{Hash, Hasher};
use Suit::{Black, FaceDown, Green, Red, Special};

fn calculate_hash<T: Hash>(t: &T) -> u64 {
    let mut s = DefaultHasher::new();
    t.hash(&mut s);
    s.finish()
}

fn card(suit: Suit, value: Option<u8>) -> Card {
    Card { suit, value }
}

fn sample() -> GameState {
    GameState {
        columns: [
            vec![card(Red, None), card(Red, Some(9))],
            vec![card(Red, None), card(Green, Some(4))],
            vec![],
            vec![card(Green, Some(2)), card(Black, Some(1))],
            vec![card(Special, Some(1))],
            vec![],
            vec![card(Black, Some(9)), card(Red, Some(8)), card(Black, Some(7))],
            vec![card(Green, None)],
        ],
        top_left_storage: vec![card(Black, None), card(FaceDown, None), card(Red, Some(5))],
        top_right_storage: [0, 2, 1, 0],
    }
}

#[test]
fn permuted_boards_are_equal_and_hash_alike() {
    let s = sample();
    let mut t = s.clone();
    t.columns.reverse();
    t.columns.swap(0, 5);
    t.top_left_storage.rotate_left(1);
    assert_eq!(s, t);
    assert_eq!(calculate_hash(&s), calculate_hash(&t));
    assert_eq!(s.canonical(), t.canonical());

    // columns with the same bottom card, in either order
    let mut u = s.clone();
    u.columns.swap(0, 1);
    assert_eq!(s, u);
    assert_eq!(calculate_hash(&s), calculate_hash(&u));

    let mut v = s.clone();
    v.top_right_storage[0] = 1;
    assert_ne!(s, v);
    let mut w = s.clone();
    w.columns[0].swap(0, 1);
    assert_ne!(s, w);
}

#[test]
fn canonical_form_orders_columns_and_cells() {
    let c = sample().canonical();
    assert!(c.columns[0].is_empty());
    assert!(c.columns[1].is_empty());
    assert_eq!(c.columns[2], vec![card(Special, Some(1))]);
    assert_eq!(c.columns[3], vec![card(Red, None), card(Red, Some(9))]);
    assert_eq!(c.columns[4], vec![card(Red, None), card(Green, Some(4))]);
    assert_eq!(c.columns[5], vec![card(Green, None)]);
    assert_eq!(c.free_cells, vec![card(Red, Some(5)), card(Black, None), card(FaceDown, None)]);
    assert_eq!(c.foundation, [0, 2, 1, 0]);
}

#[test]
fn solved_iff_columns_empty() {
    let mut s = GameState {
        columns: [vec![], vec![], vec![], vec![], vec![], vec![], vec![], vec![]],
        top_left_storage: vec![card(FaceDown, None); 3],
        top_right_storage: [1, 9, 9, 9],
    };
    assert!(s.is_solved());
    assert_eq!(s.top_right_storage, [1, 9, 9, 9]);
    assert!(s.top_left_storage.iter().all(|c| c.suit == FaceDown));
    s.columns[7].push(card(Red, Some(9)));
    assert!(!s.is_solved());
}

#[test]
fn dragons_need_all_four_and_room() {
    // three reachable, the fourth buried
    let state = GameState {
        columns: [
            vec![card(Red, None)],
            vec![card(Red, None), card(Green, Some(3))],
            vec![card(Red, None)],
            vec![],
            vec![],
            vec![],
            vec![],
            vec![],
        ],
        top_left_storage: vec![card(Red, None)],
        top_right_storage: [0, 0, 0, 0],
    };
    assert!(!state.can_collect_dragons(Red));

    // all four reachable, but the free cells are full of other cards
    let full = GameState {
        columns: [
            vec![card(Green, None)],
            vec![card(Green, None)],
            vec![card(Green, None)],
            vec![card(Green, None)],
            vec![],
            vec![],
            vec![],
            vec![],
        ],
        top_left_storage: vec![card(Red, Some(1)), card(FaceDown, None), card(Black, None)],
        top_right_storage: [0, 0, 0, 0],
    };
    assert!(!full.can_collect_dragons(Green));

    let mut room = full.clone();
    room.top_left_storage.pop();
    assert!(room.can_collect_dragons(Green));
    room.collect_dragons(Green);
    assert_eq!(
        room.top_left_storage,
        vec![card(Red, Some(1)), card(FaceDown, None), card(FaceDown, None)]
    );
    assert!(room.columns.iter().all(|c| c.is_empty()));
}

#[test]
fn collecting_from_cells_and_columns() {
    let mut state = GameState {
        columns: [
            vec![card(Black, Some(4)), card(Black, None)],
            vec![card(Black, None)],
            vec![],
            vec![],
            vec![],
            vec![],
            vec![],
            vec![card(Red, Some(2))],
        ],
        top_left_storage: vec![card(Black, None), card(Black, None)],
        top_right_storage: [0, 0, 0, 0],
    };
    assert!(state.can_collect_dragons(Black));
    state.collect_dragons(Black);
    assert_eq!(state.top_left_storage, vec![card(FaceDown, None)]);
    assert_eq!(state.columns[0], vec![card(Black, Some(4))]);
    assert!(state.columns[1].is_empty());
    assert_eq!(state.columns[7], vec![card(Red, Some(2))]);
}

#[test]
fn run_lengths() {
    let s = sample();
    assert_eq!(s.get_column_stack_size(0), 1);
    assert_eq!(s.get_column_stack_size(2), 0);
    assert_eq!(s.get_column_stack_size(3), 2);
    assert_eq!(s.get_column_stack_size(6), 3);
}

#[test]
fn moving_a_run_keeps_its_order() {
    let mut s = sample();
    s.columns[5] = vec![card(Green, Some(9)), card(Red, Some(8)), card(Black, Some(7)), card(Red, Some(6))];
    s.columns[2] = vec![card(Red, Some(9)), card(Green, Some(8))];
    // the run at the top of column 5 has four cards
    assert_eq!(s.get_column_stack_size(5), 4);
    let p = MoveColumnParameters { from_column_index: 5, to_column_index: 2, stack_size: 2 };
    assert!(s.can_move_column_to_other_column(p));
    s.move_column_to_other_column(p);
    assert_eq!(s.columns[5], vec![card(Green, Some(9)), card(Red, Some(8))]);
    assert_eq!(
        s.columns[2],
        vec![card(Red, Some(9)), card(Green, Some(8)), card(Black, Some(7)), card(Red, Some(6))]
    );

    let mut t = sample();
    let p = MoveColumnParameters { from_column_index: 6, to_column_index: 5, stack_size: 3 };
    assert!(t.can_move_column_to_other_column(p));
    t.move_column_to_other_column(p);
    assert!(t.columns[6].is_empty());
    assert_eq!(t.columns[5], vec![card(Black, Some(9)), card(Red, Some(8)), card(Black, Some(7))]);

    // a run longer than the one at the top, onto itself, or of no card
    let u = sample();
    let too_long = MoveColumnParameters { from_column_index: 6, to_column_index: 5, stack_size: 4 };
    assert!(!u.can_move_column_to_other_column(too_long));
    let itself = MoveColumnParameters { from_column_index: 6, to_column_index: 6, stack_size: 1 };
    assert!(!u.can_move_column_to_other_column(itself));
    let none = MoveColumnParameters { from_column_index: 6, to_column_index: 5, stack_size: 0 };
    assert!(!u.can_move_column_to_other_column(none));
}

#[test]
fn foundation_moves() {
    let s = sample();
    // the special card and a one go up at once
    assert!(s.can_move_column_to_top_right_storage(4));
    assert!(s.can_move_column_to_top_right_storage(3));
    assert!(!s.can_move_column_to_top_right_storage(0));
    assert!(!s.can_move_column_to_top_right_storage(2));
    assert!(!s.can_move_column_to_top_right_storage(8));
    // a dragon or a placeholder never goes up
    assert!(!s.can_move_column_to_top_right_storage(7));
    assert!(!s.can_move_top_left_to_top_right_storage(0));
    assert!(!s.can_move_top_left_to_top_right_storage(1));
    assert!(!s.can_move_top_left_to_top_right_storage(2));
    assert!(!s.can_move_top_left_to_top_right_storage(3));

    let mut t = s.clone();
    t.move_column_to_top_right_storage(3);
    assert_eq!(t.top_right_storage, [0, 2, 1, 1]);
    assert_eq!(t.columns[3], vec![card(Green, Some(2))]);
    assert!(t.can_move_column_to_top_right_storage(3));

    let mut u = s.clone();
    u.top_right_storage[1] = 4;
    assert!(u.can_move_top_left_to_top_right_storage(2));
    u.move_top_left_to_top_right_storage(2);
    assert_eq!(u.top_right_storage, [0, 5, 1, 0]);
    assert_eq!(u.top_left_storage, vec![card(Black, None), card(FaceDown, None)]);
}

#[test]
fn free_cell_moves() {
    let s = sample();
    // the cells are full
    assert!(!s.can_move_column_to_top_left(0));
    assert!(!s.can_move_top_left_to_column(3, 2));
    let mut t = s.clone();
    t.move_top_left_to_column(0, 2);
    assert_eq!(t.columns[2], vec![card(Black, None)]);
    assert_eq!(t.top_left_storage, vec![card(FaceDown, None), card(Red, Some(5))]);
    assert!(t.can_move_column_to_top_left(6));
    t.move_column_to_top_left(6);
    assert_eq!(t.top_left_storage, vec![card(FaceDown, None), card(Red, Some(5)), card(Black, Some(7))]);
    assert_eq!(t.columns[6], vec![card(Black, Some(9)), card(Red, Some(8))]);
}

#[test]
fn duplicate_is_an_equal_copy() {
    let s = sample();
    let d = s.duplicate();
    assert_eq!(d.columns, s.columns);
    assert_eq!(d.top_left_storage, s.top_left_storage);
    assert_eq!(d.top_right_storage, s.top_right_storage);
}
