use shenzhen_solver::{Card, GameState, MoveColumnParameters, Suit};
use std::collections::hash_map::DefaultHasher;
use std::hash::{Hash, Hasher};
use Suit::{Black, FaceDown, Green, Red, Special};

fn calculate_hash<T: Hash>(t: &T) -> u64 {
    let mut s = DefaultHasher::new();
    t.hash(&mut s);
    s.finish()
}

fn card(suit: Suit, value: Option<u8>) -> Card {
    Card { suit, value }
}

fn empty_columns() -> [Vec<Card>; 8] {
    [vec![], vec![], vec![], vec![], vec![], vec![], vec![], vec![]]
}

#[test]
fn test_move_to_top_right() {
    let mut result = vec![GameState {
        columns: [
            vec![
                card(Red, Some(9)),
                card(Green, Some(9)),
                card(Black, Some(9)),
                card(Special, Some(1)),
            ],
            vec![],
            vec![],
            vec![],
            vec![],
            vec![],
            vec![],
            vec![],
        ],
        top_left_storage: vec![card(FaceDown, None), card(FaceDown, None), card(FaceDown, None)],
        top_right_storage: [0, 8, 8, 8],
    }];

    for _ in 0..4 {
        let mut state = result.last().unwrap().clone();
        assert_eq!(state.is_solved(), false);
        assert_eq!(state.can_move_column_to_top_right_storage(0), true);
        state.move_column_to_top_right_storage(0);
        result.push(state);
    }

    assert_eq!(result.last().unwrap().is_solved(), true);
}

#[test]
fn test_move_storage_to_top_right() {
    let mut result = vec![GameState {
        columns: [
            vec![card(Red, Some(8))],
            vec![card(Red, None)],
            vec![card(Red, None)],
            vec![card(Red, None)],
            vec![card(Red, None)],
            vec![],
            vec![],
            vec![],
        ],
        top_left_storage: vec![card(Red, Some(9)), card(FaceDown, None), card(FaceDown, None)],
        top_right_storage: [1, 7, 9, 9],
    }];

    for i in 0..2 {
        let mut state = result.last().unwrap().clone();
        assert_eq!(state.is_solved(), false);

        if i == 0 {
            assert_eq!(state.can_move_column_to_top_right_storage(0), true);
            state.move_column_to_top_right_storage(0);
        } else {
            assert_eq!(state.can_move_top_left_to_top_right_storage(0), true);
            state.move_top_left_to_top_right_storage(0);
        }

        result.push(state);
    }

    for s in result {
        println!("{:?}", s)
    }
}

#[test]
fn game_state_test_hashable() {
    let mut a = empty_columns();

    let mut b = empty_columns();
    b[1].push(card(Red, Some(1)));

    let c = b.clone();

    let d = a.clone();
    a[0].push(card(Red, Some(1)));

    let state_a = GameState { columns: a, top_right_storage: [0; 4], top_left_storage: vec![] };
    let state_b = GameState { columns: b, top_right_storage: [0; 4], top_left_storage: vec![] };
    let state_c = GameState { columns: c, top_right_storage: [0; 4], top_left_storage: vec![] };
    let state_d = GameState { columns: d, top_right_storage: [0; 4], top_left_storage: vec![] };

    let hash_a = calculate_hash(&state_a);
    let hash_b = calculate_hash(&state_b);
    let hash_c = calculate_hash(&state_c);
    let hash_d = calculate_hash(&state_d);

    // Permutations of columns should not effect equality and hash
    assert_eq!(state_a, state_b.clone());
    assert_eq!(hash_a, hash_b);

    assert_eq!(state_b, state_c);
    assert_eq!(hash_b, hash_c);

    assert_ne!(state_a, state_d);
    assert_ne!(hash_a, hash_d);
}

#[test]
fn test_hash_ignores_top_left_permutation() {
    let a = GameState {
        columns: empty_columns(),
        top_left_storage: vec![card(Red, None), card(Black, None), card(Green, Some(3))],
        top_right_storage: [0; 4],
    };

    let b = GameState {
        columns: empty_columns(),
        top_left_storage: vec![card(Green, Some(3)), card(Red, None), card(Black, None)],
        top_right_storage: [0; 4],
    };

    assert_eq!(&a, &b);
    assert_eq!(calculate_hash(&a), calculate_hash(&b));
}

#[test]
fn test_can_move_top_left_to_column() {
    let mut state = GameState {
        columns: [
            vec![card(Red, None), card(Red, None), card(Red, None)],
            vec![card(Red, Some(9))],
            vec![card(Green, Some(9))],
            vec![],
            vec![],
            vec![],
            vec![],
            vec![],
        ],
        top_left_storage: vec![card(FaceDown, None), card(Green, None), card(Red, Some(8))],
        top_right_storage: [9, 8, 9, 9],
    };

    // face down can't move even to a free column
    assert_eq!(state.can_move_top_left_to_column(0, 7), false);

    // dragon can move only to a free column
    assert_eq!(state.can_move_top_left_to_column(1, 0), false);
    assert_eq!(state.can_move_top_left_to_column(1, 1), false);
    assert_eq!(state.can_move_top_left_to_column(1, 2), false);
    assert_eq!(state.can_move_top_left_to_column(1, 7), true);

    // regular card can move onto another card of a different suit and
    // one lower value
    assert_eq!(state.can_move_top_left_to_column(2, 0), false);
    assert_eq!(state.can_move_top_left_to_column(2, 1), false);
    assert_eq!(state.can_move_top_left_to_column(2, 2), true);
    assert_eq!(state.can_move_top_left_to_column(2, 7), true);

    state.move_top_left_to_column(2, 2);
    assert_eq!(state.top_left_storage.len(), 2);
    assert_eq!(state.columns[2].len(), 2);
    assert_eq!(state.columns[2].last().unwrap(), &card(Red, Some(8)));
}

#[test]
fn test_can_move_column_to_top_left() {
    let mut state = GameState {
        columns: [
            vec![card(Red, Some(9))],
            vec![card(Red, Some(8))],
            vec![card(Red, Some(7))],
            vec![card(Red, None), card(Red, None), card(Red, None)],
            vec![],
            vec![],
            vec![],
            vec![],
        ],
        top_left_storage: vec![card(FaceDown, None), card(FaceDown, None)],
        top_right_storage: [9, 6, 9, 9],
    };

    // given a single empty slot in the top left
    assert_eq!(state.top_left_storage.len(), 2);

    // Can't move if there is not any cards in the column
    assert_eq!(state.can_move_column_to_top_left(7), false);

    // Can move if there is any card in the column
    assert_eq!(state.can_move_column_to_top_left(0), true);
    assert_eq!(state.can_move_column_to_top_left(1), true);
    assert_eq!(state.can_move_column_to_top_left(2), true);
    assert_eq!(state.can_move_column_to_top_left(3), true);

    // Moving a card causes it to disappear from the column
    let moved_card = *state.columns[0].last().unwrap();
    state.move_column_to_top_left(0);
    assert_eq!(state.columns[0].len(), 0);
    // The top left storage should be filled up
    assert_eq!(state.top_left_storage.len(), 3);
    // The moved card should appear in the top left
    assert!(state.top_left_storage.contains(&moved_card));

    // Now that the top left is filled up, no cards can be moved there
    assert_eq!(state.can_move_column_to_top_left(1), false)
}

#[test]
fn test_collect_dragons() {
    let mut state = GameState {
        columns: [
            vec![card(Green, None)],
            vec![card(Green, None)],
            vec![card(Green, None)],
            vec![card(Green, None)],
            vec![card(Red, None), card(Red, None), card(Red, None)],
            vec![card(Black, None)],
            vec![card(Black, None), card(Red, Some(9))],
            vec![card(Black, None)],
        ],
        top_left_storage: vec![card(Red, None)],
        top_right_storage: [1, 8, 9, 9],
    };

    assert_eq!(state.can_collect_dragons(Green), true);
    assert_eq!(state.can_collect_dragons(Red), false);
    assert_eq!(state.can_collect_dragons(Black), false);

    state.collect_dragons(Green);
    assert_eq!(state.columns[0].is_empty(), true);
    assert_eq!(state.columns[1].is_empty(), true);
    assert_eq!(state.columns[2].is_empty(), true);
    assert_eq!(state.columns[3].is_empty(), true);
    assert_eq!(state.top_left_storage.contains(&card(FaceDown, None)), true);
    assert_eq!(state.top_left_storage.contains(&card(Red, None)), true);
    assert_eq!(state.top_left_storage.len(), 2);

    state.collect_dragons(Red);
    assert_eq!(state.columns[4].is_empty(), true);
    assert_eq!(state.top_left_storage.len(), 2);
}

#[test]
fn test_can_not_collect_dragons_when_storage_full() {
    let mut state = GameState {
        columns: [
            vec![card(Red, None)],
            vec![card(Red, None)],
            vec![card(Red, None)],
            vec![card(Red, None)],
            vec![],
            vec![card(Black, None)],
            vec![card(Black, None)],
            vec![card(Black, None)],
        ],
        top_left_storage: vec![card(FaceDown, None), card(Red, Some(9)), card(Black, None)],
        top_right_storage: [1, 8, 9, 9],
    };

    // We can't collect dragons if the top left storage is full
    assert_eq!(state.can_collect_dragons(Red), false);
    // Except if the blocking card is a dragon that we wanted to collect
    assert_eq!(state.can_collect_dragons(Black), true);

    state.collect_dragons(Black);
    assert_eq!(state.top_left_storage.len(), 3);

    for column in &state.columns {
        assert_eq!(column.contains(&card(Black, None)), false);
    }
}

#[test]
fn test_move_column_to_other_column() {
    let state = GameState {
        columns: [
            vec![card(Red, Some(9))],
            vec![card(Green, Some(8)), card(Black, Some(7))],
            vec![card(Red, Some(8))],
            vec![card(Black, Some(9)), card(Green, Some(9)), card(Black, Some(8))],
            vec![],
            vec![],
            vec![],
            vec![],
        ],
        top_left_storage: vec![card(FaceDown, None), card(FaceDown, None), card(FaceDown, None)],
        top_right_storage: [1, 7, 7, 6],
    };

    // Can't move if the source column is empty
    assert_eq!(
        state.can_move_column_to_other_column(MoveColumnParameters {
            from_column_index: 4,
            to_column_index: 7,
            stack_size: 1,
        }),
        false
    );

    // Can't move if the source column stack size is less than the
    // requested stack size
    assert_eq!(
        state.can_move_column_to_other_column(MoveColumnParameters {
            from_column_index: 0,
            to_column_index: 7,
            stack_size: 2,
        }),
        false
    );

    // Can move to an empty column
    assert_eq!(
        state.can_move_column_to_other_column(MoveColumnParameters {
            from_column_index: 0,
            to_column_index: 7,
            stack_size: 1,
        }),
        true
    );
    let mut state_copy = state.clone();
    let card_to_move = *state_copy.columns[0].last().unwrap();
    state_copy.move_column_to_other_column(MoveColumnParameters {
        from_column_index: 0,
        to_column_index: 7,
        stack_size: 1,
    });
    assert_eq!(state_copy.columns[0].is_empty(), true);
    assert_eq!(state_copy.columns[0].contains(&card_to_move), false);
    assert_eq!(state_copy.columns[7].len(), 1);
    assert_eq!(state_copy.columns[7].contains(&card_to_move), true);

    // Can move stack to empty column
    assert_eq!(
        state.can_move_column_to_other_column(MoveColumnParameters {
            from_column_index: 3,
            to_column_index: 7,
            stack_size: 2,
        }),
        true
    );

    // Can move stack on top of another card
    assert_eq!(
        state.can_move_column_to_other_column(MoveColumnParameters {
            from_column_index: 1,
            to_column_index: 0,
            stack_size: 2,
        }),
        true
    );
    let mut state_copy = state;
    let cards_to_move = &state_copy.columns[1][state_copy.columns[1].len() - 2..].to_vec();
    state_copy.move_column_to_other_column(MoveColumnParameters {
        from_column_index: 1,
        to_column_index: 0,
        stack_size: 2,
    });
    assert_eq!(state_copy.columns[1].is_empty(), true);
    for card_to_move in cards_to_move {
        assert_eq!(state_copy.columns[1].contains(card_to_move), false);
    }
    assert_eq!(state_copy.columns[0].len(), 3);
    for card_to_move in cards_to_move {
        assert_eq!(state_copy.columns[0].contains(card_to_move), true);
    }
}
