use shenzhen_solver::{Card, Suit};
use std::collections::hash_map::DefaultHasher;
use std::hash::{Hash, Hasher};

fn calculate_hash<T: Hash>(t: &T) -> u64 {
    let mut s = DefaultHasher::new();
    t.hash(&mut s);
    s.finish()
}

fn card(suit: Suit, value: Option<u8>) -> Card {
    Card { suit, value }
}

#[test]
fn card_test_hashable() {
    let a = card(Suit::Red, Some(1));
    let b = card(Suit::Red, Some(1));
    let c = card(Suit::Green, Some(1));
    let d = card(Suit::Red, Some(2));

    let a_hash = calculate_hash(&a);
    let b_hash = calculate_hash(&b);
    let c_hash = calculate_hash(&c);
    let d_hash = calculate_hash(&d);

    assert_eq!(a, b);
    assert_eq!(a_hash, b_hash);

    assert_ne!(a, c);
    assert_ne!(a_hash, c_hash);

    assert_ne!(a, d);
    assert_ne!(a_hash, d_hash);
}

#[test]
fn test_sorting() {
    let test_data = [
        (
            [card(Suit::Red, Some(5)), card(Suit::Red, Some(4))],
            [card(Suit::Red, Some(4)), card(Suit::Red, Some(5))],
        ),
        (
            [card(Suit::Red, Some(5)), card(Suit::Red, None)],
            [card(Suit::Red, None), card(Suit::Red, Some(5))],
        ),
        (
            [card(Suit::Black, Some(5)), card(Suit::Red, Some(5))],
            [card(Suit::Red, Some(5)), card(Suit::Black, Some(5))],
        ),
        (
            [card(Suit::Black, None), card(Suit::Red, None)],
            [card(Suit::Red, None), card(Suit::Black, None)],
        ),
    ];

    for mut test_case in test_data {
        test_case.0.sort();
        assert_eq!(test_case.0, test_case.1);
    }
}

#[test]
fn dragons_and_placeholders() {
    assert!(card(Suit::Red, None).is_dragon());
    assert!(!card(Suit::FaceDown, None).is_dragon());
    assert!(!card(Suit::Red, Some(3)).is_dragon());
    assert!(card(Suit::Green, None).is_dragon_with_suit(Suit::Green));
    assert!(!card(Suit::Green, None).is_dragon_with_suit(Suit::Red));
    assert!(!card(Suit::FaceDown, None).is_dragon_with_suit(Suit::FaceDown));
}

#[test]
fn stacking_rule() {
    let r8 = card(Suit::Red, Some(8));
    assert!(r8.can_be_moved_on_top_of(&card(Suit::Green, Some(9))));
    assert!(!r8.can_be_moved_on_top_of(&card(Suit::Red, Some(9))));
    assert!(!r8.can_be_moved_on_top_of(&card(Suit::Green, Some(7))));
    assert!(!r8.can_be_moved_on_top_of(&card(Suit::Green, None)));
    assert!(!card(Suit::Green, None).can_be_moved_on_top_of(&r8));
    assert!(!card(Suit::Special, Some(1)).can_be_moved_on_top_of(&card(Suit::Red, Some(2))));
    assert!(!card(Suit::Red, Some(1)).can_be_moved_on_top_of(&card(Suit::Special, Some(2))));
    assert!(!card(Suit::FaceDown, None).can_be_moved_on_top_of(&r8));
    assert!(!card(Suit::Red, Some(255)).can_be_moved_on_top_of(&card(Suit::Green, Some(0))));
}

#[test]
fn suit_foundation_slots() {
    assert_eq!(Suit::Special.index(), 0);
    assert_eq!(Suit::Red.index(), 1);
    assert_eq!(Suit::Green.index(), 2);
    assert_eq!(Suit::Black.index(), 3);
    assert_eq!(Suit::FaceDown.index(), 4);
}

#[test]
fn suits_from_slots() {
    assert_eq!(Suit::try_from(0usize), Ok(Suit::Special));
    assert_eq!(Suit::try_from(1usize), Ok(Suit::Red));
    assert_eq!(Suit::try_from(2usize), Ok(Suit::Green));
    assert_eq!(Suit::try_from(3usize), Ok(Suit::Black));
    assert_eq!(Suit::try_from(4usize), Ok(Suit::FaceDown));
    assert_eq!(Suit::try_from(5usize), Err(()));
}
