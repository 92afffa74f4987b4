use vstd::prelude::*;

verus! {

/// The suit of a card. `FaceDown` marks a free cell taken by a collected set
/// of dragons.
#[derive(Debug, Hash, PartialEq, Eq, PartialOrd, Ord, Copy, Clone, Structural)]
pub enum Suit {
    Special,
    Red,
    Green,
    Black,
    FaceDown,
}

/// Position of a suit in the declaration order, which is also the slot of
/// the suit in the foundation.
pub open spec fn suit_rank(s: Suit) -> int {
    match s {
        Suit::Special => 0,
        Suit::Red => 1,
        Suit::Green => 2,
        Suit::Black => 3,
        Suit::FaceDown => 4,
    }
}

impl Suit {
    /// The foundation slot of this suit (`FaceDown` has none and gives 4).
    pub fn index(self) -> (r: usize)
        ensures
            r as int == suit_rank(self),
    {
        match self {
            Suit::Special => 0,
            Suit::Red => 1,
            Suit::Green => 2,
            Suit::Black => 3,
            Suit::FaceDown => 4,
        }
    }
}

/// The suit whose foundation slot, or position in declaration order, is
/// `value`.
impl TryFrom<usize> for Suit {
    type Error = ();

    fn try_from(value: usize) -> (r: Result<Suit, ()>) {
        match value {
            0 => Ok(Suit::Special),
            1 => Ok(Suit::Red),
            2 => Ok(Suit::Green),
            3 => Ok(Suit::Black),
            4 => Ok(Suit::FaceDown),
            _ => Err(()),
        }
    }
}

impl vstd::std_specs::convert::TryFromSpecImpl<usize> for Suit {
    open spec fn obeys_try_from_spec() -> bool {
        true
    }

    open spec fn try_from_spec(value: usize) -> Result<Suit, ()> {
        if value == 0 {
            Ok(Suit::Special)
        } else if value == 1 {
            Ok(Suit::Red)
        } else if value == 2 {
            Ok(Suit::Green)
        } else if value == 3 {
            Ok(Suit::Black)
        } else if value == 4 {
            Ok(Suit::FaceDown)
        } else {
            Err(())
        }
    }
}

/// A card. Dragons and face-down placeholders carry no value.
#[derive(Debug, Hash, PartialEq, Eq, PartialOrd, Ord, Clone, Copy, Structural)]
pub struct Card {
    pub suit: Suit,
    pub value: Option<u8>,
}

impl Card {
    pub open spec fn spec_is_dragon(self) -> bool {
        self.value is None && self.suit != Suit::FaceDown
    }

    pub open spec fn spec_is_dragon_with_suit(self, suit: Suit) -> bool {
        self.spec_is_dragon() && self.suit == suit
    }

    /// The single stacking rule: a numbered card goes on a card of another
    /// suit whose value is one higher.
    pub open spec fn spec_can_be_moved_on_top_of(self, other: Card) -> bool {
        &&& self.suit != Suit::Special
        &&& other.suit != Suit::Special
        &&& self.value is Some
        &&& other.value is Some
        &&& self.suit != other.suit
        &&& self.value.unwrap() + 1 == other.value.unwrap()
    }

    /// True iff the card is a dragon: no value, and not a placeholder.
    pub fn is_dragon(&self) -> (r: bool)
        ensures
            r == self.spec_is_dragon(),
    {
        self.value.is_none() && self.suit != Suit::FaceDown
    }

    /// True iff the card is a dragon of the given suit.
    pub fn is_dragon_with_suit(&self, suit: Suit) -> (r: bool)
        ensures
            r == self.spec_is_dragon_with_suit(suit),
    {
        self.is_dragon() && self.suit == suit
    }

    /// True iff this card may be placed on top of `other` in a column.
    pub fn can_be_moved_on_top_of(&self, other: &Card) -> (r: bool)
        ensures
            r == self.spec_can_be_moved_on_top_of(*other),
    {
        if self.suit == Suit::Special || other.suit == Suit::Special {
            return false;
        }
        match (self.value, other.value) {
            (Some(a), Some(b)) => self.suit != other.suit && (a as u16) + 1 == (b as u16),
            _ => false,
        }
    }
}

} // verus!
