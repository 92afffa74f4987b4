//! The board: free cells, foundation and columns, with the move rules.
use vstd::prelude::*;
use vstd::relations::sorted_by;
use crate::card::{Card, Suit, suit_rank};
use crate::canonical::{
    card_order, column_order, lemma_card_order_total, lemma_column_order_total, sorted_cards,
    sorted_columns,
};

verus! {

/// The mathematical value of a board.
pub struct BoardView {
    pub free_cells: Seq<Card>,
    pub foundation: Seq<u8>,
    pub columns: Seq<Seq<Card>>,
}

/// The number of dragons of `suit` in `s`.
pub open spec fn count_dragons(s: Seq<Card>, suit: Suit) -> nat
    decreases s.len(),
{
    if s.len() == 0 {
        0
    } else {
        count_dragons(s.drop_last(), suit) + if s.last().spec_is_dragon_with_suit(suit) {
            1nat
        } else {
            0nat
        }
    }
}

/// `s` without its dragons of `suit`, the other cards in their order.
pub open spec fn remove_dragons(s: Seq<Card>, suit: Suit) -> Seq<Card>
    decreases s.len(),
{
    if s.len() == 0 {
        s
    } else if s.last().spec_is_dragon_with_suit(suit) {
        remove_dragons(s.drop_last(), suit)
    } else {
        remove_dragons(s.drop_last(), suit).push(s.last())
    }
}

/// The number of columns whose top card is a dragon of `suit`.
pub open spec fn count_top_dragons(cols: Seq<Seq<Card>>, suit: Suit) -> nat
    decreases cols.len(),
{
    if cols.len() == 0 {
        0
    } else {
        count_top_dragons(cols.drop_last(), suit) + if cols.last().len() > 0
            && cols.last().last().spec_is_dragon_with_suit(suit) {
            1nat
        } else {
            0nat
        }
    }
}

/// The length of the run at the top of a column: the longest suffix in which
/// each card can be moved on top of the one below it.
pub open spec fn run_length(s: Seq<Card>) -> nat
    decreases s.len(),
{
    if s.len() == 0 {
        0
    } else if s.len() == 1 {
        1
    } else if s.last().spec_can_be_moved_on_top_of(s[s.len() - 2]) {
        1 + run_length(s.drop_last())
    } else {
        1
    }
}

/// A placeholder left in a free cell by a collected set of dragons.
pub open spec fn face_down() -> Card {
    Card { suit: Suit::FaceDown, value: None }
}

impl BoardView {
    pub open spec fn is_solved(self) -> bool {
        forall|i: int| 0 <= i < self.columns.len() ==> (#[trigger] self.columns[i]).len() == 0
    }

    /// The foundation is full and the free cells hold the three placeholders
    /// of the collected dragons.
    pub open spec fn is_won(self) -> bool {
        &&& self.foundation == seq![1u8, 9u8, 9u8, 9u8]
        &&& self.free_cells == seq![face_down(), face_down(), face_down()]
    }

    /// A card with a value goes to the foundation when it is a one or the
    /// next card of its suit.
    pub open spec fn column_card_fits_foundation(self, c: Card) -> bool {
        &&& c.value is Some
        &&& c.suit != Suit::FaceDown
        &&& (c.value.unwrap() == 1 || self.foundation[suit_rank(c.suit)] as int == c.value.unwrap()
            - 1)
    }

    pub open spec fn can_column_to_foundation(self, i: int) -> bool {
        &&& 0 <= i < 8
        &&& self.columns[i].len() > 0
        &&& self.column_card_fits_foundation(self.columns[i].last())
    }

    pub open spec fn after_column_to_foundation(self, i: int) -> BoardView {
        let c = self.columns[i].last();
        BoardView {
            free_cells: self.free_cells,
            foundation: self.foundation.update(suit_rank(c.suit), c.value.unwrap()),
            columns: self.columns.update(i, self.columns[i].drop_last()),
        }
    }

    pub open spec fn can_free_cell_to_foundation(self, k: int) -> bool {
        &&& 0 <= k < self.free_cells.len()
        &&& self.free_cells[k].value is Some
        &&& self.free_cells[k].suit != Suit::FaceDown
        &&& self.foundation[suit_rank(self.free_cells[k].suit)] as int
            == self.free_cells[k].value.unwrap() - 1
    }

    pub open spec fn after_free_cell_to_foundation(self, k: int) -> BoardView {
        let c = self.free_cells[k];
        BoardView {
            free_cells: self.free_cells.remove(k),
            foundation: self.foundation.update(suit_rank(c.suit), c.value.unwrap()),
            columns: self.columns,
        }
    }

    pub open spec fn can_free_cell_to_column(self, k: int, i: int) -> bool {
        &&& 0 <= k < self.free_cells.len()
        &&& 0 <= i < 8
        &&& self.free_cells[k].suit != Suit::FaceDown
        &&& (self.columns[i].len() == 0 || (!self.columns[i].last().spec_is_dragon()
            && self.free_cells[k].spec_can_be_moved_on_top_of(self.columns[i].last())))
    }

    pub open spec fn after_free_cell_to_column(self, k: int, i: int) -> BoardView {
        BoardView {
            free_cells: self.free_cells.remove(k),
            foundation: self.foundation,
            columns: self.columns.update(i, self.columns[i].push(self.free_cells[k])),
        }
    }

    pub open spec fn can_column_to_free_cell(self, i: int) -> bool {
        &&& 0 <= i < 8
        &&& self.columns[i].len() > 0
        &&& self.free_cells.len() < 3
    }

    pub open spec fn after_column_to_free_cell(self, i: int) -> BoardView {
        BoardView {
            free_cells: self.free_cells.push(self.columns[i].last()),
            foundation: self.foundation,
            columns: self.columns.update(i, self.columns[i].drop_last()),
        }
    }

    /// The dragons of `suit` that can be reached: on top of a column or in a
    /// free cell.
    pub open spec fn reachable_dragons(self, suit: Suit) -> nat {
        count_top_dragons(self.columns, suit) + count_dragons(self.free_cells, suit)
    }

    pub open spec fn can_collect_dragons(self, suit: Suit) -> bool {
        &&& self.free_cells.len() - count_dragons(self.free_cells, suit) < 3
        &&& self.reachable_dragons(suit) == 4
    }

    pub open spec fn after_collect_dragons(self, suit: Suit) -> BoardView {
        BoardView {
            free_cells: remove_dragons(self.free_cells, suit).push(face_down()),
            foundation: self.foundation,
            columns: Seq::new(8, |i: int| remove_dragons(self.columns[i], suit)),
        }
    }

    pub open spec fn can_move_run(self, from: int, to: int, size: int) -> bool {
        &&& 0 <= from < 8
        &&& 0 <= to < 8
        &&& from != to
        &&& 1 <= size <= run_length(self.columns[from])
        &&& (self.columns[to].len() == 0 || self.columns[from][self.columns[from].len()
            - size].spec_can_be_moved_on_top_of(self.columns[to].last()))
    }

    pub open spec fn after_move_run(self, from: int, to: int, size: int) -> BoardView {
        let n = self.columns[from].len() as int;
        BoardView {
            free_cells: self.free_cells,
            foundation: self.foundation,
            columns: self.columns.update(from, self.columns[from].subrange(0, n - size)).update(
                to,
                self.columns[to] + self.columns[from].subrange(n - size, n),
            ),
        }
    }

    /// Equal up to the order of the columns and of the free cells.
    pub open spec fn same_up_to_order(self, other: BoardView) -> bool {
        &&& self.free_cells.to_multiset() == other.free_cells.to_multiset()
        &&& self.foundation == other.foundation
        &&& self.columns.to_multiset() == other.columns.to_multiset()
    }
}

/// The parameters of a run move between two columns.
#[derive(Debug, Clone, Copy, PartialEq, Eq, Structural)]
pub struct MoveColumnParameters {
    pub from_column_index: usize,
    pub to_column_index: usize,
    pub stack_size: usize,
}

/// A board: up to three free cells (top left), the foundation with one
/// counter per suit (top right), and eight columns listed bottom to top.
#[derive(Debug, Clone)]
pub struct GameState {
    pub top_left_storage: Vec<Card>,
    pub top_right_storage: [u8; 4],
    pub columns: [Vec<Card>; 8],
}

impl View for GameState {
    type V = BoardView;

    open spec fn view(&self) -> BoardView {
        BoardView {
            free_cells: self.top_left_storage@,
            foundation: self.top_right_storage@,
            columns: self.columns@.map_values(|c: Vec<Card>| c@),
        }
    }
}

impl GameState {
    /// True iff every column is empty. A board with empty columns is won, so
    /// asking it of one that is not is an error.
    pub fn is_solved(&self) -> (r: bool)
        requires
            self@.is_solved() ==> self@.is_won(),
        ensures
            r == self@.is_solved(),
    {
        self.columns_empty()
    }

    /// True iff the foundation reads 1, 9, 9, 9 and the free cells hold
    /// three placeholders.
    pub fn has_won_layout(&self) -> (r: bool)
        ensures
            r == self@.is_won(),
    {
        let fd = Card { suit: Suit::FaceDown, value: None };
        let r = self.top_right_storage[0] == 1 && self.top_right_storage[1] == 9
            && self.top_right_storage[2] == 9 && self.top_right_storage[3] == 9
            && self.top_left_storage.len() == 3 && self.top_left_storage[0] == fd
            && self.top_left_storage[1] == fd && self.top_left_storage[2] == fd;
        proof {
            if r {
                assert(self@.foundation =~= seq![1u8, 9u8, 9u8, 9u8]);
                assert(self@.free_cells =~= seq![face_down(), face_down(), face_down()]);
            }
            if self@.is_won() {
                assert(self@.foundation[0] == seq![1u8, 9u8, 9u8, 9u8][0]);
                assert(self@.foundation[1] == seq![1u8, 9u8, 9u8, 9u8][1]);
                assert(self@.foundation[2] == seq![1u8, 9u8, 9u8, 9u8][2]);
                assert(self@.foundation[3] == seq![1u8, 9u8, 9u8, 9u8][3]);
            }
        }
        r
    }

    /// True iff every column is empty, whatever the rest of the board holds.
    pub(crate) fn columns_empty(&self) -> (r: bool)
        ensures
            r == self@.is_solved(),
    {
        let mut i: usize = 0;
        while i < 8
            invariant
                i <= 8,
                forall|j: int| 0 <= j < i ==> (#[trigger] self@.columns[j]).len() == 0,
            decreases 8 - i,
        {
            if !self.columns[i].is_empty() {
                assert(self@.columns[i as int] == self.columns@[i as int]@);
                return false;
            }
            i = i + 1;
        }
        assert(self@.columns.len() == 8);
        true
    }

    /// True iff the top card of the column can go to the foundation: it is a
    /// one, or the next card of its suit.
    pub fn can_move_column_to_top_right_storage(&self, column_index: usize) -> (r: bool)
        ensures
            r == self@.can_column_to_foundation(column_index as int),
    {
        if column_index >= 8 || self.columns[column_index].is_empty() {
            return false;
        }
        let column = &self.columns[column_index];
        let card = column[column.len() - 1];
        match card.value {
            None => false,
            Some(value) => {
                if card.suit == Suit::FaceDown {
                    false
                } else {
                    let collected = self.top_right_storage[card.suit.index()];
                    value == 1 || collected as u16 + 1 == value as u16
                }
            },
        }
    }

    /// Sends the top card of the column to the foundation.
    pub fn move_column_to_top_right_storage(&mut self, column_index: usize)
        requires
            old(self)@.can_column_to_foundation(column_index as int),
        ensures
            final(self)@ == old(self)@.after_column_to_foundation(column_index as int),
    {
        let ghost old_view = self@;
        let card = self.columns[column_index].pop().unwrap();
        match card.value {
            Some(value) => {
                self.top_right_storage[card.suit.index()] = value;
            },
            None => {},
        }
        assert(self@.columns =~= old_view.after_column_to_foundation(column_index as int).columns);
        assert(self@.foundation =~= old_view.after_column_to_foundation(
            column_index as int,
        ).foundation);
    }

    /// True iff the free cell holds the next card of its suit for the
    /// foundation.
    pub fn can_move_top_left_to_top_right_storage(&self, top_left_index: usize) -> (r: bool)
        ensures
            r == self@.can_free_cell_to_foundation(top_left_index as int),
    {
        if self.top_left_storage.len() <= top_left_index {
            return false;
        }
        let card = self.top_left_storage[top_left_index];
        match card.value {
            None => false,
            Some(value) => {
                if card.suit == Suit::FaceDown {
                    false
                } else {
                    self.top_right_storage[card.suit.index()] as u16 + 1 == value as u16
                }
            },
        }
    }

    /// Sends the card of the free cell to the foundation.
    pub fn move_top_left_to_top_right_storage(&mut self, top_left_index: usize)
        requires
            old(self)@.can_free_cell_to_foundation(top_left_index as int),
        ensures
            final(self)@ == old(self)@.after_free_cell_to_foundation(top_left_index as int),
    {
        let ghost old_view = self@;
        let card = self.top_left_storage.remove(top_left_index);
        match card.value {
            Some(value) => {
                self.top_right_storage[card.suit.index()] = value;
            },
            None => {},
        }
        assert(self@.columns =~= old_view.columns);
        assert(self@.foundation =~= old_view.after_free_cell_to_foundation(
            top_left_index as int,
        ).foundation);
    }

    /// True iff the card of the free cell can be put on the column: any card
    /// but a placeholder on an empty column, else by the stacking rule on a
    /// top card that is not a dragon.
    pub fn can_move_top_left_to_column(&self, top_left_index: usize, column_index: usize) -> (r:
        bool)
        ensures
            r == self@.can_free_cell_to_column(top_left_index as int, column_index as int),
    {
        if top_left_index >= self.top_left_storage.len() || column_index >= 8 {
            return false;
        }
        let card_to_move = &self.top_left_storage[top_left_index];
        if card_to_move.suit == Suit::FaceDown {
            return false;
        }
        if self.columns[column_index].is_empty() {
            return true;
        }
        let column = &self.columns[column_index];
        let target_card = &column[column.len() - 1];
        if target_card.is_dragon() {
            return false;
        }
        card_to_move.can_be_moved_on_top_of(target_card)
    }

    /// Moves the card of the free cell onto the column.
    pub fn move_top_left_to_column(&mut self, top_left_index: usize, column_index: usize)
        requires
            old(self)@.can_free_cell_to_column(top_left_index as int, column_index as int),
        ensures
            final(self)@ == old(self)@.after_free_cell_to_column(
                top_left_index as int,
                column_index as int,
            ),
    {
        let ghost old_view = self@;
        let card = self.top_left_storage.remove(top_left_index);
        self.columns[column_index].push(card);
        assert(self@.columns =~= old_view.after_free_cell_to_column(
            top_left_index as int,
            column_index as int,
        ).columns);
        assert(self@.foundation =~= old_view.foundation);
    }

    /// True iff the column has a card and a free cell is empty.
    pub fn can_move_column_to_top_left(&self, column_index: usize) -> (r: bool)
        ensures
            r == self@.can_column_to_free_cell(column_index as int),
    {
        column_index < 8 && !self.columns[column_index].is_empty() && self.top_left_storage.len()
            < 3
    }

    /// Moves the top card of the column to a free cell.
    pub fn move_column_to_top_left(&mut self, column_index: usize)
        requires
            old(self)@.can_column_to_free_cell(column_index as int),
        ensures
            final(self)@ == old(self)@.after_column_to_free_cell(column_index as int),
            final(self)@.free_cells.len() <= 3,
    {
        let ghost old_view = self@;
        let card = self.columns[column_index].pop().unwrap();
        self.top_left_storage.push(card);
        assert(self@.columns =~= old_view.after_column_to_free_cell(column_index as int).columns);
        assert(self@.foundation =~= old_view.foundation);
    }
}

/// The number of dragons of `suit` in the cards.
fn count_dragons_exec(cards: &Vec<Card>, suit: Suit) -> (r: usize)
    ensures
        r == count_dragons(cards@, suit),
        r <= cards@.len(),
{
    let mut n: usize = 0;
    let mut i: usize = 0;
    assert(cards@.subrange(0, 0) =~= Seq::<Card>::empty());
    while i < cards.len()
        invariant
            i <= cards@.len(),
            n == count_dragons(cards@.subrange(0, i as int), suit),
            n <= i,
        decreases cards@.len() - i,
    {
        assert(cards@.subrange(0, i + 1).drop_last() =~= cards@.subrange(0, i as int));
        if cards[i].is_dragon_with_suit(suit) {
            n = n + 1;
        }
        i = i + 1;
    }
    assert(cards@.subrange(0, cards@.len() as int) =~= cards@);
    n
}

/// The cards without the dragons of `suit`.
fn remove_dragons_exec(cards: &Vec<Card>, suit: Suit) -> (r: Vec<Card>)
    ensures
        r@ == remove_dragons(cards@, suit),
{
    let mut r: Vec<Card> = Vec::new();
    let mut i: usize = 0;
    assert(cards@.subrange(0, 0) =~= Seq::<Card>::empty());
    while i < cards.len()
        invariant
            i <= cards@.len(),
            r@ == remove_dragons(cards@.subrange(0, i as int), suit),
        decreases cards@.len() - i,
    {
        assert(cards@.subrange(0, i + 1).drop_last() =~= cards@.subrange(0, i as int));
        if !cards[i].is_dragon_with_suit(suit) {
            r.push(cards[i]);
        }
        i = i + 1;
    }
    assert(cards@.subrange(0, cards@.len() as int) =~= cards@);
    r
}

impl GameState {
    /// True iff all four dragons of `suit` can be reached, on top of columns
    /// or in free cells, and at most two free cells hold other cards.
    pub fn can_collect_dragons(&self, suit: Suit) -> (r: bool)
        ensures
            r == self@.can_collect_dragons(suit),
    {
        let in_cells = count_dragons_exec(&self.top_left_storage, suit);
        if self.top_left_storage.len() - in_cells >= 3 {
            return false;
        }
        let ghost cols = self@.columns;
        let mut on_top: usize = 0;
        let mut i: usize = 0;
        assert(cols.subrange(0, 0) =~= Seq::<Seq<Card>>::empty());
        while i < 8
            invariant
                i <= 8,
                cols == self@.columns,
                cols.len() == 8,
                on_top == count_top_dragons(cols.subrange(0, i as int), suit),
                on_top <= i,
            decreases 8 - i,
        {
            assert(cols.subrange(0, i + 1).drop_last() =~= cols.subrange(0, i as int));
            assert(cols[i as int] == self.columns@[i as int]@);
            let column = &self.columns[i];
            if !column.is_empty() && column[column.len() - 1].is_dragon_with_suit(suit) {
                on_top = on_top + 1;
            }
            i = i + 1;
        }
        assert(cols.subrange(0, 8) =~= cols);
        in_cells <= 4 && on_top == 4 - in_cells
    }

    /// Takes the dragons of `suit` off the board and leaves a placeholder in
    /// a free cell.
    pub fn collect_dragons(&mut self, suit: Suit)
        requires
            old(self)@.can_collect_dragons(suit),
        ensures
            final(self)@ == old(self)@.after_collect_dragons(suit),
    {
        let ghost old_view = self@;
        let mut i: usize = 0;
        while i < 8
            invariant
                i <= 8,
                self@.free_cells == old_view.free_cells,
                self@.foundation == old_view.foundation,
                self@.columns.len() == 8,
                old_view.columns.len() == 8,
                forall|j: int|
                    0 <= j < i ==> #[trigger] self@.columns[j] == remove_dragons(
                        old_view.columns[j],
                        suit,
                    ),
                forall|j: int| i <= j < 8 ==> #[trigger] self@.columns[j] == old_view.columns[j],
            decreases 8 - i,
        {
            let ghost before = self@.columns;
            assert(before[i as int] == self.columns@[i as int]@);
            let kept = remove_dragons_exec(&self.columns[i], suit);
            let ghost kept_view = kept@;
            self.columns[i] = kept;
            assert(self@.columns =~= before.update(i as int, kept_view));
            i = i + 1;
        }
        let mut cells = remove_dragons_exec(&self.top_left_storage, suit);
        cells.push(Card { suit: Suit::FaceDown, value: None });
        self.top_left_storage = cells;
        assert(self@.columns =~= old_view.after_collect_dragons(suit).columns);
    }

    /// The length of the run at the top of the column (0 when it is empty).
    pub fn get_column_stack_size(&self, column_index: usize) -> (r: usize)
        requires
            column_index < 8,
        ensures
            r == run_length(self@.columns[column_index as int]),
    {
        let column = &self.columns[column_index];
        let n = column.len();
        assert(self@.columns[column_index as int] == column@);
        if n == 0 {
            return 0;
        }
        let mut k: usize = 1;
        assert(column@.subrange(0, n as int) =~= column@);
        while k < n && column[n - k].can_be_moved_on_top_of(&column[n - k - 1])
            invariant
                1 <= k <= n,
                n == column@.len(),
                run_length(column@) == (k - 1) + run_length(column@.subrange(0, n - k + 1)),
            decreases n - k,
        {
            let ghost t = column@.subrange(0, n - k + 1);
            assert(t.drop_last() =~= column@.subrange(0, n - k));
            k = k + 1;
        }
        k
    }

    /// True iff the top `stack_size` cards of one column can be moved onto
    /// another: they lie within the run at the top, and the target is empty
    /// or the lowest of them stacks onto its top card.
    pub fn can_move_column_to_other_column(&self, p: MoveColumnParameters) -> (r: bool)
        ensures
            r == self@.can_move_run(
                p.from_column_index as int,
                p.to_column_index as int,
                p.stack_size as int,
            ),
    {
        if p.from_column_index >= 8 || p.to_column_index >= 8
            || p.from_column_index == p.to_column_index || p.stack_size == 0 {
            return false;
        }
        let actual_stack_size = self.get_column_stack_size(p.from_column_index);
        if p.stack_size > actual_stack_size {
            return false;
        }
        if self.columns[p.to_column_index].is_empty() {
            return true;
        }
        proof {
            lemma_run_length_bound(self@.columns[p.from_column_index as int]);
        }
        let column = &self.columns[p.from_column_index];
        let stack_first_card = &column[column.len() - p.stack_size];
        let target = &self.columns[p.to_column_index];
        let target_card = &target[target.len() - 1];
        stack_first_card.can_be_moved_on_top_of(target_card)
    }

    /// Moves the top `stack_size` cards of one column, in their order, onto
    /// another.
    pub fn move_column_to_other_column(&mut self, p: MoveColumnParameters)
        requires
            old(self)@.can_move_run(
                p.from_column_index as int,
                p.to_column_index as int,
                p.stack_size as int,
            ),
        ensures
            final(self)@ == old(self)@.after_move_run(
                p.from_column_index as int,
                p.to_column_index as int,
                p.stack_size as int,
            ),
    {
        let ghost old_view = self@;
        proof {
            lemma_run_length_bound(old_view.columns[p.from_column_index as int]);
        }
        let n = self.columns[p.from_column_index].len();
        let mut moved = self.columns[p.from_column_index].split_off(n - p.stack_size);
        self.columns[p.to_column_index].append(&mut moved);
        assert(self@.columns =~= old_view.after_move_run(
            p.from_column_index as int,
            p.to_column_index as int,
            p.stack_size as int,
        ).columns);
    }
}

/// A run is never longer than its column.
pub proof fn lemma_run_length_bound(s: Seq<Card>)
    ensures
        run_length(s) <= s.len(),
    decreases s.len(),
{
    if s.len() > 1 {
        lemma_run_length_bound(s.drop_last());
    }
}

/// The view of each column of a list of columns.
pub open spec fn columns_view(cols: Seq<Vec<Card>>) -> Seq<Seq<Card>> {
    cols.map_values(|c: Vec<Card>| c@)
}

/// A board with its free cells and its columns sorted. Boards that are equal
/// up to the order of their columns and free cells have one canonical form.
#[derive(Debug, Clone, PartialEq, Eq, Hash)]
pub struct CanonicalForm {
    pub free_cells: Vec<Card>,
    pub foundation: [u8; 4],
    pub columns: Vec<Vec<Card>>,
}

impl CanonicalForm {
    pub open spec fn is_canonical_form_of(self, b: BoardView) -> bool {
        &&& sorted_by(self.free_cells@, card_order())
        &&& self.free_cells@.to_multiset() == b.free_cells.to_multiset()
        &&& self.foundation@ == b.foundation
        &&& sorted_by(columns_view(self.columns@), column_order())
        &&& columns_view(self.columns@).to_multiset() == b.columns.to_multiset()
    }
}

/// Compares two lists of cards position by position.
fn cards_eq(a: &Vec<Card>, b: &Vec<Card>) -> (r: bool)
    ensures
        r == (a@ == b@),
{
    if a.len() != b.len() {
        return false;
    }
    let mut i: usize = 0;
    while i < a.len()
        invariant
            i <= a@.len(),
            a@.len() == b@.len(),
            forall|j: int| 0 <= j < i ==> a@[j] == b@[j],
        decreases a@.len() - i,
    {
        if a[i] != b[i] {
            return false;
        }
        i = i + 1;
    }
    assert(a@ =~= b@);
    true
}

/// Compares two lists of columns position by position.
fn columns_eq(a: &Vec<Vec<Card>>, b: &Vec<Vec<Card>>) -> (r: bool)
    ensures
        r == (columns_view(a@) == columns_view(b@)),
{
    if a.len() != b.len() {
        assert(columns_view(a@).len() != columns_view(b@).len());
        return false;
    }
    let mut i: usize = 0;
    while i < a.len()
        invariant
            i <= a@.len(),
            a@.len() == b@.len(),
            forall|j: int| 0 <= j < i ==> a@[j]@ == b@[j]@,
        decreases a@.len() - i,
    {
        if !cards_eq(&a[i], &b[i]) {
            assert(columns_view(a@)[i as int] != columns_view(b@)[i as int]);
            return false;
        }
        i = i + 1;
    }
    assert(columns_view(a@) =~= columns_view(b@));
    true
}

impl GameState {
    /// The canonical form of the board: free cells in the card order,
    /// columns in the column order (an empty column first, then by bottom
    /// card).
    pub fn canonical(&self) -> (r: CanonicalForm)
        ensures
            r.is_canonical_form_of(self@),
    {
        let free_cells = sorted_cards(&self.top_left_storage);
        let columns = sorted_columns(&self.columns);
        let foundation = self.top_right_storage;
        assert(foundation@ =~= self@.foundation);
        CanonicalForm { free_cells, foundation, columns }
    }

    /// A copy of the board.
    pub fn duplicate(&self) -> (r: GameState)
        ensures
            r@ == self@,
    {
        let columns = [
            self.columns[0].clone(),
            self.columns[1].clone(),
            self.columns[2].clone(),
            self.columns[3].clone(),
            self.columns[4].clone(),
            self.columns[5].clone(),
            self.columns[6].clone(),
            self.columns[7].clone(),
        ];
        let r = GameState {
            top_left_storage: self.top_left_storage.clone(),
            top_right_storage: self.top_right_storage,
            columns,
        };
        assert(r.top_left_storage@ =~= self.top_left_storage@);
        assert forall|i: int| 0 <= i < 8 implies r.columns@[i]@ =~= self.columns@[i]@ by {}
        assert(r@.columns =~= self@.columns);
        assert(r@.foundation =~= self@.foundation);
        r
    }
}

/// Two boards are equal when they differ at most in the order of their
/// columns and of their free cells.
impl PartialEq for GameState {
    fn eq(&self, other: &GameState) -> (r: bool) {
        let a = self.canonical();
        let b = other.canonical();
        let same_cells = cards_eq(&a.free_cells, &b.free_cells);
        let same_foundation = a.foundation[0] == b.foundation[0] && a.foundation[1]
            == b.foundation[1] && a.foundation[2] == b.foundation[2] && a.foundation[3]
            == b.foundation[3];
        let same_columns = columns_eq(&a.columns, &b.columns);
        proof {
            lemma_card_order_total();
            lemma_column_order_total();
            if self@.free_cells.to_multiset() == other@.free_cells.to_multiset() {
                vstd::seq_lib::lemma_sorted_unique(a.free_cells@, b.free_cells@, card_order());
            }
            if self@.columns.to_multiset() == other@.columns.to_multiset() {
                vstd::seq_lib::lemma_sorted_unique(
                    columns_view(a.columns@),
                    columns_view(b.columns@),
                    column_order(),
                );
            }
            if same_foundation {
                assert(a.foundation@ =~= b.foundation@);
            }
        }
        same_cells && same_foundation && same_columns
    }
}

impl vstd::std_specs::cmp::PartialEqSpecImpl for GameState {
    open spec fn obeys_eq_spec() -> bool {
        true
    }

    open spec fn eq_spec(&self, other: &GameState) -> bool {
        self@.same_up_to_order(other@)
    }
}

impl Eq for GameState {
}

/// Relies on the derived `Hash` of `CanonicalForm`, which feeds its vectors
/// and array to the hasher in order.
#[verifier::external_body]
fn hash_canonical_form<H: core::hash::Hasher>(c: &CanonicalForm, state: &mut H) {
    core::hash::Hash::hash(c, state)
}

/// Hashes the canonical form, so that equal boards hash alike.
impl core::hash::Hash for GameState {
    fn hash<H: core::hash::Hasher>(&self, state: &mut H) {
        let c = self.canonical();
        hash_canonical_form(&c, state);
    }
}

/// Boards that differ only in the order of their columns and of their free
/// cells have the same canonical form, so they are equal and hash alike.
pub proof fn lemma_canonical_form_ignores_order(
    s: BoardView,
    t: BoardView,
    cs: CanonicalForm,
    ct: CanonicalForm,
)
    requires
        s.same_up_to_order(t),
        cs.is_canonical_form_of(s),
        ct.is_canonical_form_of(t),
    ensures
        cs.free_cells@ == ct.free_cells@,
        cs.foundation@ == ct.foundation@,
        columns_view(cs.columns@) == columns_view(ct.columns@),
{
    lemma_card_order_total();
    lemma_column_order_total();
    vstd::seq_lib::lemma_sorted_unique(cs.free_cells@, ct.free_cells@, card_order());
    vstd::seq_lib::lemma_sorted_unique(
        columns_view(cs.columns@),
        columns_view(ct.columns@),
        column_order(),
    );
}

/// No dragon of `suit` is left once they are removed.
pub proof fn lemma_remove_dragons_count(s: Seq<Card>, suit: Suit)
    ensures
        count_dragons(remove_dragons(s, suit), suit) == 0,
    decreases s.len(),
{
    if s.len() > 0 {
        lemma_remove_dragons_count(s.drop_last(), suit);
        if !s.last().spec_is_dragon_with_suit(suit) {
            assert(remove_dragons(s, suit).drop_last() == remove_dragons(s.drop_last(), suit));
        }
    }
}

/// Removing dragons keeps every card that is not one.
pub proof fn lemma_remove_dragons_keeps_others(s: Seq<Card>, suit: Suit, c: Card)
    requires
        !c.spec_is_dragon_with_suit(suit),
    ensures
        remove_dragons(s, suit).to_multiset().count(c) == s.to_multiset().count(c),
    decreases s.len(),
{
    broadcast use vstd::seq_lib::group_to_multiset_ensures;

    if s.len() > 0 {
        lemma_remove_dragons_keeps_others(s.drop_last(), suit, c);
        assert(s == s.drop_last().push(s.last()));
    }
}

/// Collecting dragons needs all four of them within reach, and a free cell
/// that is empty or holds one of them. It removes every dragon of the suit
/// from the columns and the free cells and adds exactly one placeholder.
pub proof fn lemma_collect_dragons(b: BoardView, suit: Suit)
    ensures
        b.reachable_dragons(suit) < 4 ==> !b.can_collect_dragons(suit),
        b.free_cells.len() == 3 && count_dragons(b.free_cells, suit) == 0
            ==> !b.can_collect_dragons(suit),
        ({
            let a = b.after_collect_dragons(suit);
            &&& count_dragons(a.free_cells, suit) == 0
            &&& forall|i: int| 0 <= i < 8 ==> count_dragons(#[trigger] a.columns[i], suit) == 0
            &&& a.free_cells.to_multiset().count(face_down()) == b.free_cells.to_multiset().count(
                face_down(),
            ) + 1
        }),
{
    broadcast use vstd::seq_lib::group_to_multiset_ensures;

    let a = b.after_collect_dragons(suit);
    let kept = remove_dragons(b.free_cells, suit);
    lemma_remove_dragons_count(b.free_cells, suit);
    assert(a.free_cells.drop_last() == kept);
    assert forall|i: int| 0 <= i < 8 implies count_dragons(#[trigger] a.columns[i], suit) == 0 by {
        lemma_remove_dragons_count(b.columns[i], suit);
    }
    lemma_remove_dragons_keeps_others(b.free_cells, suit, face_down());
}

/// Moving a run of `size` cards takes exactly the top `size` cards of the
/// source column, in their order, to the top of the target column; the
/// source keeps the rest and the other columns do not change.
pub proof fn lemma_move_run(b: BoardView, from: int, to: int, size: int)
    requires
        b.columns.len() == 8,
        b.can_move_run(from, to, size),
    ensures
        ({
            let n = b.columns[from].len() as int;
            let a = b.after_move_run(from, to, size);
            &&& size <= n
            &&& a.columns[from].len() == n - size
            &&& a.columns[from] == b.columns[from].subrange(0, n - size)
            &&& a.columns[to] == b.columns[to] + b.columns[from].subrange(n - size, n)
            &&& forall|i: int|
                0 <= i < 8 && i != from && i != to ==> #[trigger] a.columns[i] == b.columns[i]
            &&& a.free_cells == b.free_cells
            &&& a.foundation == b.foundation
        }),
{
    lemma_run_length_bound(b.columns[from]);
}

/// Removing the dragons of `suit` removes exactly the counted ones.
pub proof fn lemma_remove_dragons_len(s: Seq<Card>, suit: Suit)
    ensures
        remove_dragons(s, suit).len() + count_dragons(s, suit) == s.len(),
    decreases s.len(),
{
    if s.len() > 0 {
        lemma_remove_dragons_len(s.drop_last(), suit);
    }
}

} // verus!
