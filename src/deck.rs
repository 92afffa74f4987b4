//! The deck that a deal is made of, and what a solved board holds.
use vstd::prelude::*;
use crate::card::{Card, Suit, suit_rank};
use crate::game::{GameMove, apply_move, is_history, is_solution};
use crate::game_state::GameState;
use crate::game_state::{
    BoardView, count_dragons, count_top_dragons, face_down, lemma_remove_dragons_len,
    remove_dragons,
};

verus! {

/// The number of times `c` occurs in `s`.
pub open spec fn occurrences(s: Seq<Card>, c: Card) -> nat
    decreases s.len(),
{
    if s.len() == 0 {
        0
    } else {
        occurrences(s.drop_last(), c) + if s.last() == c {
            1nat
        } else {
            0nat
        }
    }
}

/// The number of times `c` occurs in the columns.
pub open spec fn column_occurrences(cols: Seq<Seq<Card>>, c: Card) -> nat
    decreases cols.len(),
{
    if cols.len() == 0 {
        0
    } else {
        column_occurrences(cols.drop_last(), c) + occurrences(cols.last(), c)
    }
}

/// The number of times `c` lies on the board, in a free cell or a column.
pub open spec fn on_board(b: BoardView, c: Card) -> nat {
    occurrences(b.free_cells, c) + column_occurrences(b.columns, c)
}

pub open spec fn is_numbered_suit(s: Suit) -> bool {
    s == Suit::Red || s == Suit::Green || s == Suit::Black
}

pub open spec fn dragon(s: Suit) -> Card {
    Card { suit: s, value: None }
}

/// A card of the deck: the special card, a numbered card from 1 to 9, or a
/// dragon.
pub open spec fn is_deck_card(c: Card) -> bool {
    ||| c == Card { suit: Suit::Special, value: Some(1) }
    ||| is_numbered_suit(c.suit) && (c.value is None || 1 <= c.value.unwrap() <= 9)
}

/// 1 when the dragons of `s` have been collected, else 0.
pub open spec fn collected(b: BoardView, s: Suit) -> nat {
    if on_board(b, dragon(s)) == 0 {
        1
    } else {
        0
    }
}

/// The board holds what is left of the full deck: each numbered card above
/// its suit's foundation counter once, the special card until it is
/// collected, the four dragons of a suit or none of them, and one
/// placeholder for each suit whose dragons are gone.
pub open spec fn is_complete_deal(b: BoardView) -> bool {
    &&& b.free_cells.len() <= 3
    &&& b.foundation.len() == 4
    &&& b.columns.len() == 8
    &&& b.foundation[0] <= 1
    &&& b.foundation[1] <= 9
    &&& b.foundation[2] <= 9
    &&& b.foundation[3] <= 9
    &&& on_board(b, Card { suit: Suit::Special, value: Some(1) }) == if b.foundation[0] == 0 {
        1nat
    } else {
        0nat
    }
    &&& forall|s: Suit, v: u8|
        is_numbered_suit(s) && 1 <= v <= 9 ==> #[trigger] on_board(
            b,
            Card { suit: s, value: Some(v) },
        ) == if v > b.foundation[suit_rank(s)] {
            1nat
        } else {
            0nat
        }
    &&& forall|s: Suit|
        is_numbered_suit(s) ==> #[trigger] on_board(b, dragon(s)) == 0 || on_board(b, dragon(s))
            == 4
    &&& occurrences(b.free_cells, face_down()) == collected(b, Suit::Red) + collected(
        b,
        Suit::Green,
    ) + collected(b, Suit::Black)
    &&& column_occurrences(b.columns, face_down()) == 0
    &&& forall|c: Card| !is_deck_card(c) && c != face_down() ==> #[trigger] on_board(b, c) == 0
}

proof fn lemma_occurrences_bound(s: Seq<Card>, c: Card)
    ensures
        occurrences(s, c) <= s.len(),
    decreases s.len(),
{
    if s.len() > 0 {
        lemma_occurrences_bound(s.drop_last(), c);
    }
}

proof fn lemma_occurrences_all(s: Seq<Card>, c: Card)
    requires
        occurrences(s, c) == s.len(),
    ensures
        forall|j: int| 0 <= j < s.len() ==> s[j] == c,
    decreases s.len(),
{
    if s.len() > 0 {
        lemma_occurrences_bound(s.drop_last(), c);
        lemma_occurrences_all(s.drop_last(), c);
        assert forall|j: int| 0 <= j < s.len() implies s[j] == c by {
            if j < s.len() - 1 {
                assert(s[j] == s.drop_last()[j]);
            }
        }
    }
}

proof fn lemma_occurrences_none(s: Seq<Card>, c: Card, d: Card)
    requires
        forall|j: int| 0 <= j < s.len() ==> s[j] == c,
        d != c,
    ensures
        occurrences(s, d) == 0,
    decreases s.len(),
{
    if s.len() > 0 {
        lemma_occurrences_none(s.drop_last(), c, d);
    }
}

proof fn lemma_empty_columns(cols: Seq<Seq<Card>>, c: Card)
    requires
        forall|i: int| 0 <= i < cols.len() ==> (#[trigger] cols[i]).len() == 0,
    ensures
        column_occurrences(cols, c) == 0,
    decreases cols.len(),
{
    if cols.len() > 0 {
        assert forall|i: int| 0 <= i < cols.drop_last().len() implies (
        #[trigger] cols.drop_last()[i]).len() == 0 by {
            assert(cols.drop_last()[i] == cols[i]);
        }
        lemma_empty_columns(cols.drop_last(), c);
        assert(cols.last().len() == 0);
    }
}

/// A board of a complete deal whose columns are all empty is won: the
/// foundation reads 1, 9, 9, 9 and the three free cells hold placeholders.
pub proof fn lemma_solved_board(b: BoardView)
    requires
        is_complete_deal(b),
        b.is_solved(),
    ensures
        b.foundation == seq![1u8, 9u8, 9u8, 9u8],
        b.free_cells == seq![face_down(), face_down(), face_down()],
{
    let fd = face_down();
    assert forall|c: Card| #[trigger] on_board(b, c) == occurrences(b.free_cells, c) by {
        lemma_empty_columns(b.columns, c);
    }
    lemma_occurrences_bound(b.free_cells, dragon(Suit::Red));
    lemma_occurrences_bound(b.free_cells, dragon(Suit::Green));
    lemma_occurrences_bound(b.free_cells, dragon(Suit::Black));
    assert(on_board(b, dragon(Suit::Red)) == 0);
    assert(on_board(b, dragon(Suit::Green)) == 0);
    assert(on_board(b, dragon(Suit::Black)) == 0);
    lemma_occurrences_bound(b.free_cells, fd);
    lemma_occurrences_all(b.free_cells, fd);
    assert(b.free_cells =~= seq![fd, fd, fd]);
    let special = Card { suit: Suit::Special, value: Some(1) };
    lemma_occurrences_none(b.free_cells, fd, special);
    assert(on_board(b, special) == 0);
    let r9 = Card { suit: Suit::Red, value: Some(9) };
    let g9 = Card { suit: Suit::Green, value: Some(9) };
    let b9 = Card { suit: Suit::Black, value: Some(9) };
    lemma_occurrences_none(b.free_cells, fd, r9);
    lemma_occurrences_none(b.free_cells, fd, g9);
    lemma_occurrences_none(b.free_cells, fd, b9);
    assert(on_board(b, r9) == 0);
    assert(on_board(b, g9) == 0);
    assert(on_board(b, b9) == 0);
    assert(b.foundation =~= seq![1u8, 9u8, 9u8, 9u8]);
}

proof fn lemma_occurrences_push(s: Seq<Card>, x: Card, c: Card)
    ensures
        occurrences(s.push(x), c) == occurrences(s, c) + if x == c {
            1nat
        } else {
            0nat
        },
{
    assert(s.push(x).drop_last() =~= s);
}

proof fn lemma_occurrences_remove(s: Seq<Card>, k: int, c: Card)
    requires
        0 <= k < s.len(),
    ensures
        occurrences(s.remove(k), c) + (if s[k] == c {
            1nat
        } else {
            0nat
        }) == occurrences(s, c),
    decreases s.len(),
{
    if k == s.len() - 1 {
        assert(s.remove(k) =~= s.drop_last());
    } else {
        lemma_occurrences_remove(s.drop_last(), k, c);
        assert(s.remove(k) =~= s.drop_last().remove(k).push(s.last()));
        lemma_occurrences_push(s.drop_last().remove(k), s.last(), c);
    }
}

proof fn lemma_occurrences_concat(a: Seq<Card>, b: Seq<Card>, c: Card)
    ensures
        occurrences(a + b, c) == occurrences(a, c) + occurrences(b, c),
    decreases b.len(),
{
    if b.len() == 0 {
        assert(a + b =~= a);
    } else {
        lemma_occurrences_concat(a, b.drop_last(), c);
        assert((a + b).drop_last() =~= a + b.drop_last());
    }
}

proof fn lemma_column_occurrences_update(cols: Seq<Seq<Card>>, i: int, x: Seq<Card>, c: Card)
    requires
        0 <= i < cols.len(),
    ensures
        column_occurrences(cols.update(i, x), c) + occurrences(cols[i], c) == column_occurrences(
            cols,
            c,
        ) + occurrences(x, c),
    decreases cols.len(),
{
    if i == cols.len() - 1 {
        assert(cols.update(i, x).drop_last() =~= cols.drop_last());
    } else {
        lemma_column_occurrences_update(cols.drop_last(), i, x, c);
        assert(cols.update(i, x).drop_last() =~= cols.drop_last().update(i, x));
    }
}

proof fn lemma_column_occurrences_pointwise(a: Seq<Seq<Card>>, b: Seq<Seq<Card>>, c: Card)
    requires
        a.len() == b.len(),
        forall|i: int| 0 <= i < a.len() ==> occurrences(#[trigger] a[i], c) == occurrences(b[i], c),
    ensures
        column_occurrences(a, c) == column_occurrences(b, c),
    decreases a.len(),
{
    if a.len() > 0 {
        assert forall|i: int| 0 <= i < a.drop_last().len() implies occurrences(
            #[trigger] a.drop_last()[i],
            c,
        ) == occurrences(b.drop_last()[i], c) by {
            assert(a.drop_last()[i] == a[i]);
            assert(b.drop_last()[i] == b[i]);
        }
        lemma_column_occurrences_pointwise(a.drop_last(), b.drop_last(), c);
    }
}

proof fn lemma_column_occurrences_none(a: Seq<Seq<Card>>, c: Card)
    requires
        forall|i: int| 0 <= i < a.len() ==> occurrences(#[trigger] a[i], c) == 0,
    ensures
        column_occurrences(a, c) == 0,
    decreases a.len(),
{
    if a.len() > 0 {
        assert forall|i: int| 0 <= i < a.drop_last().len() implies occurrences(
            #[trigger] a.drop_last()[i],
            c,
        ) == 0 by {
            assert(a.drop_last()[i] == a[i]);
        }
        lemma_column_occurrences_none(a.drop_last(), c);
    }
}

proof fn lemma_remove_dragons_occurrences(s: Seq<Card>, suit: Suit, c: Card)
    ensures
        occurrences(remove_dragons(s, suit), c) == if c.spec_is_dragon_with_suit(suit) {
            0
        } else {
            occurrences(s, c)
        },
    decreases s.len(),
{
    if s.len() > 0 {
        lemma_remove_dragons_occurrences(s.drop_last(), suit, c);
        if !s.last().spec_is_dragon_with_suit(suit) {
            lemma_occurrences_push(remove_dragons(s.drop_last(), suit), s.last(), c);
        }
    }
}

proof fn lemma_count_dragons_occurrences(s: Seq<Card>, suit: Suit)
    requires
        suit != Suit::FaceDown,
    ensures
        count_dragons(s, suit) == occurrences(s, dragon(suit)),
    decreases s.len(),
{
    if s.len() > 0 {
        lemma_count_dragons_occurrences(s.drop_last(), suit);
    }
}

proof fn lemma_top_dragons_bound(cols: Seq<Seq<Card>>, suit: Suit)
    requires
        suit != Suit::FaceDown,
    ensures
        count_top_dragons(cols, suit) <= column_occurrences(cols, dragon(suit)),
    decreases cols.len(),
{
    if cols.len() > 0 {
        lemma_top_dragons_bound(cols.drop_last(), suit);
        let col = cols.last();
        if col.len() > 0 && col.last().spec_is_dragon_with_suit(suit) {
            assert(col.last() == dragon(suit));
        }
    }
}

spec fn one_if(p: bool) -> nat {
    if p {
        1
    } else {
        0
    }
}

/// A move that only rearranges cards keeps the deal complete.
proof fn lemma_rearranging_keeps_complete(b: BoardView, a: BoardView)
    requires
        is_complete_deal(b),
        forall|c: Card| #[trigger] on_board(a, c) == on_board(b, c),
        a.foundation == b.foundation,
        a.free_cells.len() <= 3,
        a.columns.len() == 8,
        occurrences(a.free_cells, face_down()) == occurrences(b.free_cells, face_down()),
        column_occurrences(a.columns, face_down()) == 0,
    ensures
        is_complete_deal(a),
{
    assert(on_board(a, dragon(Suit::Red)) == on_board(b, dragon(Suit::Red)));
    assert(on_board(a, dragon(Suit::Green)) == on_board(b, dragon(Suit::Green)));
    assert(on_board(a, dragon(Suit::Black)) == on_board(b, dragon(Suit::Black)));
    assert(on_board(a, Card { suit: Suit::Special, value: Some(1) }) == on_board(
        b,
        Card { suit: Suit::Special, value: Some(1) },
    ));
}

/// Sending a card of the deck to the foundation keeps the deal complete.
proof fn lemma_sending_keeps_complete(b: BoardView, a: BoardView, x: Card)
    requires
        is_complete_deal(b),
        on_board(b, x) >= 1,
        x.value is Some,
        x.suit != Suit::FaceDown,
        x.value.unwrap() == 1 || b.foundation[suit_rank(x.suit)] as int == x.value.unwrap() - 1,
        forall|c: Card| #[trigger] on_board(a, c) + one_if(c == x) == on_board(b, c),
        a.foundation == b.foundation.update(suit_rank(x.suit), x.value.unwrap()),
        a.free_cells.len() <= 3,
        a.columns.len() == 8,
        occurrences(a.free_cells, face_down()) == occurrences(b.free_cells, face_down()),
        column_occurrences(a.columns, face_down()) == 0,
    ensures
        is_complete_deal(a),
{
    let special = Card { suit: Suit::Special, value: Some(1) };
    let v = x.value.unwrap();
    assert(is_deck_card(x));
    assert(on_board(a, dragon(Suit::Red)) == on_board(b, dragon(Suit::Red)));
    assert(on_board(a, dragon(Suit::Green)) == on_board(b, dragon(Suit::Green)));
    assert(on_board(a, dragon(Suit::Black)) == on_board(b, dragon(Suit::Black)));
    assert(on_board(a, special) + one_if(special == x) == on_board(b, special));
    if x.suit != Suit::Special {
        assert(on_board(b, Card { suit: x.suit, value: Some(v) }) == 1);
        assert(b.foundation[suit_rank(x.suit)] as int == v - 1);
    }
    assert forall|s: Suit, w: u8| is_numbered_suit(s) && 1 <= w <= 9 implies #[trigger] on_board(
        a,
        Card { suit: s, value: Some(w) },
    ) == if w > a.foundation[suit_rank(s)] {
        1nat
    } else {
        0nat
    } by {
        let c = Card { suit: s, value: Some(w) };
        assert(on_board(a, c) + one_if(c == x) == on_board(b, c));
        assert(on_board(b, c) == if w > b.foundation[suit_rank(s)] {
            1nat
        } else {
            0nat
        });
    }
    assert forall|c: Card| !is_deck_card(c) && c != face_down() implies #[trigger] on_board(a, c)
        == 0 by {
        assert(on_board(a, c) + one_if(c == x) == on_board(b, c));
    }
}

proof fn lemma_column_occurrences_at_least(cols: Seq<Seq<Card>>, i: int, c: Card)
    requires
        0 <= i < cols.len(),
    ensures
        occurrences(cols[i], c) <= column_occurrences(cols, c),
{
    lemma_column_occurrences_update(cols, i, Seq::empty(), c);
}

/// Every legal move turns a board of a complete deal into another one.
pub proof fn lemma_moves_keep_deal_complete(b: BoardView, m: GameMove)
    requires
        is_complete_deal(b),
        apply_move(b, m) is Some,
    ensures
        is_complete_deal(apply_move(b, m).unwrap()),
{
    let a = apply_move(b, m).unwrap();
    let fd = face_down();
    match m {
        GameMove::Start => {},
        GameMove::ColumnToTopRightStorage { column } => {
            let i = column as int;
            let col = b.columns[i];
            let x = col.last();
            assert forall|c: Card| #[trigger] on_board(a, c) + one_if(c == x) == on_board(b, c) by {
                lemma_column_occurrences_update(b.columns, i, col.drop_last(), c);
            }
            lemma_column_occurrences_at_least(b.columns, i, x);
            assert(on_board(a, fd) + one_if(fd == x) == on_board(b, fd));
            lemma_column_occurrences_update(b.columns, i, col.drop_last(), fd);
            lemma_sending_keeps_complete(b, a, x);
        },
        GameMove::TopLeftToTopRightStorage { top_left_index } => {
            let k = top_left_index as int;
            let x = b.free_cells[k];
            assert forall|c: Card| #[trigger] on_board(a, c) + one_if(c == x) == on_board(b, c) by {
                lemma_occurrences_remove(b.free_cells, k, c);
            }
            lemma_occurrences_remove(b.free_cells, k, x);
            lemma_occurrences_remove(b.free_cells, k, fd);
            lemma_sending_keeps_complete(b, a, x);
        },
        GameMove::TopLeftToColumn { top_left_index, column_index } => {
            let k = top_left_index as int;
            let i = column_index as int;
            let x = b.free_cells[k];
            assert forall|c: Card| #[trigger] on_board(a, c) == on_board(b, c) by {
                lemma_occurrences_remove(b.free_cells, k, c);
                lemma_column_occurrences_update(b.columns, i, b.columns[i].push(x), c);
                lemma_occurrences_push(b.columns[i], x, c);
            }
            lemma_occurrences_remove(b.free_cells, k, fd);
            lemma_column_occurrences_update(b.columns, i, b.columns[i].push(x), fd);
            lemma_occurrences_push(b.columns[i], x, fd);
            lemma_rearranging_keeps_complete(b, a);
        },
        GameMove::ToTopLeftStorage { column } => {
            let i = column as int;
            let col = b.columns[i];
            let x = col.last();
            assert forall|c: Card| #[trigger] on_board(a, c) == on_board(b, c) by {
                lemma_column_occurrences_update(b.columns, i, col.drop_last(), c);
                lemma_occurrences_push(b.free_cells, x, c);
            }
            lemma_column_occurrences_at_least(b.columns, i, fd);
            lemma_column_occurrences_update(b.columns, i, col.drop_last(), fd);
            lemma_occurrences_push(b.free_cells, x, fd);
            lemma_rearranging_keeps_complete(b, a);
        },
        GameMove::CollectDragons { suit } => {
            if suit == Suit::FaceDown {
                assert(count_dragons(b.free_cells, suit) == 0) by {
                    lemma_no_face_down_dragons(b.free_cells);
                }
                lemma_no_face_down_top_dragons(b.columns);
                assert(false);
            }
            let d = dragon(suit);
            lemma_count_dragons_occurrences(b.free_cells, suit);
            lemma_top_dragons_bound(b.columns, suit);
            assert(on_board(b, d) >= 4);
            if !is_numbered_suit(suit) {
                assert(!is_deck_card(d));
                assert(false);
            }
            assert(on_board(b, d) == 4);
            lemma_remove_dragons_len(b.free_cells, suit);
            let kept = remove_dragons(b.free_cells, suit);
            assert(a.free_cells == kept.push(fd));
            assert forall|c: Card| #[trigger] on_board(a, c) == if c == d {
                0
            } else {
                on_board(b, c) + one_if(c == fd)
            } by {
                lemma_remove_dragons_occurrences(b.free_cells, suit, c);
                lemma_occurrences_push(kept, fd, c);
                if c == d {
                    assert forall|i: int| 0 <= i < a.columns.len() implies occurrences(
                        #[trigger] a.columns[i],
                        c,
                    ) == 0 by {
                        lemma_remove_dragons_occurrences(b.columns[i], suit, c);
                    }
                    lemma_column_occurrences_none(a.columns, c);
                } else {
                    assert forall|i: int| 0 <= i < a.columns.len() implies occurrences(
                        #[trigger] a.columns[i],
                        c,
                    ) == occurrences(b.columns[i], c) by {
                        lemma_remove_dragons_occurrences(b.columns[i], suit, c);
                    }
                    lemma_column_occurrences_pointwise(a.columns, b.columns, c);
                }
            }
            assert forall|i: int| 0 <= i < a.columns.len() implies occurrences(
                #[trigger] a.columns[i],
                fd,
            ) == occurrences(b.columns[i], fd) by {
                lemma_remove_dragons_occurrences(b.columns[i], suit, fd);
            }
            lemma_column_occurrences_pointwise(a.columns, b.columns, fd);
            lemma_remove_dragons_occurrences(b.free_cells, suit, fd);
            lemma_occurrences_push(kept, fd, fd);
            let special = Card { suit: Suit::Special, value: Some(1) };
            assert(on_board(a, special) == on_board(b, special));
            assert(on_board(a, dragon(Suit::Red)) == if suit == Suit::Red {
                0
            } else {
                on_board(b, dragon(Suit::Red))
            });
            assert(on_board(a, dragon(Suit::Green)) == if suit == Suit::Green {
                0
            } else {
                on_board(b, dragon(Suit::Green))
            });
            assert(on_board(a, dragon(Suit::Black)) == if suit == Suit::Black {
                0
            } else {
                on_board(b, dragon(Suit::Black))
            });
            assert forall|s: Suit, w: u8|
                is_numbered_suit(s) && 1 <= w <= 9 implies #[trigger] on_board(
                a,
                Card { suit: s, value: Some(w) },
            ) == if w > a.foundation[suit_rank(s)] {
                1nat
            } else {
                0nat
            } by {
                let c = Card { suit: s, value: Some(w) };
                assert(on_board(b, c) == if w > b.foundation[suit_rank(s)] {
                    1nat
                } else {
                    0nat
                });
            }
            assert forall|c: Card| !is_deck_card(c) && c != fd implies #[trigger] on_board(a, c)
                == 0 by {
                assert(on_board(b, c) == 0);
            }
        },
        GameMove::ColumnToOtherColumn { from_column_index, to_column_index, stack_size } => {
            let f = from_column_index as int;
            let t = to_column_index as int;
            let src = b.columns[f];
            let n = src.len() as int;
            crate::game_state::lemma_run_length_bound(src);
            let pre = src.subrange(0, n - stack_size as int);
            let post = src.subrange(n - stack_size as int, n);
            let c1 = b.columns.update(f, pre);
            assert(pre + post =~= src);
            assert(c1[t] == b.columns[t]);
            assert forall|c: Card| #[trigger] on_board(a, c) == on_board(b, c) by {
                lemma_column_occurrences_update(b.columns, f, pre, c);
                lemma_column_occurrences_update(c1, t, b.columns[t] + post, c);
                lemma_occurrences_concat(b.columns[t], post, c);
                lemma_occurrences_concat(pre, post, c);
            }
            lemma_column_occurrences_update(b.columns, f, pre, fd);
            lemma_column_occurrences_update(c1, t, b.columns[t] + post, fd);
            lemma_occurrences_concat(b.columns[t], post, fd);
            lemma_occurrences_concat(pre, post, fd);
            lemma_rearranging_keeps_complete(b, a);
        },
    }
}

proof fn lemma_no_face_down_dragons(s: Seq<Card>)
    ensures
        count_dragons(s, Suit::FaceDown) == 0,
    decreases s.len(),
{
    if s.len() > 0 {
        lemma_no_face_down_dragons(s.drop_last());
    }
}

proof fn lemma_no_face_down_top_dragons(cols: Seq<Seq<Card>>)
    ensures
        count_top_dragons(cols, Suit::FaceDown) == 0,
    decreases cols.len(),
{
    if cols.len() > 0 {
        lemma_no_face_down_top_dragons(cols.drop_last());
    }
}

proof fn lemma_history_prefix_complete(
    initial: BoardView,
    states: Seq<BoardView>,
    moves: Seq<GameMove>,
    i: int,
)
    requires
        is_complete_deal(initial),
        is_history(initial, states, moves),
        0 <= i < states.len(),
    ensures
        is_complete_deal(states[i]),
    decreases i,
{
    if i > 0 {
        lemma_history_prefix_complete(initial, states, moves, i - 1);
        assert(apply_move(states[i - 1], moves[i]) == Some(states[i]));
        lemma_moves_keep_deal_complete(states[i - 1], moves[i]);
    }
}

/// Every board of a history that starts from a complete deal is one too.
pub proof fn lemma_history_stays_complete(
    initial: BoardView,
    states: Seq<BoardView>,
    moves: Seq<GameMove>,
)
    requires
        is_complete_deal(initial),
        is_history(initial, states, moves),
    ensures
        forall|i: int| 0 <= i < states.len() ==> is_complete_deal(#[trigger] states[i]),
{
    assert forall|i: int| 0 <= i < states.len() implies is_complete_deal(#[trigger] states[i]) by {
        lemma_history_prefix_complete(initial, states, moves, i);
    }
}

/// A solution of a complete deal ends on a won board: the foundation reads
/// 1, 9, 9, 9 and the three free cells hold placeholders.
pub proof fn lemma_solution_ends_won(initial: BoardView, steps: Seq<(GameState, GameMove)>)
    requires
        is_complete_deal(initial),
        is_solution(initial, steps),
    ensures
        steps.last().0@.foundation == seq![1u8, 9u8, 9u8, 9u8],
        steps.last().0@.free_cells == seq![face_down(), face_down(), face_down()],
{
    let states = steps.map_values(|p: (GameState, GameMove)| p.0@);
    let moves = steps.map_values(|p: (GameState, GameMove)| p.1);
    lemma_history_stays_complete(initial, states, moves);
    let last = states.len() - 1;
    assert(states[last] == steps.last().0@);
    lemma_solved_board(states[last]);
}

/// On a complete deal, collecting the dragons of a suit takes exactly four
/// of them, and none is left on the board.
pub proof fn lemma_collect_takes_four(b: BoardView, suit: Suit)
    requires
        is_complete_deal(b),
        b.can_collect_dragons(suit),
    ensures
        is_numbered_suit(suit),
        on_board(b, dragon(suit)) == 4,
        on_board(b.after_collect_dragons(suit), dragon(suit)) == 0,
{
    if suit == Suit::FaceDown {
        lemma_no_face_down_dragons(b.free_cells);
        lemma_no_face_down_top_dragons(b.columns);
        assert(false);
    }
    let d = dragon(suit);
    lemma_count_dragons_occurrences(b.free_cells, suit);
    lemma_top_dragons_bound(b.columns, suit);
    assert(on_board(b, d) >= 4);
    if !is_numbered_suit(suit) {
        assert(!is_deck_card(d));
        assert(on_board(b, d) == 0);
    }
    let a = b.after_collect_dragons(suit);
    lemma_remove_dragons_occurrences(b.free_cells, suit, d);
    lemma_occurrences_push(remove_dragons(b.free_cells, suit), face_down(), d);
    assert forall|i: int| 0 <= i < a.columns.len() implies occurrences(#[trigger] a.columns[i], d)
        == 0 by {
        lemma_remove_dragons_occurrences(b.columns[i], suit, d);
    }
    lemma_column_occurrences_none(a.columns, d);
}

} // verus!
