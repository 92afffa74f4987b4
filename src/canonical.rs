//! Orders on cards and columns, and the sorting that brings a board into
//! its canonical form.
use vstd::prelude::*;
use vstd::relations::{sorted_by, total_ordering};
use crate::card::{Card, suit_rank};

verus! {

/// The place of a card in the card order: by suit, then by value, a card
/// without a value coming first.
pub open spec fn card_key(c: Card) -> int {
    suit_rank(c.suit) * 1000 + match c.value {
        None => 0int,
        Some(v) => v as int + 1,
    }
}

pub open spec fn card_le(a: Card, b: Card) -> bool {
    card_key(a) <= card_key(b)
}

/// Lexicographic order on columns read from the bottom: an empty column
/// comes first, then columns are ordered by their bottom card, and so on.
pub open spec fn column_le(a: Seq<Card>, b: Seq<Card>) -> bool
    decreases a.len(),
{
    if a.len() == 0 {
        true
    } else if b.len() == 0 {
        false
    } else if a[0] == b[0] {
        column_le(a.drop_first(), b.drop_first())
    } else {
        card_key(a[0]) < card_key(b[0])
    }
}

pub open spec fn card_order() -> spec_fn(Card, Card) -> bool {
    |a: Card, b: Card| card_le(a, b)
}

pub open spec fn column_order() -> spec_fn(Seq<Card>, Seq<Card>) -> bool {
    |a: Seq<Card>, b: Seq<Card>| column_le(a, b)
}

pub proof fn lemma_card_key_injective(a: Card, b: Card)
    requires
        card_key(a) == card_key(b),
    ensures
        a == b,
{
}

pub proof fn lemma_card_order_total()
    ensures
        total_ordering(card_order()),
{
    assert forall|a: Card, b: Card| #[trigger] card_order()(a, b) && card_order()(b, a) implies a
        == b by {
        lemma_card_key_injective(a, b);
    }
}

proof fn lemma_column_le_total(a: Seq<Card>, b: Seq<Card>)
    ensures
        column_le(a, b) || column_le(b, a),
    decreases a.len(),
{
    if a.len() > 0 && b.len() > 0 && a[0] == b[0] {
        lemma_column_le_total(a.drop_first(), b.drop_first());
    } else if a.len() > 0 && b.len() > 0 {
        if card_key(a[0]) == card_key(b[0]) {
            lemma_card_key_injective(a[0], b[0]);
        }
    }
}

proof fn lemma_column_le_antisymmetric(a: Seq<Card>, b: Seq<Card>)
    requires
        column_le(a, b),
        column_le(b, a),
    ensures
        a == b,
    decreases a.len(),
{
    if a.len() == 0 {
        assert(b.len() == 0);
        assert(a =~= b);
    } else {
        lemma_column_le_antisymmetric(a.drop_first(), b.drop_first());
        assert(a =~= seq![a[0]] + a.drop_first());
        assert(b =~= seq![b[0]] + b.drop_first());
    }
}

proof fn lemma_column_le_transitive(a: Seq<Card>, b: Seq<Card>, c: Seq<Card>)
    requires
        column_le(a, b),
        column_le(b, c),
    ensures
        column_le(a, c),
    decreases a.len(),
{
    if a.len() > 0 && b.len() > 0 && c.len() > 0 && a[0] == b[0] && b[0] == c[0] {
        lemma_column_le_transitive(a.drop_first(), b.drop_first(), c.drop_first());
    } else if a.len() > 0 && c.len() > 0 && a[0] == c[0] {
        // a[0] == c[0] while b differs from one of them: keys force b[0] between
        if card_key(a[0]) == card_key(b[0]) {
            lemma_card_key_injective(a[0], b[0]);
        }
    }
}

pub proof fn lemma_column_order_total()
    ensures
        total_ordering(column_order()),
{
    assert forall|a: Seq<Card>| #[trigger] column_order()(a, a) by {
        lemma_column_le_total(a, a);
    }
    assert forall|a: Seq<Card>, b: Seq<Card>| #[trigger]
        column_order()(a, b) && column_order()(b, a) implies a == b by {
        lemma_column_le_antisymmetric(a, b);
    }
    assert forall|a: Seq<Card>, b: Seq<Card>, c: Seq<Card>| #[trigger]
        column_order()(a, b) && #[trigger] column_order()(b, c) implies column_order()(a, c) by {
        lemma_column_le_transitive(a, b, c);
    }
    assert forall|a: Seq<Card>, b: Seq<Card>| #[trigger]
        column_order()(a, b) || column_order()(b, a) by {
        lemma_column_le_total(a, b);
    }
}

/// The key of a card as a machine integer.
pub fn card_key_exec(c: &Card) -> (r: u32)
    ensures
        r as int == card_key(*c),
{
    let s: u32 = c.suit.index() as u32;
    match c.value {
        None => s * 1000,
        Some(v) => s * 1000 + v as u32 + 1,
    }
}

/// Compares two columns in the column order.
pub fn column_le_exec(a: &Vec<Card>, b: &Vec<Card>) -> (r: bool)
    ensures
        r == column_le(a@, b@),
{
    let mut i: usize = 0;
    assert(a@.skip(0) =~= a@);
    assert(b@.skip(0) =~= b@);
    while i < a.len() && i < b.len()
        invariant
            i <= a@.len(),
            i <= b@.len(),
            column_le(a@, b@) == column_le(a@.skip(i as int), b@.skip(i as int)),
        decreases a@.len() - i,
    {
        if a[i] != b[i] {
            assert(a@.skip(i as int)[0] == a@[i as int]);
            assert(b@.skip(i as int)[0] == b@[i as int]);
            return card_key_exec(&a[i]) < card_key_exec(&b[i]);
        }
        assert(a@.skip(i as int).drop_first() =~= a@.skip(i + 1));
        assert(b@.skip(i as int).drop_first() =~= b@.skip(i + 1));
        i = i + 1;
    }
    i == a.len()
}

/// The cards sorted in the card order.
pub fn sorted_cards(v: &Vec<Card>) -> (r: Vec<Card>)
    ensures
        sorted_by(r@, card_order()),
        r@.to_multiset() == v@.to_multiset(),
{
    proof {
        lemma_card_order_total();
    }
    let mut r: Vec<Card> = Vec::new();
    let mut i: usize = 0;
    assert(v@.subrange(0, 0) =~= Seq::<Card>::empty());
    assert(r@ =~= Seq::<Card>::empty());
    while i < v.len()
        invariant
            i <= v@.len(),
            sorted_by(r@, card_order()),
            r@.to_multiset() == v@.subrange(0, i as int).to_multiset(),
            total_ordering(card_order()),
        decreases v@.len() - i,
    {
        let x = v[i];
        let kx = card_key_exec(&x);
        let mut p: usize = 0;
        while p < r.len() && card_key_exec(&r[p]) <= kx
            invariant
                p <= r@.len(),
                kx as int == card_key(x),
                forall|j: int| 0 <= j < p ==> card_le(#[trigger] r@[j], x),
            decreases r@.len() - p,
        {
            p = p + 1;
        }
        proof {
            assert forall|j: int| p <= j < r@.len() implies card_le(x, #[trigger] r@[j]) by {
                assert(card_order()(r@[p as int], r@[j]));
            }
            broadcast use vstd::seq_lib::to_multiset_insert, vstd::seq_lib::to_multiset_build;
            assert(v@.subrange(0, i + 1) =~= v@.subrange(0, i as int).push(x));
        }
        let ghost old_r = r@;
        r.insert(p, x);
        proof {
            assert forall|a: int, b: int| 0 <= a < b < r@.len() implies card_order()(
                #[trigger] r@[a],
                #[trigger] r@[b],
            ) by {
                if b < p {
                    assert(card_order()(old_r[a], old_r[b]));
                } else if a < p && b == p {
                } else if a < p {
                    assert(card_order()(old_r[a], old_r[b - 1]));
                } else if a == p {
                } else {
                    assert(card_order()(old_r[a - 1], old_r[b - 1]));
                }
            }
        }
        i = i + 1;
    }
    assert(v@.subrange(0, v@.len() as int) =~= v@);
    r
}

/// The columns sorted in the column order.
pub fn sorted_columns(v: &[Vec<Card>; 8]) -> (r: Vec<Vec<Card>>)
    ensures
        sorted_by(r@.map_values(|c: Vec<Card>| c@), column_order()),
        r@.map_values(|c: Vec<Card>| c@).to_multiset() == v@.map_values(
            |c: Vec<Card>| c@,
        ).to_multiset(),
{
    proof {
        lemma_column_order_total();
    }
    let ghost vv = v@.map_values(|c: Vec<Card>| c@);
    let mut r: Vec<Vec<Card>> = Vec::new();
    let mut i: usize = 0;
    assert(vv.subrange(0, 0) =~= Seq::<Seq<Card>>::empty());
    assert(r@.map_values(|c: Vec<Card>| c@) =~= Seq::<Seq<Card>>::empty());
    while i < 8
        invariant
            i <= 8,
            vv == v@.map_values(|c: Vec<Card>| c@),
            vv.len() == 8,
            sorted_by(r@.map_values(|c: Vec<Card>| c@), column_order()),
            r@.map_values(|c: Vec<Card>| c@).to_multiset() == vv.subrange(
                0,
                i as int,
            ).to_multiset(),
            total_ordering(column_order()),
        decreases 8 - i,
    {
        let x = v[i].clone();
        assert(x@ =~= vv[i as int]);
        let ghost rv = r@.map_values(|c: Vec<Card>| c@);
        let mut p: usize = 0;
        while p < r.len() && column_le_exec(&r[p], &x)
            invariant
                p <= r@.len(),
                rv == r@.map_values(|c: Vec<Card>| c@),
                forall|j: int| 0 <= j < p ==> column_le(#[trigger] rv[j], x@),
            decreases r@.len() - p,
        {
            p = p + 1;
        }
        proof {
            assert forall|j: int| p <= j < rv.len() implies column_le(x@, #[trigger] rv[j]) by {
                lemma_column_le_total(rv[p as int], x@);
                assert(column_order()(x@, rv[p as int]));
                assert(column_order()(rv[p as int], rv[j]));
            }
            broadcast use vstd::seq_lib::to_multiset_insert, vstd::seq_lib::to_multiset_build;
            assert(vv.subrange(0, i + 1) =~= vv.subrange(0, i as int).push(x@));
        }
        r.insert(p, x);
        let ghost nv = r@.map_values(|c: Vec<Card>| c@);
        proof {
            assert(nv =~= rv.insert(p as int, x@));
            assert forall|a: int, b: int| 0 <= a < b < nv.len() implies column_order()(
                #[trigger] nv[a],
                #[trigger] nv[b],
            ) by {
                if b < p {
                    assert(column_order()(rv[a], rv[b]));
                } else if a < p && b == p {
                } else if a < p {
                    assert(column_order()(rv[a], rv[b - 1]));
                } else if a == p {
                } else {
                    assert(column_order()(rv[a - 1], rv[b - 1]));
                }
            }
        }
        i = i + 1;
    }
    assert(vv.subrange(0, 8) =~= vv);
    r
}

} // verus!
