//! Cards and the trade-in rules: which 3-card sets may be traded and what
//! bonus each set grants.

use vstd::prelude::*;

verus! {

/// The four card kinds. Jokers are wild and carry no territory.
#[derive(Debug, Clone, Copy, PartialEq, Eq, Structural)]
pub enum CardKind {
    Infantry,
    Cavalry,
    Artillery,
    Joker,
}

/// A card: a kind, and (except for Jokers) the territory it is bound to.
#[derive(Debug, Clone, PartialEq)]
pub struct Card {
    pub territory: Option<String>,
    pub kind: CardKind,
}

impl Card {
    pub fn new(territory: Option<String>, kind: CardKind) -> (r: Self)
        ensures
            r.territory == territory,
            r.kind == kind,
    {
        Self { territory, kind }
    }

    pub fn get_type(&self) -> (r: &CardKind)
        ensures
            r == self.kind,
    {
        &self.kind
    }
}

/// How many cards of kind `k` the sequence holds.
pub open spec fn count_kind(s: Seq<CardKind>, k: CardKind) -> int
    decreases s.len(),
{
    if s.len() == 0 {
        0
    } else {
        count_kind(s.drop_last(), k) + if s.last() == k {
            1int
        } else {
            0int
        }
    }
}

/// A set of selected cards is tradeable when it is three of a (non-Joker)
/// kind, one of each non-Joker kind, or reaches three cards with the help of
/// at least one Joker.
pub open spec fn spec_trade_valid(s: Seq<CardKind>) -> bool {
    let i = count_kind(s, CardKind::Infantry);
    let c = count_kind(s, CardKind::Cavalry);
    let a = count_kind(s, CardKind::Artillery);
    let j = count_kind(s, CardKind::Joker);
    ||| i == 3
    ||| c == 3
    ||| a == 3
    ||| (i == 1 && c == 1 && a == 1)
    ||| (j > 0 && i + c + a + j == 3)
}

/// The bonus-army schedule for a traded set, or `None` when the set matches
/// no pattern: three Infantry grant 4 armies, three Cavalry 6, three
/// Artillery 8, one of each 10, and any Joker-completed set 10.
pub open spec fn spec_trade_bonus(s: Seq<CardKind>) -> Option<u16> {
    let i = count_kind(s, CardKind::Infantry);
    let c = count_kind(s, CardKind::Cavalry);
    let a = count_kind(s, CardKind::Artillery);
    let j = count_kind(s, CardKind::Joker);
    if i == 3 {
        Some(4u16)
    } else if c == 3 {
        Some(6u16)
    } else if a == 3 {
        Some(8u16)
    } else if i == 1 && c == 1 && a == 1 {
        Some(10u16)
    } else if j > 0 && (i + j == 3 || c + j == 3 || a + j == 3 || i + c + j == 3 || i + a + j == 3
        || c + a + j == 3) {
        Some(10u16)
    } else {
        None
    }
}

pub proof fn lemma_count_kind_bounds(s: Seq<CardKind>, k: CardKind)
    ensures
        0 <= count_kind(s, k) <= s.len(),
    decreases s.len(),
{
    if s.len() > 0 {
        lemma_count_kind_bounds(s.drop_last(), k);
    }
}

/// Every card has exactly one kind, so the four per-kind counts partition the
/// sequence.
pub proof fn lemma_count_kind_partition(s: Seq<CardKind>)
    ensures
        count_kind(s, CardKind::Infantry) + count_kind(s, CardKind::Cavalry) + count_kind(
            s,
            CardKind::Artillery,
        ) + count_kind(s, CardKind::Joker) == s.len(),
    decreases s.len(),
{
    if s.len() > 0 {
        lemma_count_kind_partition(s.drop_last());
    }
}

/// For a 3-card selection, validity and the bonus schedule agree: a set is
/// tradeable exactly when the schedule assigns it a bonus.
pub proof fn lemma_trade_valid_iff_bonus(s: Seq<CardKind>)
    requires
        s.len() == 3,
    ensures
        spec_trade_valid(s) <==> spec_trade_bonus(s) is Some,
{
    lemma_count_kind_partition(s);
    lemma_count_kind_bounds(s, CardKind::Infantry);
    lemma_count_kind_bounds(s, CardKind::Cavalry);
    lemma_count_kind_bounds(s, CardKind::Artillery);
    lemma_count_kind_bounds(s, CardKind::Joker);
}

/// Counts the cards of kind `k` among `kinds`.
pub fn count_cards_of_kind(kinds: &Vec<CardKind>, k: CardKind) -> (r: usize)
    ensures
        r == count_kind(kinds@, k),
        r <= kinds@.len(),
{
    let mut r: usize = 0;
    let mut idx: usize = 0;
    while idx < kinds.len()
        invariant
            0 <= idx <= kinds@.len(),
            r == count_kind(kinds@.subrange(0, idx as int), k),
            r <= idx,
        decreases kinds@.len() - idx,
    {
        proof {
            assert(kinds@.subrange(0, idx + 1).drop_last() =~= kinds@.subrange(0, idx as int));
            assert(kinds@.subrange(0, idx + 1).last() == kinds@[idx as int]);
        }
        if kinds[idx] == k {
            r = r + 1;
        }
        idx = idx + 1;
    }
    proof {
        assert(kinds@.subrange(0, kinds@.len() as int) =~= kinds@);
    }
    r
}

/// The bonus granted for trading in the given card kinds, or a descriptive
/// error when they form no valid set.
pub fn calculate_trade_in_bonus(card_kinds: &Vec<CardKind>) -> (r: Result<u16, String>)
    ensures
        r is Ok <==> spec_trade_bonus(card_kinds@) is Some,
        r is Ok ==> r->Ok_0 == spec_trade_bonus(card_kinds@)->0,
{
    // the `len` call bounds the selection's length by `usize::MAX`, which the
    // count sums below rely on
    let _hand_size: usize = card_kinds.len();
    let infantry_count = count_cards_of_kind(card_kinds, CardKind::Infantry);
    let cavalry_count = count_cards_of_kind(card_kinds, CardKind::Cavalry);
    let artillery_count = count_cards_of_kind(card_kinds, CardKind::Artillery);
    let joker_count = count_cards_of_kind(card_kinds, CardKind::Joker);
    proof {
        lemma_count_kind_partition(card_kinds@);
        lemma_count_kind_bounds(card_kinds@, CardKind::Infantry);
        lemma_count_kind_bounds(card_kinds@, CardKind::Cavalry);
        lemma_count_kind_bounds(card_kinds@, CardKind::Artillery);
        lemma_count_kind_bounds(card_kinds@, CardKind::Joker);
    }

    if infantry_count == 3 {
        Ok(4)
    } else if cavalry_count == 3 {
        Ok(6)
    } else if artillery_count == 3 {
        Ok(8)
    } else if infantry_count == 1 && cavalry_count == 1 && artillery_count == 1 {
        Ok(10)
    } else if joker_count > 0 {
        let complete = infantry_count + joker_count == 3 || cavalry_count + joker_count == 3
            || artillery_count + joker_count == 3 || infantry_count + cavalry_count + joker_count
            == 3 || infantry_count + artillery_count + joker_count == 3 || cavalry_count
            + artillery_count + joker_count == 3;
        if complete {
            Ok(10)
        } else {
            Err("Invalid combination of cards.".to_owned())
        }
    } else {
        Err("Invalid combination of cards.".to_owned())
    }
}

} // verus!
