use vstd::prelude::*;
use crate::card::{Card, card_index, card_at, count_card, count_in, swap_remove_card, swap_remove_card_from};
use super::{PathDependentCollectiveConstraint, ActionInfo, SignificantAction, rows, lemma_rows, table_count, clone_table,
    clone_cards, empty_table};
use super::variants::{redraw_none_variants, reveal_redraw_before, tables};
use super::redraw_update::{table_count_without, lemma_count_without_all, count_without};

verus! {

/// A table of dead cards `public` and known cards `inferred` that can describe a game: seven
/// rows each, at most two cards (dead or known) per player, no dead card and at most three
/// known cards for the pile, and at most three copies of each card.
pub open spec fn valid_state(public: Seq<Seq<Card>>, inferred: Seq<Seq<Card>>) -> bool {
    &&& public.len() == 7
    &&& inferred.len() == 7
    &&& forall|p: int| 0 <= p < 6 ==> #[trigger] public[p].len() + inferred[p].len() <= 2
    &&& public[6].len() == 0
    &&& inferred[6].len() <= 3
    &&& forall|c: Card| #[trigger] table_count(public, c) + table_count(inferred, c) <= 3
}

/// Player `p` can hold exactly `cards` alongside the dead cards `public` and the known cards
/// `inferred`: they fit in its lives, its known cards are among them, and no card then has
/// more than three copies.
pub open spec fn fits_cards(public: Seq<Seq<Card>>, inferred: Seq<Seq<Card>>, p: int, cards: Seq<Card>) -> bool {
    &&& (p < 6 ==> public[p].len() + cards.len() <= 2)
    &&& (p == 6 ==> cards.len() <= 3)
    &&& forall|c: Card| #[trigger] card_fits(public, inferred, p, cards, c)
}

/// For card `c`: player `p`'s known copies are among `cards`, and with `cards` in place of them
/// there are at most three copies in the table.
pub open spec fn card_fits(public: Seq<Seq<Card>>, inferred: Seq<Seq<Card>>, p: int, cards: Seq<Card>, c: Card) -> bool {
    &&& count_card(inferred[p], c) <= count_card(cards, c)
    &&& table_count(public, c) + table_count(inferred, c) - count_card(inferred[p], c) + count_card(cards, c) <= 3
}

/// Seven empty rows.
pub open spec fn empty_rows() -> Seq<Seq<Card>> {
    Seq::new(7, |i: int| Seq::<Card>::empty())
}

/// The known cards that the last move of `h` shows: a discarded card, a revealed card (and a
/// known redraw in the pile), or the cards given back and drawn in an exchange.
pub open spec fn seed_inferred(h: Seq<SignificantAction>) -> Seq<Seq<Card>> {
    let last = h.last();
    let p = last.player_spec() as int;
    match last.info_spec() {
        ActionInfo::Discard { discard } => empty_rows().update(p, seq![discard]),
        ActionInfo::RevealRedraw { reveal, redraw, .. } => {
            let t = empty_rows().update(p, seq![reveal]);
            match redraw {
                Some(x) => t.update(6, seq![x]),
                None => t,
            }
        },
        ActionInfo::ExchangeDrawChoice { draw, relinquish } => empty_rows().update(p, relinquish@).update(6, draw@),
        _ => empty_rows(),
    }
}

/// Going back from move `il` of `h` to move `ioi`, with dead cards `public` and known cards
/// `inferred` after move `il`, some way of undoing the moves keeps a valid table and ends with
/// the player of move `ioi` able to hold exactly `cards`: a discard goes back from dead to
/// known; a reveal with a known redraw is undone (`reveal_redraw_before`); a reveal with an
/// unknown redraw and nothing given up tries each earlier table (`redraw_none_variants`, see
/// `any_possible`); any other move ends the search without success.
pub open spec fn possible_from(h: Seq<SignificantAction>, il: int, ioi: int, public: Seq<Seq<Card>>,
    inferred: Seq<Seq<Card>>, cards: Seq<Card>) -> bool
    decreases il, 0int,
{
    if !valid_state(public, inferred) {
        false
    } else if il <= ioi || il <= 0 {
        fits_cards(public, inferred, h[ioi].player_spec() as int, cards)
    } else {
        let q = h[il].player_spec() as int;
        match h[il].info_spec() {
            ActionInfo::Discard { discard } => possible_from(h, il - 1, ioi, public.update(q, public[q].push(discard)),
                inferred.update(q, swap_remove_card(inferred[q], discard)), cards),
            ActionInfo::RevealRedraw { reveal, redraw, relinquish } => {
                if redraw is Some {
                    possible_from(h, il - 1, ioi, public, reveal_redraw_before(inferred, reveal, redraw.unwrap(), q), cards)
                } else if relinquish is None {
                    let vs = redraw_none_variants(inferred, q, reveal);
                    any_possible(h, il - 1, ioi, public, vs, cards, vs.len() as int)
                } else {
                    false
                }
            },
            _ => false,
        }
    }
}

/// Some table among the first `n` of `vs`, taken as the known cards after move `il`, passes
/// `possible_from`.
pub open spec fn any_possible(h: Seq<SignificantAction>, il: int, ioi: int, public: Seq<Seq<Card>>,
    vs: Seq<Seq<Seq<Card>>>, cards: Seq<Card>, n: int) -> bool
    decreases il, n,
{
    if n <= 0 || il < 0 {
        false
    } else {
        any_possible(h, il, ioi, public, vs, cards, n - 1) || possible_from(h, il, ioi, public, vs[n - 1], cards)
    }
}

proof fn lemma_any_possible_grows(h: Seq<SignificantAction>, il: int, ioi: int, public: Seq<Seq<Card>>,
    vs: Seq<Seq<Seq<Card>>>, cards: Seq<Card>, m: int, n: int)
    requires
        m <= n,
        any_possible(h, il, ioi, public, vs, cards, m),
    ensures
        any_possible(h, il, ioi, public, vs, cards, n),
    decreases n - m,
{
    if m < n {
        lemma_any_possible_grows(h, il, ioi, public, vs, cards, m, n - 1);
    }
}

/// Copies of `card` over a table of seven rows of at most three cards.
fn copies_of(t: &Vec<Vec<Card>>, card: Card) -> (r: u8)
    requires
        t@.len() == 7,
        forall|p: int| 0 <= p < 7 ==> (#[trigger] t@[p])@.len() <= 3,
    ensures
        r == table_count(rows(t@), card),
        r <= 21,
{
    let n = table_count_without(t, card, 7);
    proof {
        lemma_count_without_all(t@, card, 7);
        assert(rows(t@).take(7) =~= rows(t@));
        lemma_copies_bound(t@, card, 7);
    }
    n
}

proof fn lemma_copies_bound(t: Seq<Vec<Card>>, card: Card, n: int)
    requires
        0 <= n <= t.len(),
        forall|p: int| 0 <= p < t.len() ==> (#[trigger] t[p])@.len() <= 3,
    ensures
        count_without(t, card, t.len() as int, n) <= 3 * n,
    decreases n,
{
    if n > 0 {
        lemma_copies_bound(t, card, n - 1);
        crate::card::lemma_count_card_le_len(t[n - 1]@, card);
    }
}

/// Whether `public` and `inferred` form a valid table (`valid_state`).
fn state_valid(public: &Vec<Vec<Card>>, inferred: &Vec<Vec<Card>>) -> (r: bool)
    ensures
        r == valid_state(rows(public@), rows(inferred@)),
{
    if public.len() != 7 || inferred.len() != 7 {
        return false;
    }
    let ghost pv = rows(public@);
    let ghost iv = rows(inferred@);
    let mut p: usize = 0;
    while p < 7
        invariant
            p <= 7,
            public@.len() == 7,
            inferred@.len() == 7,
            pv == rows(public@),
            iv == rows(inferred@),
            forall|q: int| 0 <= q < p && q < 6 ==> #[trigger] pv[q].len() + iv[q].len() <= 2,
            p == 7 ==> pv[6].len() == 0 && iv[6].len() <= 3,
        decreases 7 - p,
    {
        proof {
            lemma_rows(public@, p as int);
            lemma_rows(inferred@, p as int);
        }
        if p < 6 {
            if public[p].len() > 2 || inferred[p].len() > 2 - public[p].len() {
                return false;
            }
        } else {
            if public[p].len() != 0 || inferred[p].len() > 3 {
                return false;
            }
        }
        p += 1;
    }
    proof {
        assert forall|q: int| 0 <= q < 7 implies (#[trigger] public@[q])@.len() <= 3 by {
            lemma_rows(public@, q);
        }
        assert forall|q: int| 0 <= q < 7 implies (#[trigger] inferred@[q])@.len() <= 3 by {
            lemma_rows(inferred@, q);
            lemma_rows(public@, q);
            if q < 6 { assert(rows(public@)[q].len() + rows(inferred@)[q].len() <= 2); }
        }
    }
    let mut c: usize = 0;
    while c < 5
        invariant
            c <= 5,
            public@.len() == 7,
            inferred@.len() == 7,
            forall|q: int| 0 <= q < 7 ==> (#[trigger] public@[q])@.len() <= 3,
            forall|q: int| 0 <= q < 7 ==> (#[trigger] inferred@[q])@.len() <= 3,
            forall|x: int| 0 <= x < c ==> table_count(rows(public@), card_at(x)) + table_count(rows(inferred@), card_at(x)) <= 3,
        decreases 5 - c,
    {
        let card = Card::from_num(c);
        let a = copies_of(public, card);
        let b = copies_of(inferred, card);
        if a + b > 3 {
            return false;
        }
        c += 1;
    }
    proof {
        assert forall|cd: Card| #[trigger] table_count(rows(public@), cd) + table_count(rows(inferred@), cd) <= 3 by {
            crate::card::lemma_card_index_roundtrip(cd);
            assert(card_at(card_index(cd)) == cd);
        }
    }
    true
}

/// Whether player `p` can hold exactly `cards` in the table (`fits_cards`).
fn cards_fit(public: &Vec<Vec<Card>>, inferred: &Vec<Vec<Card>>, p: usize, cards: &Vec<Card>) -> (r: bool)
    requires
        valid_state(rows(public@), rows(inferred@)),
        p < 7,
        cards@.len() <= 3,
    ensures
        r == fits_cards(rows(public@), rows(inferred@), p as int, cards@),
{
    proof {
        assert forall|q: int| 0 <= q < 7 implies (#[trigger] public@[q])@.len() <= 3 by {
            lemma_rows(public@, q);
        }
        assert forall|q: int| 0 <= q < 7 implies (#[trigger] inferred@[q])@.len() <= 3 by {
            lemma_rows(inferred@, q);
            lemma_rows(public@, q);
            if q < 6 { assert(rows(public@)[q].len() + rows(inferred@)[q].len() <= 2); }
        }
        lemma_rows(public@, p as int);
        lemma_rows(inferred@, p as int);
    }
    if p < 6 {
        if public[p].len() + cards.len() > 2 {
            return false;
        }
    }
    let mut c: usize = 0;
    while c < 5
        invariant
            c <= 5,
            p < 7,
            cards@.len() <= 3,
            public@.len() == 7,
            inferred@.len() == 7,
            forall|q: int| 0 <= q < 7 ==> (#[trigger] public@[q])@.len() <= 3,
            forall|q: int| 0 <= q < 7 ==> (#[trigger] inferred@[q])@.len() <= 3,
            rows(inferred@)[p as int] == inferred@[p as int]@,
            valid_state(rows(public@), rows(inferred@)),
            forall|x: int| 0 <= x < c ==> #[trigger] card_fits(rows(public@), rows(inferred@), p as int, cards@, card_at(x)),
        decreases 5 - c,
    {
        let card = Card::from_num(c);
        let own = count_in(&inferred[p], card);
        let want = count_in(cards, card);
        proof { crate::card::lemma_count_card_le_len(cards@, card); }
        let a = copies_of(public, card);
        let b = copies_of(inferred, card);
        proof {
            crate::card::lemma_count_card_le_len(inferred@[p as int]@, card);
            assert(table_count(rows(public@), card) + table_count(rows(inferred@), card) <= 3);
        }
        if own > want {
            proof { assert(!card_fits(rows(public@), rows(inferred@), p as int, cards@, card)); }
            return false;
        }
        if a + b + want > 3 + own {
            proof { assert(!card_fits(rows(public@), rows(inferred@), p as int, cards@, card)); }
            return false;
        }
        c += 1;
    }
    proof {
        assert forall|cd: Card| #[trigger] card_fits(rows(public@), rows(inferred@), p as int, cards@, cd) by {
            crate::card::lemma_card_index_roundtrip(cd);
            assert(card_fits(rows(public@), rows(inferred@), p as int, cards@, card_at(card_index(cd))));
        }
    }
    true
}

impl PathDependentCollectiveConstraint {
    /// Whether the hypothesised tables at `index_loop` cannot be shown impossible: `Some(true)`
    /// when they form a valid table (`valid_state`), `None` otherwise.
    pub fn is_valid_combination(&self, index_loop: usize, index_of_interest: usize, public_constraints: &Vec<Vec<Card>>,
        inferred_constraints: &Vec<Vec<Card>>, cards: &Vec<Card>) -> (r: Option<bool>)
        ensures
            r == if valid_state(rows(public_constraints@), rows(inferred_constraints@)) { Some(true) } else { None::<bool> },
    {
        if state_valid(public_constraints, inferred_constraints) { Some(true) } else { None }
    }

    /// Whether, going back from the last move to move `index`, no way of undoing the moves lets
    /// the player of move `index` hold exactly `cards` (`possible_from`, starting from what the
    /// last move shows).
    pub fn impossible_to_have_cards(&self, index: usize, cards: &Vec<Card>) -> (r: bool)
        requires
            self.wf(),
            2 <= index < self.history_view().len(),
            cards@.len() <= 3,
        ensures
            r == !possible_from(self.history_view(), self.history_view().len() - 2, index as int, empty_rows(),
                seed_inferred(self.history_view()), cards@),
    {
        let mut public = empty_table();
        let mut inferred = empty_table();
        let last = self.history.len() - 1;
        let p = self.move_player(last);
        let ghost e = empty_rows();
        proof {
            assert(rows(public@) =~= e);
            lemma_rows(inferred@, p as int);
            lemma_rows(inferred@, 6);
        }
        match self.history[last].action_info() {
            ActionInfo::Discard { discard } => {
                let mut row = Vec::new();
                row.push(*discard);
                inferred.set(p, row);
                proof { assert(rows(inferred@) =~= e.update(p as int, seq![*discard])); }
            },
            ActionInfo::RevealRedraw { reveal, redraw, .. } => {
                let mut row = Vec::new();
                row.push(*reveal);
                inferred.set(p, row);
                proof { assert(rows(inferred@) =~= e.update(p as int, seq![*reveal])); }
                match redraw {
                    Some(x) => {
                        let ghost before = rows(inferred@);
                        let mut pile = Vec::new();
                        pile.push(*x);
                        inferred.set(6, pile);
                        proof { assert(rows(inferred@) =~= before.update(6, seq![*x])); }
                    },
                    None => {},
                }
            },
            ActionInfo::ExchangeDrawChoice { draw, relinquish } => {
                inferred.set(p, clone_cards(relinquish));
                let ghost before = rows(inferred@);
                proof { assert(before =~= e.update(p as int, relinquish@)); }
                inferred.set(6, clone_cards(draw));
                proof { assert(rows(inferred@) =~= before.update(6, draw@)); }
            },
            _ => {
                proof { assert(rows(inferred@) =~= e); }
            },
        }
        proof { assert(rows(inferred@) == seed_inferred(self.history_view())); }
        let found = self.possible_to_have_cards_recurse(last - 1, index, &mut public, &mut inferred, cards);
        match found {
            Some(b) => !b,
            None => true,
        }
    }

    /// The backward search of `impossible_to_have_cards` from move `index_loop`, with the dead
    /// and known cards after it: `Some(possible_from(..))`. The tables passed in are left as
    /// they are.
    #[verifier::rlimit(100)]
    #[verifier::spinoff_prover]
    pub fn possible_to_have_cards_recurse(&self, index_loop: usize, index_of_interest: usize,
        public_constraints: &mut Vec<Vec<Card>>, inferred_constraints: &mut Vec<Vec<Card>>, cards: &Vec<Card>) -> (r: Option<bool>)
        requires
            self.wf(),
            2 <= index_of_interest < self.history_view().len(),
            index_loop < self.history_view().len(),
            cards@.len() <= 3,
        ensures
            r == Some(possible_from(self.history_view(), index_loop as int, index_of_interest as int,
                rows(old(public_constraints)@), rows(old(inferred_constraints)@), cards@)),
            final(public_constraints)@ == old(public_constraints)@,
            final(inferred_constraints)@ == old(inferred_constraints)@,
        decreases index_loop,
    {
        let ghost h = self.history_view();
        let ghost pv = rows(public_constraints@);
        let ghost iv = rows(inferred_constraints@);
        if self.is_valid_combination(index_loop, index_of_interest, public_constraints, inferred_constraints, cards).is_none() {
            return Some(false);
        }
        if index_loop <= index_of_interest || index_loop == 0 {
            let poi = self.move_player(index_of_interest);
            return Some(cards_fit(public_constraints, inferred_constraints, poi, cards));
        }
        let q = self.move_player(index_loop);
        proof {
            lemma_rows(public_constraints@, q as int);
            lemma_rows(inferred_constraints@, q as int);
        }
        match self.history[index_loop].action_info() {
            ActionInfo::Discard { discard } => {
                let mut p2 = clone_table(public_constraints);
                let mut dead_row = clone_cards(&p2[q]);
                dead_row.push(*discard);
                p2.set(q, dead_row);
                let mut i2 = clone_table(inferred_constraints);
                let mut row = clone_cards(&i2[q]);
                swap_remove_card_from(&mut row, *discard);
                i2.set(q, row);
                proof {
                    assert(rows(p2@) =~= pv.update(q as int, pv[q as int].push(*discard)));
                    assert(rows(i2@) =~= iv.update(q as int, swap_remove_card(iv[q as int], *discard)));
                }
                self.possible_to_have_cards_recurse(index_loop - 1, index_of_interest, &mut p2, &mut i2, cards)
            },
            ActionInfo::RevealRedraw { reveal, redraw, relinquish } => {
                match redraw {
                    Some(x) => {
                        let mut p2 = clone_table(public_constraints);
                        let mut i2 = clone_table(inferred_constraints);
                        Self::modify_variants_reveal_redraw(*reveal, *x, q, &mut i2);
                        self.possible_to_have_cards_recurse(index_loop - 1, index_of_interest, &mut p2, &mut i2, cards)
                    },
                    None => {
                        if relinquish.is_some() {
                            return Some(false);
                        }
                        let vs = Self::return_variants_reveal_redraw_none_opt(*reveal, q, inferred_constraints);
                        let ghost tv = redraw_none_variants(iv, q as int, *reveal);
                        proof { assert(tables(vs@) == tv); }
                        let mut k: usize = 0;
                        while k < vs.len()
                            invariant
                                self.wf(),
                                h == self.history_view(),
                                2 <= index_of_interest < index_loop,
                                index_loop < h.len(),
                                cards@.len() <= 3,
                                tables(vs@) == tv,
                                valid_state(pv, iv),
                                iv == rows(inferred_constraints@),
                                q == h[index_loop as int].player_spec(),
                                h[index_loop as int].info_spec() == (ActionInfo::RevealRedraw { reveal: *reveal, redraw: None, relinquish: None }),
                                tv == redraw_none_variants(iv, q as int, *reveal),
                                k <= vs@.len(),
                                !any_possible(h, index_loop - 1, index_of_interest as int, pv, tv, cards@, k as int),
                                rows(public_constraints@) == pv,
                            decreases vs@.len() - k,
                        {
                            let mut p2 = clone_table(public_constraints);
                            let mut v = clone_table(&vs[k]);
                            proof { assert(rows(v@) == tv[k as int]); }
                            proof { assert(rows(p2@) == pv); }
                            let found = self.possible_to_have_cards_recurse(index_loop - 1, index_of_interest, &mut p2, &mut v, cards);
                            if found == Some(true) {
                                proof {
                                    assert(any_possible(h, index_loop - 1, index_of_interest as int, pv, tv, cards@, k as int + 1));
                                    lemma_any_possible_grows(h, index_loop - 1, index_of_interest as int, pv, tv, cards@,
                                        k as int + 1, tv.len() as int);
                                }
                                return Some(true);
                            }
                            k += 1;
                        }
                        proof { assert(tv.len() == vs@.len()); }
                        Some(false)
                    },
                }
            },
            _ => Some(false),
        }
    }
}

} // verus!
