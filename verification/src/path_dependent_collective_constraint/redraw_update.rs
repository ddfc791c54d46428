use vstd::prelude::*;
use crate::card::{Card, card_index, card_at, count_card, count_in};
use crate::group::{CompressedGroupConstraint, clamp3, disjoint_flags};
use super::{PathDependentCollectiveConstraint, ActionInfo, rows, lemma_rows, table_ok};
use super::backward::{lone_spec, min_groups, max_groups, holding_count};

verus! {

/// Copies of `card` over the rows of a table, other than row `skip` (no row skipped when
/// `skip` is 7 or more), in wrapping 8-bit arithmetic.
pub(crate) fn table_count_without(t: &Vec<Vec<Card>>, card: Card, skip: usize) -> (r: u8)
    requires
        t@.len() == 7,
        forall|p: int| 0 <= p < 7 ==> (#[trigger] t@[p])@.len() <= 3,
    ensures
        r == count_without(t@, card, skip as int, 7),
{
    let mut n: u8 = 0;
    let mut p: usize = 0;
    while p < 7
        invariant
            p <= 7,
            t@.len() == 7,
            forall|q: int| 0 <= q < 7 ==> (#[trigger] t@[q])@.len() <= 3,
            n == count_without(t@, card, skip as int, p as int),
            n <= 3 * p,
        decreases 7 - p,
    {
        proof { crate::card::lemma_count_card_le_len(t@[p as int]@, card); }
        if p != skip {
            n = n.wrapping_add(count_in(&t[p], card));
        }
        p += 1;
    }
    n
}

pub(crate) proof fn lemma_count_without_all(t: Seq<Vec<Card>>, card: Card, n: int)
    requires
        0 <= n <= t.len(),
    ensures
        count_without(t, card, t.len() as int, n) == super::table_count(rows(t).take(n), card),
    decreases n,
{
    if n > 0 {
        lemma_count_without_all(t, card, n - 1);
        lemma_rows(t, n - 1);
        assert(rows(t).take(n).drop_last() =~= rows(t).take(n - 1));
    }
}

/// Copies of `card` over rows `0..n` of `t` other than row `skip`.
pub open spec fn count_without(t: Seq<Vec<Card>>, card: Card, skip: int, n: int) -> int
    decreases n,
{
    if n <= 0 {
        0
    } else {
        count_without(t, card, skip, n - 1) + if n - 1 == skip { 0int } else { count_card(t[n - 1]@, card) as int }
    }
}

proof fn lemma_table_rows(t: Seq<Vec<Card>>, cap: int)
    requires
        table_ok(rows(t), cap),
    ensures
        t.len() == 7,
        forall|p: int| 0 <= p < 7 ==> (#[trigger] t[p])@.len() <= cap,
{
    assert forall|p: int| 0 <= p < 7 implies (#[trigger] t[p])@.len() <= cap by {
        lemma_rows(t, p);
    }
}

/// The move `a` shows `card` again for player `p`: `p` discards it, or reveals it and keeps
/// it or gives it to the pile.
pub open spec fn shows_card(a: super::SignificantAction, card: Card, p: int) -> bool {
    &&& a.player_spec() == p
    &&& match a.info_spec() {
        ActionInfo::Discard { discard } => (discard == card),
        ActionInfo::RevealRedraw { reveal, relinquish, .. } => (reveal == card && (relinquish == None::<Card> || relinquish == Some(card))),
        _ => false,
    }
}

/// Player `p` shows `card` again after the move at `index`: it made the last move, or a move
/// between shows it (`shows_card`).
pub open spec fn shown_after(h: Seq<super::SignificantAction>, index: int, card: Card, p: int) -> bool {
    p == h[h.len() - 1].player_spec() || exists|j: int| index + 1 <= j < h.len() - 1 && #[trigger] shows_card(h[j], card, p)
}

/// For a reveal of another card than `card` at `index`: its blind redraw must have drawn
/// `card` when its player may still be considered, shows `card` again later, and could not
/// have held it otherwise (impossible for it just before, one dead card, or all copies dead
/// at the end).
pub open spec fn redraw_needed_other(h: Seq<super::SignificantAction>, index: int, card: Card, illegal: Seq<bool>) -> bool {
    let a = h[index];
    let p = a.player_spec() as int;
    let before = h[index - 1].meta_spec();
    &&& a.info_spec() matches ActionInfo::RevealRedraw { redraw, .. } && redraw is None
    &&& !illegal[p]
    &&& shown_after(h, index, card, p)
    &&& {
        ||| before.impossible_view()@[p]@[card_index(card)]
        ||| before.public_view()[p].len() == 1
        ||| super::table_count(h[h.len() - 1].meta_spec().public_view(), card) == 3
    }
}

/// The forward trace of `card` after the moves `2..n` of `h`: which participants may hold a
/// traced copy, and how many traced copies are living and dead. A discard of the card adds a
/// dead copy (one living copy fewer when its player was traced); a reveal of it without giving
/// it up traces the player (and the pile for a blind redraw, or only the pile when another
/// card is drawn) with one more living copy, unless the player was traced; a draw of the card
/// from a traced pile, or an exchange with it, traces the player.
pub open spec fn fwd_trace(h: Seq<super::SignificantAction>, card: Card, n: int) -> (Seq<bool>, int, int)
    decreases n,
{
    if n <= 2 {
        (Seq::new(7, |i: int| false), 0int, 0int)
    } else {
        fwd_step(fwd_trace(h, card, n - 1), h[n - 1], card)
    }
}

/// One move of `fwd_trace`.
pub open spec fn fwd_step(st: (Seq<bool>, int, int), mv: super::SignificantAction, card: Card) -> (Seq<bool>, int, int) {
    let f = st.0;
    let a = st.1;
    let d = st.2;
    let p = mv.player_spec() as int;
    match mv.info_spec() {
        ActionInfo::Discard { discard } => if discard == card {
            (f, if f[p] { clamp3(a - 1) } else { a }, clamp3(d + 1))
        } else {
            st
        },
        ActionInfo::RevealRedraw { reveal, redraw, relinquish } => if reveal == card {
            if relinquish is None {
                match redraw {
                    None => if !f[p] { (f.update(p, true).update(6, true), clamp3(a + 1), d) } else { st },
                    Some(x) => if x == card {
                        if !f[p] { (f.update(p, true), clamp3(a + 1), d) } else { st }
                    } else if !f[p] {
                        (f.update(6, true), clamp3(a + 1), d)
                    } else {
                        st
                    },
                }
            } else {
                st
            }
        } else {
            let drawn = match redraw { None => true, Some(x) => x == card };
            if drawn && f[6] { (f.update(p, true), a, d) } else { st }
        },
        ActionInfo::ExchangeDrawChoice { .. } => if f[6] { (f.update(p, true), a, d) } else { st },
        _ => st,
    }
}

/// Flags set in `a` or in `b`.
pub open spec fn or_flags(a: Seq<bool>, b: Seq<bool>) -> Seq<bool> {
    Seq::new(7, |i: int| a[i] || b[i])
}

/// The traced participants and the copy count (in wrapping 8-bit arithmetic) after the first
/// `k` groups of `gs`, each one whose participants are all untraced adding a copy and its
/// participants.
pub open spec fn comb_trace(f: Seq<bool>, total: int, gs: Seq<CompressedGroupConstraint>, k: int) -> (Seq<bool>, int)
    decreases k,
{
    if k <= 0 {
        (f, total)
    } else {
        let prev = comb_trace(f, total, gs, k - 1);
        if disjoint_flags(prev.0, gs[k - 1].plist()) {
            (or_flags(prev.0, gs[k - 1].plist()), (prev.1 + 1) % 256)
        } else {
            prev
        }
    }
}

/// Copies of `card` over rows `0..n` of `t` other than row `skip`.
pub open spec fn rows_without(t: Seq<Seq<Card>>, card: Card, skip: int, n: int) -> int
    decreases n,
{
    if n <= 0 {
        0
    } else {
        rows_without(t, card, skip, n - 1) + if n - 1 == skip { 0int } else { count_card(t[n - 1], card) as int }
    }
}

proof fn lemma_rows_without(t: Seq<Vec<Card>>, card: Card, skip: int, n: int)
    requires
        0 <= n <= t.len(),
    ensures
        count_without(t, card, skip, n) == rows_without(rows(t), card, skip, n),
    decreases n,
{
    if n > 0 {
        lemma_rows_without(t, card, skip, n - 1);
        lemma_rows(t, n - 1);
    }
}

/// What `need_redraw_update` decides for the move at `index` of `h`: for a reveal, when it is
/// a blind reveal of `card` by a player the forward trace does not hold, true if the trace
/// already counts two copies, false if the backward trace can give the player more than one
/// copy, true if the traces together count three copies; otherwise false unless the redraw
/// was blind, the player is not in `illegal` and shows the card again later
/// (`shown_after`), and the card could not be elsewhere (impossible for the player, one dead
/// card, all copies dead at the end, or, for a reveal of `card`, the two other copies known
/// elsewhere before it). False for any other move.
pub open spec fn redraw_needed(h: Seq<super::SignificantAction>, index: int, card: Card, illegal: Seq<bool>) -> bool {
    let a = h[index];
    let ap = a.player_spec() as int;
    let before = h[index - 1].meta_spec();
    let start = seq![lone_spec(h.last().player_spec() as int)];
    match a.info_spec() {
        ActionInfo::RevealRedraw { reveal, redraw, .. } => {
            let st = fwd_trace(h, card, index);
            let back = min_groups(h, h.len() - 2, index, card, start);
            let total = comb_trace(st.0, st.1 + st.2, back, back.len() as int).1;
            let maxc = match max_groups(h, h.len() - 2, index, card, start) {
                Some(v) => holding_count(v, ap) as int,
                None => 0int,
            };
            let early = reveal == card && redraw is None && !st.0[ap];
            if early && st.1 + st.2 == 2 {
                true
            } else if early && maxc > 1 {
                false
            } else if early && total == 3 {
                true
            } else if redraw is Some || illegal[ap] || !shown_after(h, index, card, ap) {
                false
            } else {
                ||| before.impossible_view()@[ap]@[card_index(card)]
                ||| before.public_view()[ap].len() == 1
                ||| super::table_count(h.last().meta_spec().public_view(), card) == 3
                ||| (reveal == card && rows_without(before.public_view(), card, ap, 7) + rows_without(before.inferred_view(), card, ap, 7) == 2)
            }
        },
        _ => false,
    }
}

impl PathDependentCollectiveConstraint {
    /// Whether the blind redraw of the reveal at `index` must have drawn back
    /// `card_of_interest`: that move redrew blindly, its player is not marked in
    /// `illegal_players`, the player revealed or discarded the card again later (or made the
    /// last move), and the card could not be elsewhere: it was impossible for the player, or
    /// the player had one dead card, or all copies end dead, or the other copies were placed,
    /// or the forward and backward traces of the card leave no other place for it.
    pub fn need_redraw_update(&self, index: usize, card_of_interest: Card, illegal_players: &[bool; 6]) -> (r: bool)
        requires
            self.wf(),
            2 <= index < self.history_view().len() - 1,
        ensures
            r ==> (self.history_view()[index as int].info_spec() matches ActionInfo::RevealRedraw { reveal, redraw, .. }
                && redraw is None
                && (illegal_players[self.history_view()[index as int].player_spec() as int] ==> reveal == card_of_interest)),
            (self.history_view()[index as int].info_spec() matches ActionInfo::RevealRedraw { reveal, .. }
                && reveal != card_of_interest) ==> r == redraw_needed_other(self.history_view(), index as int, card_of_interest,
                    illegal_players@),
            r == redraw_needed(self.history_view(), index as int, card_of_interest, illegal_players@),
    {
        let len = self.history.len();
        let action_player = self.move_player(index);
        let mut shown_again: [bool; 6] = [false; 6];
        let last_player = self.move_player(len - 1);
        shown_again[last_player] = true;
        let mut i: usize = len - 1;
        while i > index + 1
            invariant
                self.wf(),
                len == self.history_view().len(),
                2 <= index,
                index + 1 <= i <= len - 1,
                last_player == self.history_view()[len - 1].player_spec(),
                forall|p: int| 0 <= p < 6 ==> #[trigger] shown_again@[p] == (p == last_player
                    || exists|j: int| i <= j < len - 1 && #[trigger] shows_card(self.history_view()[j], card_of_interest, p)),
            decreases i,
        {
            i -= 1;
            let player_i = self.move_player(i);
            let ghost sh0 = shown_again;
            match self.history[i].action_info() {
                ActionInfo::Discard { discard } => {
                    if *discard == card_of_interest {
                        shown_again[player_i] = true;
                    }
                },
                ActionInfo::RevealRedraw { reveal, relinquish, .. } => {
                    if *reveal == card_of_interest {
                        let counts = match relinquish {
                            Some(x) => *x == card_of_interest,
                            None => true,
                        };
                        if counts {
                            shown_again[player_i] = true;
                        }
                    }
                },
                _ => {},
            }
            proof {
                assert forall|p: int| 0 <= p < 6 implies #[trigger] shown_again@[p] == (p == last_player
                    || exists|j: int| i <= j < len - 1 && #[trigger] shows_card(self.history_view()[j], card_of_interest, p)) by {
                    if exists|j: int| i + 1 <= j < len - 1 && #[trigger] shows_card(self.history_view()[j], card_of_interest, p) {
                        let j = choose|j: int| i + 1 <= j < len - 1 && #[trigger] shows_card(self.history_view()[j], card_of_interest, p);
                        assert(i <= j);
                    }
                    if p != player_i {
                        assert(shown_again@[p] == sh0@[p]);
                        assert(!shows_card(self.history_view()[i as int], card_of_interest, p));
                        if exists|j: int| i <= j < len - 1 && #[trigger] shows_card(self.history_view()[j], card_of_interest, p) {
                            let j = choose|j: int| i <= j < len - 1 && #[trigger] shows_card(self.history_view()[j], card_of_interest, p);
                            assert(j != i);
                        }
                    } else if shows_card(self.history_view()[i as int], card_of_interest, p) {
                        assert(shown_again@[p]);
                    } else {
                        assert(shown_again@[p] == sh0@[p]);
                        if exists|j: int| i <= j < len - 1 && #[trigger] shows_card(self.history_view()[j], card_of_interest, p) {
                            let j = choose|j: int| i <= j < len - 1 && #[trigger] shows_card(self.history_view()[j], card_of_interest, p);
                            assert(j != i);
                        }
                    }
                }
            }
        }
        let backward_groups = self.backward_pass_minimum_cards_shown(index, card_of_interest);
        let max_player_cards = self.backward_max_player_cards(index, card_of_interest);
        let mut forward = CompressedGroupConstraint::zero();
        let ghost h = self.history_view();
        let mut j: usize = 2;
        proof {
            assert(fwd_trace(h, card_of_interest, 2).0 =~= Seq::new(7, |i: int| false));
        }
        while j < index
            invariant
                self.wf(),
                h == self.history_view(),
                2 <= j <= index,
                fwd_trace(h, card_of_interest, j as int).0.len() == 7,
                forall|i: int| 0 <= i < 7 ==> #[trigger] forward.pflag(i) == fwd_trace(h, card_of_interest, j as int).0[i],
                forward.alive_spec() == fwd_trace(h, card_of_interest, j as int).1,
                forward.dead_spec() == fwd_trace(h, card_of_interest, j as int).2,
                index < self.history_view().len(),
            decreases index - j,
        {
            let player_i = self.move_player(j);
            match self.history[j].action_info() {
                ActionInfo::Discard { discard } => {
                    if *discard == card_of_interest {
                        forward.add_dead_count(1);
                        if forward.get_player_flag(player_i) {
                            forward.sub_alive_count(1);
                        }
                    }
                },
                ActionInfo::RevealRedraw { reveal, redraw, relinquish } => {
                    if *reveal == card_of_interest {
                        if relinquish.is_none() {
                            match redraw {
                                None => {
                                    if !forward.get_player_flag(player_i) {
                                        forward.set_player_flag(player_i, true);
                                        forward.set_player_flag(6, true);
                                        forward.add_alive_count(1);
                                    }
                                },
                                Some(d) => {
                                    if *d == card_of_interest {
                                        if !forward.get_player_flag(player_i) {
                                            forward.set_player_flag(player_i, true);
                                            forward.add_alive_count(1);
                                        }
                                    } else if !forward.get_player_flag(player_i) {
                                        forward.set_player_flag(6, true);
                                        forward.add_alive_count(1);
                                    }
                                },
                            }
                        }
                    } else {
                        let drawn = match redraw {
                            None => true,
                            Some(d) => *d == card_of_interest,
                        };
                        if drawn && forward.get_player_flag(6) {
                            forward.set_player_flag(player_i, true);
                        }
                    }
                },
                ActionInfo::ExchangeDrawChoice { .. } => {
                    if forward.get_player_flag(6) {
                        forward.set_player_flag(player_i, true);
                    }
                },
                _ => {},
            }
            proof {
                let st = fwd_trace(h, card_of_interest, j as int);
                assert(fwd_trace(h, card_of_interest, j as int + 1) == fwd_step(st, h[j as int], card_of_interest));
                assert forall|i: int| 0 <= i < 7 implies #[trigger] forward.pflag(i)
                    == fwd_trace(h, card_of_interest, j as int + 1).0[i] by {}
            }
            j += 1;
        }
        let ghost st = fwd_trace(h, card_of_interest, index as int);
        let mut combined = forward;
        let mut total: u8 = combined.count_alive() + combined.count_dead();
        let ghost gs = backward_groups@;
        proof {
            assert(comb_trace(st.0, st.1 + st.2, gs, 0) == (st.0, st.1 + st.2));
        }
        let mut k: usize = 0;
        while k < backward_groups.len()
            invariant
                k <= backward_groups@.len(),
                gs == backward_groups@,
                st.0.len() == 7,
                comb_trace(st.0, st.1 + st.2, gs, k as int).0.len() == 7,
                forall|i: int| 0 <= i < 7 ==> #[trigger] combined.pflag(i) == comb_trace(st.0, st.1 + st.2, gs, k as int).0[i],
                total as int == comb_trace(st.0, st.1 + st.2, gs, k as int).1,
            decreases backward_groups@.len() - k,
        {
            let g = backward_groups[k];
            let ghost prev = comb_trace(st.0, st.1 + st.2, gs, k as int);
            proof {
                assert(combined.plist() =~= prev.0);
            }
            if combined.part_list_is_mut_excl(&g) {
                total = total.wrapping_add(1);
                let mut q: usize = 0;
                while q < 7
                    invariant
                        q <= 7,
                        prev.0.len() == 7,
                        forall|i: int| 0 <= i < q ==> #[trigger] combined.pflag(i) == (prev.0[i] || g.pflag(i)),
                        forall|i: int| q <= i < 7 ==> #[trigger] combined.pflag(i) == prev.0[i],
                    decreases 7 - q,
                {
                    if !combined.get_player_flag(q) {
                        combined.set_player_flag(q, g.get_player_flag(q));
                    }
                    q += 1;
                }
                proof {
                    assert(comb_trace(st.0, st.1 + st.2, gs, k as int + 1) == (or_flags(prev.0, g.plist()), (prev.1 + 1) % 256));
                }
            } else {
                proof {
                    assert(comb_trace(st.0, st.1 + st.2, gs, k as int + 1) == prev);
                }
            }
            k += 1;
        }
        match self.history[index].action_info() {
            ActionInfo::RevealRedraw { reveal, redraw, .. } => {
                if *reveal == card_of_interest && redraw.is_none() && !forward.get_player_flag(action_player) {
                    if forward.count_alive() + forward.count_dead() == 2 {
                        return true;
                    }
                    if max_player_cards > 1 {
                        return false;
                    }
                    if total == 3 {
                        return true;
                    }
                }
                if redraw.is_some() || illegal_players[action_player] || !shown_again[action_player] {
                    return false;
                }
                let before = &self.history[index - 1];
                let before_public = before.public_constraints();
                let before_inferred = before.inferred_constraints();
                let last_public = self.history[len - 1].public_constraints();
                proof {
                    assert(self.history@[index - 1].meta_spec().wf());
                    assert(self.history@[len - 1].meta_spec().wf());
                    lemma_table_rows(before_public@, 2);
                    lemma_table_rows(before_inferred@, 3);
                    lemma_table_rows(last_public@, 2);
                }
                proof {
                    lemma_rows_without(before_public@, card_of_interest, action_player as int, 7);
                    lemma_rows_without(before_inferred@, card_of_interest, action_player as int, 7);
                    lemma_count_without_all(last_public@, card_of_interest, 7);
                    assert(rows(last_public@).take(7) =~= rows(last_public@));
                    assert(shown_again@[action_player as int] == shown_after(self.history_view(), index as int,
                        card_of_interest, action_player as int));
                }
                let card_num = card_of_interest.num();
                before.impossible_constraints()[action_player][card_num]
                    || before_public[action_player].len() == 1
                    || table_count_without(last_public, card_of_interest, 7) == 3
                    || (*reveal == card_of_interest
                        && (table_count_without(before_public, card_of_interest, action_player) as usize)
                            + (table_count_without(before_inferred, card_of_interest, action_player) as usize) == 2)
            },
            _ => false,
        }
    }
}

} // verus!
