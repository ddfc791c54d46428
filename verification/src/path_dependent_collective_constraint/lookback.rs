use vstd::prelude::*;
use crate::card::{Card, card_index, card_at, count_card};
use super::{PathDependentCollectiveConstraint, ActionInfo, rows, lemma_rows, group_rows, lemma_group_rows,
    clone_table, full_start_group, start_groups};

verus! {

/// The last move of `player` found scanning back from `from` down to 2 that ends the
/// search: a reveal of another player showing `card` without redrawing it gives
/// `Some((i, player_i))`; a reveal of `player` with unknown redraw, or an exchange of
/// `player`, gives `None`.
pub open spec fn lookback_check_spec(h: Seq<super::SignificantAction>, from: int, player_id: u8, card: Card) -> Option<(usize, u8)>
    decreases from,
{
    if from < 2 {
        None
    } else {
        let a = h[from];
        if a.player_spec() != player_id {
            match a.info_spec() {
                ActionInfo::RevealRedraw { reveal, redraw, .. } =>
                    if reveal == card && Some(reveal) != redraw {
                        Some((from as usize, a.player_spec()))
                    } else {
                        lookback_check_spec(h, from - 1, player_id, card)
                    },
                _ => lookback_check_spec(h, from - 1, player_id, card),
            }
        } else {
            match a.info_spec() {
                ActionInfo::RevealRedraw { redraw, .. } =>
                    if redraw is None { None } else { lookback_check_spec(h, from - 1, player_id, card) },
                ActionInfo::ExchangeDrawChoice { .. } => None,
                _ => lookback_check_spec(h, from - 1, player_id, card),
            }
        }
    }
}

/// The move `a` is a reveal of `card` by a player other than `player_id` that did not draw
/// the card back.
pub open spec fn reveal_matches(a: super::SignificantAction, player_id: u8, card: Card) -> bool {
    &&& a.player_spec() != player_id
    &&& a.info_spec() matches ActionInfo::RevealRedraw { reveal, redraw, .. } && reveal == card && Some(reveal) != redraw
}

/// The move `a` ends the search for `player_id`: its reveal with unknown redraw or its
/// exchange.
pub open spec fn search_blocked(a: super::SignificantAction, player_id: u8) -> bool {
    &&& a.player_spec() == player_id
    &&& (a.info_spec() matches ActionInfo::RevealRedraw { redraw, .. } && redraw is None) || a.info_spec() is ExchangeDrawChoice
}

/// `lookback_check_spec` in closed form: the latest matching reveal at or before `from` (from
/// 2 on) with no blocking move after it, and none when every matching reveal has a blocking
/// move after it.
pub proof fn lemma_lookback_closed(h: Seq<super::SignificantAction>, from: int, player_id: u8, card: Card)
    requires
        from <= usize::MAX,
    ensures
        match lookback_check_spec(h, from, player_id, card) {
            Some((i, p)) => 2 <= i <= from && reveal_matches(h[i as int], player_id, card) && p == h[i as int].player_spec()
                && forall|j: int| i < j <= from ==> !reveal_matches(#[trigger] h[j], player_id, card) && !search_blocked(h[j], player_id),
            None => forall|j: int| 2 <= j <= from && #[trigger] reveal_matches(h[j], player_id, card)
                ==> exists|k: int| j < k <= from && #[trigger] search_blocked(h[k], player_id),
        },
    decreases from,
{
    if from >= 2 {
        lemma_lookback_closed(h, from - 1, player_id, card);
        let a = h[from];
        if reveal_matches(a, player_id, card) {
        } else if search_blocked(a, player_id) {
            assert forall|j: int| 2 <= j <= from && #[trigger] reveal_matches(h[j], player_id, card)
                implies exists|k: int| j < k <= from && #[trigger] search_blocked(h[k], player_id) by {
                assert(j != from);
                assert(search_blocked(h[from], player_id));
            }
        } else {
            match lookback_check_spec(h, from - 1, player_id, card) {
                Some(_) => {},
                None => {
                    assert forall|j: int| 2 <= j <= from && #[trigger] reveal_matches(h[j], player_id, card)
                        implies exists|k: int| j < k <= from && #[trigger] search_blocked(h[k], player_id) by {
                        assert(j != from);
                        let k = choose|k: int| j < k <= from - 1 && #[trigger] search_blocked(h[k], player_id);
                    }
                },
            }
        }
    }
}

impl PathDependentCollectiveConstraint {
    /// Does nothing.
    pub fn lookback_0(&self) {
    }

    /// Does nothing.
    pub fn lookback_2(&self, index: usize) {
    }

    /// Scans the history back from `history_index` for the reveal of `card` by another
    /// player that was not redrawn; stops at a blind redraw or an exchange of `player_id`.
    pub fn lookback_check(&self, history_index: usize, player_id: u8, card: Card) -> (r: Option<(usize, u8)>)
        requires
            self.wf(),
            history_index < self.history_view().len(),
        ensures
            r == lookback_check_spec(self.history_view(), history_index as int, player_id, card),
            match r {
                Some((i, p)) => 2 <= i <= history_index && reveal_matches(self.history_view()[i as int], player_id, card)
                    && p == self.history_view()[i as int].player_spec()
                    && forall|j: int| i < j <= history_index ==> !reveal_matches(#[trigger] self.history_view()[j], player_id, card)
                        && !search_blocked(self.history_view()[j], player_id),
                None => forall|j: int| 2 <= j <= history_index && #[trigger] reveal_matches(self.history_view()[j], player_id, card)
                    ==> exists|k: int| j < k <= history_index && #[trigger] search_blocked(self.history_view()[k], player_id),
            },
    {
        proof { lemma_lookback_closed(self.history_view(), history_index as int, player_id, card); }
        let mut i: usize = history_index;
        while i >= 2
            invariant
                i <= history_index,
                history_index < self.history@.len(),
                lookback_check_spec(self.history@, history_index as int, player_id, card)
                    == lookback_check_spec(self.history@, i as int, player_id, card),
            decreases i,
        {
            let player_i = self.history[i].player();
            match self.history[i].action_info() {
                ActionInfo::RevealRedraw { reveal, redraw, .. } => {
                    if player_i != player_id {
                        if *reveal == card && Some(*reveal) != *redraw {
                            proof { lemma_lookback_closed(self.history_view(), history_index as int, player_id, card); }
                            return Some((i, player_i));
                        }
                    } else if redraw.is_none() {
                        proof { lemma_lookback_closed(self.history_view(), history_index as int, player_id, card); }
                        return None;
                    }
                },
                ActionInfo::ExchangeDrawChoice { .. } => {
                    if player_i == player_id {
                        proof { lemma_lookback_closed(self.history_view(), history_index as int, player_id, card); }
                        return None;
                    }
                },
                _ => {},
            }
            i -= 1;
        }
        proof { lemma_lookback_closed(self.history_view(), history_index as int, player_id, card); }
        None
    }

    /// Whether, in the facts stored with the move before `history_index`, the player
    /// could not hold `card`.
    pub fn lookback_check_2(&self, history_index: usize, player_id: usize, card: Card) -> (r: bool)
        requires
            self.wf(),
            1 <= history_index <= self.history_view().len(),
            player_id < 7,
        ensures
            r == self.history_view()[history_index - 1].meta_spec().impossible_view()@[player_id as int]@[card_index(card)],
    {
        let imp = self.history[history_index - 1].impossible_constraints();
        imp[player_id][card.num()]
    }

    /// Back to the start state, keeping the known cards stored with the `Start` entry
    /// and the move counter.
    pub(crate) fn regenerate_game_start(&mut self)
        requires old(self).wf(),
        ensures
            final(self).wf(),
            final(self).public_view() == Seq::new(7, |i: int| Seq::<Card>::empty()),
            final(self).inferred_view() == old(self).history_view()[0].meta_spec().inferred_view(),
            forall|c: int| 0 <= c < 5 ==> #[trigger] final(self).groups_view()[c].len() == 1
                && full_start_group(final(self).groups_view()[c][0], card_at(c)),
            super::no_impossibilities(final(self).impossible_view()),
            final(self).history_view() == old(self).history_view(),
            final(self).move_no_spec() == old(self).move_no_spec(),
    {
        self.public_constraints = super::empty_table();
        let start_inferred = clone_table(self.history[0].inferred_constraints());
        self.inferred_constraints = start_inferred;
        self.group_constraints = start_groups();
        self.impossible_constraints = [[false; 5]; 7];
        proof {
            assert forall|c: int| 0 <= c < 5 implies #[trigger] self.groups_view()[c].len() == 1
                && full_start_group(self.groups_view()[c][0], card_at(c)) by {
                lemma_group_rows(self.group_constraints@, c);
            }
        }
    }
}

} // verus!
