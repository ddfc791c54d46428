use vstd::prelude::*;
use crate::card::{Card, card_index, card_at, count_card, contains_card, swap_remove_card, swap_remove_card_from};
use super::{PathDependentCollectiveConstraint, ActionInfo, SignificantAction, lemma_rows};
use super::impossibility::{impossible_consistent, impossible_entry};
use super::table_count;
use super::mutation::all_known_group;
use super::death::dead_pruned_list;
use super::redraw_update::redraw_needed;

verus! {

/// Moves and players of two histories agree entry by entry.
pub open spec fn same_moves(a: Seq<SignificantAction>, b: Seq<SignificantAction>) -> bool {
    &&& a.len() == b.len()
    &&& forall|i: int| 0 <= i < a.len() ==> (#[trigger] a[i]).info_spec() == b[i].info_spec()
        && a[i].player_spec() == b[i].player_spec()
}

/// The last entry's move and player agree, and the lengths.
pub open spec fn same_last_move(a: Seq<SignificantAction>, b: Seq<SignificantAction>) -> bool {
    &&& a.len() == b.len()
    &&& a.len() > 0 ==> a[a.len() - 1].info_spec() == b[b.len() - 1].info_spec()
        && a[a.len() - 1].player_spec() == b[b.len() - 1].player_spec()
}

/// `info` with its replacement known to be `card`, when it is a reveal.
pub open spec fn with_redraw(info: ActionInfo, card: Card) -> ActionInfo {
    match info {
        ActionInfo::RevealRedraw { reveal, relinquish, .. } => ActionInfo::RevealRedraw { reveal, redraw: Some(card), relinquish },
        _ => info,
    }
}

/// `after` is the reveal `before`, whose replacement was unknown, with the replacement known.
pub open spec fn redraw_filled(after: ActionInfo, before: ActionInfo) -> bool {
    &&& before matches ActionInfo::RevealRedraw { redraw, .. } && redraw is None
    &&& exists|c: Card| #[trigger] with_redraw(before, c) == after
}

/// What looking back may learn of a history: the same entries, players and moves, except
/// that a reveal whose replacement was unknown may have it known now.
pub open spec fn redraws_learned(after: Seq<SignificantAction>, before: Seq<SignificantAction>) -> bool {
    &&& after.len() == before.len()
    &&& forall|i: int| 0 <= i < after.len() ==> (#[trigger] after[i]).player_spec() == before[i].player_spec()
        && (after[i].info_spec().same_info(before[i].info_spec()) || redraw_filled(after[i].info_spec(), before[i].info_spec()))
}

/// Learning twice is learning once.
pub proof fn lemma_redraws_learned_trans(c: Seq<SignificantAction>, b: Seq<SignificantAction>, a: Seq<SignificantAction>)
    requires
        redraws_learned(b, a),
        redraws_learned(c, b),
    ensures
        redraws_learned(c, a),
{
    assert forall|i: int| 0 <= i < c.len() implies (#[trigger] c[i]).player_spec() == a[i].player_spec()
        && (c[i].info_spec().same_info(a[i].info_spec()) || redraw_filled(c[i].info_spec(), a[i].info_spec())) by {
        let (ai, bi, ci) = (a[i].info_spec(), b[i].info_spec(), c[i].info_spec());
        assert(bi.same_info(ai) || redraw_filled(bi, ai));
        assert(ci.same_info(bi) || redraw_filled(ci, bi));
        if redraw_filled(bi, ai) {
            let x = choose|x: Card| #[trigger] with_redraw(ai, x) == bi;
            if ci.same_info(bi) {
                assert(with_redraw(ai, x) == ci);
            }
        } else if redraw_filled(ci, bi) {
            let x = choose|x: Card| #[trigger] with_redraw(bi, x) == ci;
            assert(with_redraw(ai, x) == ci);
        }
    }
}

/// Learning on a history is learning on each of its prefixes.
pub proof fn lemma_redraws_learned_take(b: Seq<SignificantAction>, a: Seq<SignificantAction>, n: int)
    requires
        redraws_learned(b, a),
        0 <= n <= a.len(),
    ensures
        redraws_learned(b.take(n), a.take(n)),
{
    assert forall|i: int| 0 <= i < n implies (#[trigger] b.take(n)[i]).player_spec() == a.take(n)[i].player_spec()
        && (b.take(n)[i].info_spec().same_info(a.take(n)[i].info_spec())
            || redraw_filled(b.take(n)[i].info_spec(), a.take(n)[i].info_spec())) by {
        assert(b.take(n)[i] == b[i]);
        assert(a.take(n)[i] == a[i]);
    }
}

/// The dead cards of `p` that the moves before entry `n` of `h` record: each discard by `p`
/// adds its card while `p` has fewer than two.
pub open spec fn discards_before(h: Seq<SignificantAction>, n: int, p: int) -> Seq<Card>
    decreases n,
{
    if n <= 2 {
        Seq::empty()
    } else {
        let prev = discards_before(h, n - 1, p);
        match h[n - 1].info_spec() {
            ActionInfo::Discard { discard } =>
                if h[n - 1].player_spec() == p && prev.len() < 2 { prev.push(discard) } else { prev },
            _ => prev,
        }
    }
}

/// The dead cards of `s` are those its history records.
pub open spec fn dead_from_history(s: PathDependentCollectiveConstraint) -> bool {
    forall|p: int| 0 <= p < 7 ==> #[trigger] s.public_view()[p] == discards_before(s.history_view(), s.history_view().len() as int, p)
}

/// The dead cards of `s` are those its history records before its last entry.
pub open spec fn dead_before_last(s: PathDependentCollectiveConstraint) -> bool {
    forall|p: int| 0 <= p < 7 ==> #[trigger] s.public_view()[p]
        == discards_before(s.history_view(), s.history_view().len() - 1, p)
}

/// At the start of a game no card is dead and none is recorded.
pub proof fn lemma_start_dead_from_history(s: PathDependentCollectiveConstraint)
    requires
        s.at_game_start(),
    ensures
        dead_from_history(s),
{
}

/// A state whose dead cards and history agree with those of another, up to learned redraws,
/// keeps its dead cards recorded by its history.
pub proof fn lemma_dead_from_history_learned(s: PathDependentCollectiveConstraint, t: PathDependentCollectiveConstraint)
    requires
        dead_from_history(t),
        s.public_view() == t.public_view(),
        redraws_learned(s.history_view(), t.history_view()),
    ensures
        dead_from_history(s),
{
    assert forall|p: int| 0 <= p < 7 implies #[trigger] s.public_view()[p]
        == discards_before(s.history_view(), s.history_view().len() as int, p) by {
        lemma_discards_learned(s.history_view(), t.history_view(), t.history_view().len() as int, p);
    }
}

/// Scanning the moves before entry `i` of `h` back to the first move, nothing stops the
/// drawn `card` from having been in the pile from the start: each reveal drew its card back,
/// or revealed another card while the facts before it leave room for `card` with its player;
/// each exchange is one whose cards are unknown.
pub open spec fn continual_clear(h: Seq<SignificantAction>, card: Card, i: int) -> bool
    decreases i,
{
    if i <= 2 {
        true
    } else {
        let a = h[i - 1];
        let before = h[i - 2].meta_spec();
        let ok = match a.info_spec() {
            ActionInfo::RevealRedraw { reveal, redraw, .. } =>
                redraw == Some(reveal) || (reveal != card && !(super::known_count_spec(before.public_view(),
                    before.inferred_view(), card) == 2 && !before.inferred_view()[a.player_spec() as int].contains(card))),
            ActionInfo::ExchangeDrawChoice { draw, relinquish } => draw@.len() == 0 && relinquish@.len() == 0,
            _ => true,
        };
        ok && continual_clear(h, card, i - 1)
    }
}

/// The last move of `h` is a discard or a reveal with unknown redraw, by a player who made
/// no move before it.
pub open spec fn first_move_shown(h: Seq<SignificantAction>) -> bool {
    let last = h.len() - 1;
    &&& last >= 2
    &&& (h[last].info_spec() is Discard || (h[last].info_spec() matches ActionInfo::RevealRedraw { redraw, .. } && redraw is None))
    &&& forall|k: int| 2 <= k < last ==> #[trigger] h[k].player_spec() != h[last].player_spec()
}

/// The card a discard or a reveal shows.
pub open spec fn shown_in(info: ActionInfo) -> Card {
    match info {
        ActionInfo::Discard { discard } => discard,
        ActionInfo::RevealRedraw { reveal: shown, .. } => shown,
        _ => Card::Ambassador,
    }
}

/// Some reveal of `before` at or after `lo` (before its last move) whose replacement was
/// unknown is, in `after`, recorded as having drawn `card`.
pub open spec fn redraw_recorded(after: Seq<SignificantAction>, before: Seq<SignificantAction>, card: Card, lo: int) -> bool {
    exists|k: int| lo <= k && 2 <= k < before.len() - 1
        && (before[k].info_spec() matches ActionInfo::RevealRedraw { redraw, .. } && redraw is None)
        && #[trigger] after[k].info_spec() == with_redraw(before[k].info_spec(), card)
}

proof fn lemma_recorded_same(a2: Seq<SignificantAction>, a1: Seq<SignificantAction>, b: Seq<SignificantAction>, card: Card,
    lo: int)
    requires
        redraw_recorded(a1, b, card, lo),
        same_moves(a2, a1),
        a1.len() == b.len(),
    ensures
        redraw_recorded(a2, b, card, lo),
{
    let k = choose|k: int| lo <= k && 2 <= k < b.len() - 1
        && (b[k].info_spec() matches ActionInfo::RevealRedraw { redraw, .. } && redraw is None)
        && #[trigger] a1[k].info_spec() == with_redraw(b[k].info_spec(), card);
    assert(a2[k].info_spec() == a1[k].info_spec());
}

/// The first entry's known cards of the last mover of `before` grew by the card its last
/// move shows.
pub open spec fn start_grew(after: Seq<SignificantAction>, before: Seq<SignificantAction>) -> bool {
    let p = before.last().player_spec() as int;
    let start = before[0].meta_spec().inferred_view();
    &&& 0 <= p < start.len()
    &&& after[0].meta_spec().inferred_view() == start.update(p, start[p].push(shown_in(before.last().info_spec())))
}

proof fn lemma_no_change(h: Seq<SignificantAction>, c: Card)
    ensures
        !redraw_recorded(h, h, c, 2),
        !start_grew(h, h),
{
    if redraw_recorded(h, h, c, 2) {
        let k = choose|k: int| 2 <= k && 2 <= k < h.len() - 1
            && (h[k].info_spec() matches ActionInfo::RevealRedraw { redraw, .. } && redraw is None)
            && #[trigger] h[k].info_spec() == with_redraw(h[k].info_spec(), c);
    }
    if start_grew(h, h) {
        let p = h.last().player_spec() as int;
        let start = h[0].meta_spec().inferred_view();
        assert(start.update(p, start[p].push(shown_in(h.last().info_spec())))[p].len() == start[p].len() + 1);
    }
}

/// Looking back from the last move of `h` (a discard or a blind reveal) reaches the first
/// entry: no earlier move redraws blindly and the last mover made no earlier exchange.
pub open spec fn scan_reaches_start(h: Seq<SignificantAction>) -> bool {
    let last = h.len() - 1;
    &&& last >= 2
    &&& (h[last].info_spec() is Discard || (h[last].info_spec() matches ActionInfo::RevealRedraw { redraw, .. } && redraw is None))
    &&& forall|k: int| 2 <= k < last ==> !(#[trigger] h[k].info_spec() matches ActionInfo::RevealRedraw { redraw, .. } && redraw is None)
    &&& forall|k: int| 2 <= k < last && #[trigger] h[k].player_spec() == h[last].player_spec()
        ==> !(h[k].info_spec() is ExchangeDrawChoice)
}

/// The backward scan of `lookback_initial` over the moves before entry `i` of `h`, looking for
/// where the last move's player `player` got `card`, with the players whose blind redraws were
/// already passed in `illegal`: a reveal whose redraw must have drawn `card`
/// (`redraw_needed`) is recorded as such (for `player`, this ends the scan), a blind reveal
/// or an exchange of `player` ends the scan, and anything else is passed over. Gives whether
/// a redraw was recorded and whether the scan ended before the first entry.
pub open spec fn lookback_scan(h: Seq<SignificantAction>, card: Card, player: int, i: int, illegal: Seq<bool>) -> (bool, bool)
    decreases i,
{
    if i <= 2 {
        (false, false)
    } else {
        let j = i - 1;
        let a = h[j];
        let ap = a.player_spec() as int;
        match a.info_spec() {
            ActionInfo::RevealRedraw { redraw, .. } => {
                let need = redraw_needed(h, j, card, illegal);
                let ill = if redraw is None { illegal.update(ap, true) } else { illegal };
                if need {
                    if ap == player {
                        (true, true)
                    } else {
                        let rest = lookback_scan(h.update(j, a.with_info_spec(with_redraw(a.info_spec(), card))), card, player, j, ill);
                        (true, rest.1)
                    }
                } else if ap == player && redraw is None {
                    (false, true)
                } else {
                    lookback_scan(h, card, player, j, ill)
                }
            },
            ActionInfo::ExchangeDrawChoice { .. } => if ap == player {
                (false, true)
            } else {
                lookback_scan(h, card, player, j, illegal)
            },
            _ => lookback_scan(h, card, player, j, illegal),
        }
    }
}

/// Whether looking back from the last move of `h` changes anything: the move is a discard or
/// a reveal whose replacement is unknown, and the scan (`lookback_scan`) records a redraw, or
/// reaches the first entry while the last mover's row there has room for the card.
pub open spec fn lookback_changes(h: Seq<SignificantAction>) -> bool {
    let last = h.len() - 1;
    let p = h[last].player_spec() as int;
    let card = shown_in(h[last].info_spec());
    let scan = lookback_scan(h, card, p, last, Seq::new(6, |k: int| false));
    &&& last >= 2
    &&& (h[last].info_spec() is Discard || (h[last].info_spec() matches ActionInfo::RevealRedraw { redraw, .. } && redraw is None))
    &&& (scan.0 || (!scan.1 && h[0].meta_spec().inferred_view()[p].len() < 2))
}

/// What adding the move `info` of `player` to `before` (`add_move`) gives: the counter goes up;
/// a start entry leaves the history as it is; any other move is appended, the earlier moves
/// staying up to learned redraws; dead cards stay recorded by the history, and the
/// impossibilities stay consistent.
pub open spec fn move_added(after: PathDependentCollectiveConstraint, before: PathDependentCollectiveConstraint,
    player: u8, info: ActionInfo) -> bool
{
    &&& after.move_no_spec() == before.move_no_spec() + 1
    &&& (info is Start || info is StartInferred) ==> after.history_view() == before.history_view()
    &&& !(info is Start || info is StartInferred) ==> {
        &&& after.history_view().len() == before.history_view().len() + 1
        &&& after.history_view().last().info_spec() == info
        &&& after.history_view().last().player_spec() == player
        &&& redraws_learned(after.history_view().take(before.history_view().len() as int), before.history_view())
    }
    &&& dead_from_history(before) ==> dead_from_history(after)
    &&& !(info is Start || info is StartInferred) || impossible_consistent(before) ==> impossible_consistent(after)
}

/// The first entry of `h` records `p` holding `card` from the start, or its row there is full.
pub open spec fn start_holds(h: Seq<SignificantAction>, p: int, card: Card) -> bool {
    let row = h[0].meta_spec().inferred_view()[p];
    row.contains(card) || row.len() >= 2
}

/// Learning redraws leaves the recorded discards as they are.
pub proof fn lemma_discards_learned(a: Seq<SignificantAction>, b: Seq<SignificantAction>, n: int, p: int)
    requires
        redraws_learned(a, b),
        n <= b.len(),
    ensures
        discards_before(a, n, p) == discards_before(b, n, p),
    decreases n,
{
    if n > 2 {
        lemma_discards_learned(a, b, n - 1, p);
        let (ai, bi) = (a[n - 1].info_spec(), b[n - 1].info_spec());
        assert(ai.same_info(bi) || redraw_filled(ai, bi));
        if redraw_filled(ai, bi) {
            let x = choose|x: Card| #[trigger] with_redraw(bi, x) == ai;
        }
    }
}

proof fn lemma_discards_prefix(a: Seq<SignificantAction>, b: Seq<SignificantAction>, n: int, p: int)
    requires
        n <= b.len() <= a.len(),
        forall|i: int| 0 <= i < b.len() ==> a[i] == b[i],
    ensures
        discards_before(a, n, p) == discards_before(b, n, p),
    decreases n,
{
    if n > 2 {
        lemma_discards_prefix(a, b, n - 1, p);
    }
}

proof fn lemma_learned_then_same(c: Seq<SignificantAction>, b: Seq<SignificantAction>, a: Seq<SignificantAction>)
    requires
        redraws_learned(b, a),
        same_moves(c, b),
    ensures
        redraws_learned(c, a),
{
    assert forall|i: int| 0 <= i < c.len() implies (#[trigger] c[i]).player_spec() == a[i].player_spec()
        && (c[i].info_spec().same_info(a[i].info_spec()) || redraw_filled(c[i].info_spec(), a[i].info_spec())) by {
        assert(c[i].info_spec() == b[i].info_spec());
        assert(b[i].player_spec() == a[i].player_spec());
    }
}

proof fn lemma_same_moves_learned(b: Seq<SignificantAction>, a: Seq<SignificantAction>)
    requires
        same_moves(b, a),
    ensures
        redraws_learned(b, a),
{
    assert forall|i: int| 0 <= i < b.len() implies (#[trigger] b[i]).player_spec() == a[i].player_spec()
        && (b[i].info_spec().same_info(a[i].info_spec()) || redraw_filled(b[i].info_spec(), a[i].info_spec())) by {
    }
}

impl PathDependentCollectiveConstraint {
    /// Stores the current facts in the history entry at `history_index`.
    fn store_facts(&mut self, history_index: usize)
        requires
            old(self).wf(),
            history_index < old(self).history_view().len(),
        ensures
            final(self).wf(),
            same_moves(final(self).history_view(), old(self).history_view()),
            final(self).public_view() == old(self).public_view(),
            final(self).inferred_view() == old(self).inferred_view(),
            final(self).groups_view() == old(self).groups_view(),
            final(self).impossible_view() == old(self).impossible_view(),
            final(self).move_no_spec() == old(self).move_no_spec(),
            final(self).history_view()[history_index as int].meta_spec().public_view() == old(self).public_view(),
            final(self).history_view()[history_index as int].meta_spec().inferred_view() == old(self).inferred_view(),
            final(self).history_view()[history_index as int].meta_spec().impossible_view() == old(self).impossible_view(),
            forall|i: int| 0 <= i < old(self).history_view().len() && i != history_index
                ==> #[trigger] final(self).history_view()[i] == old(self).history_view()[i],
    {
        let meta = self.to_meta_data();
        let ghost h0 = self.history@;
        self.history[history_index].set_meta(meta);
        proof {
            assert forall|i: int| 0 <= i < h0.len() && i != history_index implies #[trigger] self.history@[i] == h0[i] by {}
            assert forall|i: int| 0 <= i < self.history@.len() implies (#[trigger] self.history@[i]).meta_spec().wf() by {
                if i != history_index { assert(self.history@[i] == h0[i]); }
            }
            assert forall|i: int| 2 <= i < self.history@.len() implies (#[trigger] self.history@[i]).player_spec() < 6 by {
                if i != history_index { assert(self.history@[i] == h0[i]); }
            }
            assert forall|i: int| 2 <= i < self.history@.len() implies !((#[trigger] self.history@[i]).info_spec() is Start)
                && !(self.history@[i].info_spec() is StartInferred) by {
                if i != history_index { assert(self.history@[i] == h0[i]); }
            }
            assert forall|i: int| 0 <= i < self.history@.len() implies (#[trigger] self.history@[i]).info_spec() == h0[i].info_spec()
                && self.history@[i].player_spec() == h0[i].player_spec() by {
                if i != history_index { assert(self.history@[i] == h0[i]); }
            }
        }
    }

    /// Recomputes the facts after the move at `history_index` from those before it, by the
    /// move's kind (a move whose effect is not well defined on the current facts leaves them
    /// as they are), derives the impossibilities and stores the result in the entry.
    fn calculate_stored_move(&mut self, history_index: usize)
        requires
            old(self).wf(),
            history_index < old(self).history_view().len(),
        ensures
            final(self).wf(),
            same_moves(final(self).history_view(), old(self).history_view()),
            final(self).move_no_spec() == old(self).move_no_spec(),
            history_index >= 1 ==> final(self).history_view()[0] == old(self).history_view()[0],
            ({
                let e = old(self).history_view()[history_index as int];
                let p = e.player_spec() as int;
                final(self).public_view() == match e.info_spec() {
                    ActionInfo::StartInferred => Seq::new(7, |i: int| Seq::<Card>::empty()),
                    ActionInfo::Discard { discard } =>
                        if p < 6 && old(self).public_view()[p].len() < 2 {
                            old(self).public_view().update(p, old(self).public_view()[p].push(discard))
                        } else {
                            old(self).public_view()
                        },
                    _ => old(self).public_view(),
                }
            }),
    {
        let player = self.history[history_index].player() as usize;
        let info = self.history[history_index].action_info().duplicate();
        let ghost h0 = self.history@;
        match info {
            ActionInfo::Start => {
                return;
            },
            ActionInfo::StartInferred => {
                self.regenerate_game_start();
                self.add_inferred_information();
            },
            ActionInfo::Discard { discard } => {
                proof { self.lemma_wf_rows(); }
                if player < 6 && self.public_constraints[player].len() < 2 {
                    self.death(history_index, player, discard);
                }
            },
            ActionInfo::RevealRedraw { reveal, redraw, relinquish } => {
                if player < 6 {
                    proof { self.lemma_wf_rows(); }
                    match redraw {
                        None => match relinquish {
                            Some(card) => {
                                if self.add_ok_exec(player, card, 1) && self.inferred_constraints[6].len() < 3 {
                                    self.reveal_redraw_relinquish(player, card);
                                }
                            },
                            None => {
                                if contains_card(&self.inferred_constraints[player], reveal)
                                    || self.inferred_constraints[player].len() < 2 {
                                    self.reveal_redraw(history_index, player, reveal);
                                }
                            },
                        },
                        Some(drawn) => {
                            if drawn == reveal {
                                if self.add_ok_exec(player, reveal, 1) {
                                    self.reveal_redraw_same(player, reveal);
                                }
                            } else if self.add_ok_exec(player, reveal, 1) && self.add_ok_exec(6, drawn, 1) {
                                self.reveal_redraw_diff(player, reveal, drawn);
                            }
                        },
                    }
                }
            },
            ActionInfo::ExchangeDrawChoice { .. } => {
                if player < 6 {
                    self.ambassador_public(player);
                }
            },
        }
        self.generate_impossible_constraints();
        self.store_facts(history_index);
    }

    /// Recomputes the stored facts of every entry after the first, in order.
    fn regenerate_path(&mut self)
        requires
            old(self).wf(),
        ensures
            final(self).wf(),
            same_moves(final(self).history_view(), old(self).history_view()),
            final(self).move_no_spec() == old(self).move_no_spec(),
            dead_from_history(*final(self)),
            final(self).history_view()[0] == old(self).history_view()[0],
    {
        let mut index: usize = 1;
        while index < self.history.len()
            invariant
                self.history_view()[0] == old(self).history_view()[0],
                self.wf(),
                1 <= index <= self.history_view().len(),
                same_moves(self.history_view(), old(self).history_view()),
                self.move_no_spec() == old(self).move_no_spec(),
                index >= 2 ==> forall|p: int| 0 <= p < 7 ==> #[trigger] self.public_view()[p]
                    == discards_before(self.history_view(), index as int, p),
            decreases self.history_view().len() - index,
        {
            let ghost pub0 = self.public_view();
            let ghost h0 = self.history_view();
            self.calculate_stored_move(index);
            proof {
                let h1 = self.history_view();
                assert forall|p: int| 0 <= p < 7 implies #[trigger] self.public_view()[p]
                    == discards_before(h1, index as int + 1, p) by {
                    assert(discards_before(h1, index as int, p) == discards_before(h0, index as int, p)) by {
                        lemma_same_moves_learned(h1, h0);
                        lemma_discards_learned(h1, h0, index as int, p);
                    }
                    assert(h1[index as int].info_spec() == h0[index as int].info_spec());
                    assert(h1[index as int].player_spec() == h0[index as int].player_spec());
                }
            }
            index += 1;
        }
    }

    /// Records in the first entry that `player` held `card` from the start, unless its row is
    /// already full.
    fn add_start_knowledge(&mut self, player: usize, card: Card)
        requires
            old(self).wf(),
            player < 7,
        ensures
            final(self).wf(),
            same_moves(final(self).history_view(), old(self).history_view()),
            final(self).public_view() == old(self).public_view(),
            final(self).inferred_view() == old(self).inferred_view(),
            final(self).groups_view() == old(self).groups_view(),
            final(self).impossible_view() == old(self).impossible_view(),
            final(self).move_no_spec() == old(self).move_no_spec(),
            forall|k: int| 1 <= k < old(self).history_view().len() ==> #[trigger] final(self).history_view()[k] == old(self).history_view()[k],
            ({
                let row = old(self).history_view()[0].meta_spec().inferred_view()[player as int];
                final(self).history_view()[0].meta_spec().inferred_view() == if row.len() < (if player < 6 { 2int } else { 3int }) {
                    old(self).history_view()[0].meta_spec().inferred_view().update(player as int, row.push(card))
                } else {
                    old(self).history_view()[0].meta_spec().inferred_view()
                }
            }),
    {
        proof { assert(self.history@[0].meta_spec().wf()); }
        let cap: usize = if player < 6 { 2 } else { 3 };
        let row = self.history[0].inferred_constraints();
        proof { lemma_rows(row@, player as int); }
        if row[player].len() < cap {
            let ghost h0 = self.history@;
            self.history[0].add_inferred_constraints(player, card);
            proof {
                assert forall|i: int| 0 <= i < self.history@.len() implies (#[trigger] self.history@[i]).meta_spec().wf() by {
                    if i != 0 { assert(self.history@[i] == h0[i]); }
                }
                assert forall|i: int| 2 <= i < self.history@.len() implies (#[trigger] self.history@[i]).player_spec() < 6 by {
                    assert(self.history@[i] == h0[i]);
                }
                assert forall|i: int| 2 <= i < self.history@.len() implies !((#[trigger] self.history@[i]).info_spec() is Start)
                    && !(self.history@[i].info_spec() is StartInferred) by {
                    assert(self.history@[i] == h0[i]);
                }
                assert forall|i: int| 0 <= i < self.history@.len() implies (#[trigger] self.history@[i]).info_spec() == h0[i].info_spec()
                    && self.history@[i].player_spec() == h0[i].player_spec() by {
                    if i != 0 { assert(self.history@[i] == h0[i]); }
                }
            }
        }
    }

    /// Replaces the redraw of the reveal at `i` (a move) by `card`.
    fn set_redraw(&mut self, i: usize, card: Card)
        requires
            old(self).wf(),
            2 <= i < old(self).history_view().len(),
            old(self).history_view()[i as int].info_spec() is RevealRedraw,
        ensures
            final(self).wf(),
            final(self).history_view().len() == old(self).history_view().len(),
            forall|k: int| 0 <= k < old(self).history_view().len() && k != i ==> #[trigger] final(self).history_view()[k] == old(self).history_view()[k],
            final(self).history_view()[i as int].player_spec() == old(self).history_view()[i as int].player_spec(),
            final(self).history_view()[i as int].info_spec() is RevealRedraw,
            final(self).history_view()[i as int].info_spec() == with_redraw(old(self).history_view()[i as int].info_spec(), card),
            final(self).history_view() == old(self).history_view().update(i as int,
                old(self).history_view()[i as int].with_info_spec(with_redraw(old(self).history_view()[i as int].info_spec(), card))),
            final(self).public_view() == old(self).public_view(),
            final(self).inferred_view() == old(self).inferred_view(),
            final(self).groups_view() == old(self).groups_view(),
            final(self).impossible_view() == old(self).impossible_view(),
            final(self).move_no_spec() == old(self).move_no_spec(),
    {
        let info = match self.history[i].action_info() {
            ActionInfo::RevealRedraw { reveal, relinquish, .. } =>
                ActionInfo::RevealRedraw { reveal: *reveal, redraw: Some(card), relinquish: *relinquish },
            _ => ActionInfo::RevealRedraw { reveal: card, redraw: Some(card), relinquish: None },
        };
        let ghost h0 = self.history@;
        self.history[i].set_info(info);
        proof {
            assert(self.history@ =~= h0.update(i as int, h0[i as int].with_info_spec(info)));
            assert forall|k: int| 0 <= k < self.history@.len() implies (#[trigger] self.history@[k]).meta_spec().wf() by {
                if k != i { assert(self.history@[k] == h0[k]); }
            }
            assert forall|k: int| 2 <= k < self.history@.len() implies (#[trigger] self.history@[k]).player_spec() < 6 by {
                if k != i { assert(self.history@[k] == h0[k]); }
            }
            assert forall|k: int| 2 <= k < self.history@.len() implies !((#[trigger] self.history@[k]).info_spec() is Start)
                && !(self.history@[k].info_spec() is StartInferred) by {
                if k != i { assert(self.history@[k] == h0[k]); }
            }
        }
    }

    /// After the last move revealed or discarded a card without redrawing it: scanning earlier
    /// moves backward, the first blind redraw that must have drawn that card back
    /// (`need_redraw_update`) is recorded as such (and followed up by `lookback_1_continual`
    /// when the revealed card differs), which ends the scan for the last move's own player;
    /// reveals of other players are recorded likewise and the scan goes on. Without such a
    /// conclusion for its own player, and unless its own earlier blind redraw or exchange ends
    /// the scan, the last move's player is recorded as having held the card from the start.
    /// When anything changed, all stored facts are recomputed (`regenerate_path`). Returns
    /// whether anything changed.
    pub fn lookback_initial(&mut self) -> (r: bool)
        requires
            old(self).wf(),
        ensures
            final(self).wf(),
            same_last_move(final(self).history_view(), old(self).history_view()),
            redraws_learned(final(self).history_view(), old(self).history_view()),
            final(self).move_no_spec() == old(self).move_no_spec(),
            !r ==> *final(self) == *old(self),
            r ==> dead_from_history(*final(self)),
            !(old(self).history_view().last().info_spec() is Discard
                || old(self).history_view().last().info_spec() matches ActionInfo::RevealRedraw { redraw: None, .. })
                ==> !r,
            old(self).history_view().len() <= 2 ==> !r,
            first_move_shown(old(self).history_view()) ==> start_holds(final(self).history_view(),
                old(self).history_view().last().player_spec() as int, shown_in(old(self).history_view().last().info_spec())),
            r == lookback_changes(old(self).history_view()),
            first_move_shown(old(self).history_view())
                && old(self).history_view()[0].meta_spec().inferred_view()[old(self).history_view().last().player_spec() as int].len() < 2
                ==> r,
            r == (redraw_recorded(final(self).history_view(), old(self).history_view(),
                shown_in(old(self).history_view().last().info_spec()), 2)
                || start_grew(final(self).history_view(), old(self).history_view())),
            scan_reaches_start(old(self).history_view()) ==> ({
                let start = old(self).history_view()[0].meta_spec().inferred_view();
                let p = old(self).history_view().last().player_spec() as int;
                &&& r == (start[p].len() < 2)
                &&& r ==> start_grew(final(self).history_view(), old(self).history_view())
            }),
            r ==> redraw_recorded(final(self).history_view(), old(self).history_view(),
                shown_in(old(self).history_view().last().info_spec()), 2)
                || start_holds(final(self).history_view(), old(self).history_view().last().player_spec() as int,
                    shown_in(old(self).history_view().last().info_spec())),
            r && !redraw_recorded(final(self).history_view(), old(self).history_view(),
                shown_in(old(self).history_view().last().info_spec()), 2) ==> ({
                let start = old(self).history_view()[0].meta_spec().inferred_view();
                let p = old(self).history_view().last().player_spec() as int;
                final(self).history_view()[0].meta_spec().inferred_view() == if start[p].len() < 2 {
                    start.update(p, start[p].push(shown_in(old(self).history_view().last().info_spec())))
                } else {
                    start
                }
            }),
    {
        proof { lemma_no_change(self.history_view(), shown_in(self.history_view().last().info_spec())); }
        let index = self.history.len() - 1;
        if index < 2 {
            return false;
        }
        let player = self.move_player(index);
        let considered = match self.history[index].action_info() {
            ActionInfo::RevealRedraw { reveal, redraw, .. } => {
                if redraw.is_some() {
                    return false;
                }
                *reveal
            },
            ActionInfo::Discard { discard } => *discard,
            _ => { return false; },
        };
        let ghost s0 = *self;
        let ghost mut filled: bool = false;
        let mut changed = false;
        let mut skip_start = false;
        let mut illegal: [bool; 6] = [false; 6];
        let mut i: usize = index;
        let ghost total = lookback_scan(s0.history_view(), considered, player as int, index as int, Seq::new(6, |k: int| false));
        proof { assert(illegal@ =~= Seq::new(6, |k: int| false)); }
        while i > 2 && !skip_start
            invariant
                total == lookback_scan(s0.history_view(), considered, player as int, index as int, Seq::new(6, |k: int| false)),
                !skip_start ==> total == (changed || lookback_scan(self.history_view(), considered, player as int, i as int, illegal@).0,
                    lookback_scan(self.history_view(), considered, player as int, i as int, illegal@).1),
                skip_start ==> total == (changed, true),
                self.wf(),
                2 <= i <= index,
                index == self.history_view().len() - 1,
                index == s0.history_view().len() - 1,
                player < 6,
                self.history_view()[index as int].info_spec() == s0.history_view()[index as int].info_spec(),
                self.history_view()[index as int].player_spec() == s0.history_view()[index as int].player_spec(),
                self.move_no_spec() == s0.move_no_spec(),
                !changed ==> *self == s0,
                redraws_learned(self.history_view(), s0.history_view()),
                first_move_shown(s0.history_view()) ==> !skip_start,
                scan_reaches_start(s0.history_view()) ==> !skip_start && !changed,
                s0 == *old(self),
                considered == shown_in(s0.history_view().last().info_spec()),
                changed ==> filled,
                filled ==> redraw_recorded(self.history_view(), s0.history_view(), considered, i as int),
                !skip_start ==> self.history_view()[0] == s0.history_view()[0],
                player == s0.history_view()[index as int].player_spec(),
                first_move_shown(s0.history_view()) ==> forall|k: int| 2 <= k < index ==> #[trigger] s0.history_view()[k].player_spec() != player,
            ensures
                !skip_start ==> i <= 2,
            decreases i,
        {
            let ghost h_old = self.history_view();
            let ghost ill_old = illegal@;
            let ghost rest_old = lookback_scan(h_old, considered, player as int, i as int, ill_old);
            i -= 1;
            let action_player = self.move_player(i);
            proof {
                assert(self.history_view()[i as int].player_spec() == s0.history_view()[i as int].player_spec());
                if first_move_shown(s0.history_view()) {
                    assert(s0.history_view()[i as int].player_spec() != player);
                }
            }
            let is_reveal = match self.history[i].action_info() {
                ActionInfo::RevealRedraw { .. } => true,
                _ => false,
            };
            if is_reveal {
                let need = self.need_redraw_update(i, considered, &illegal);
                let (reveal_i, blind) = match self.history[i].action_info() {
                    ActionInfo::RevealRedraw { reveal, redraw, .. } => (*reveal, redraw.is_none()),
                    _ => (considered, false),
                };
                if blind {
                    illegal[action_player] = true;
                }
                proof {
                    assert(illegal@ == if blind { ill_old.update(action_player as int, true) } else { ill_old });
                }
                if need {
                    let ghost h1 = self.history_view();
                    self.set_redraw(i, considered);
                    proof {
                        let h2 = self.history_view();
                        assert(h1[i as int].info_spec() == s0.history_view()[i as int].info_spec());
                        assert(h2[i as int].info_spec() == with_redraw(s0.history_view()[i as int].info_spec(), considered));
                        assert(redraw_recorded(h2, s0.history_view(), considered, i as int));
                        filled = true;
                        assert forall|k: int| 0 <= k < h2.len() implies (#[trigger] h2[k]).player_spec() == s0.history_view()[k].player_spec()
                            && (h2[k].info_spec().same_info(s0.history_view()[k].info_spec())
                                || redraw_filled(h2[k].info_spec(), s0.history_view()[k].info_spec())) by {
                            if k == i {
                                assert(h1[k].info_spec() == s0.history_view()[k].info_spec());
                                assert(with_redraw(s0.history_view()[k].info_spec(), considered) == h2[k].info_spec());
                            } else {
                                assert(h2[k] == h1[k]);
                            }
                        }
                    }
                    changed = true;
                    if action_player == player {
                        if reveal_i != considered {
                            let ghost h3 = self.history_view();
                            self.lookback_1_continual(i);
                            proof {
                                lemma_learned_then_same(self.history_view(), h3, s0.history_view());
                                lemma_recorded_same(self.history_view(), h3, s0.history_view(), considered, i as int);
                            }
                        }
                        proof { assert(rest_old == (true, true)); }
                        skip_start = true;
                        break;
                    }
                    proof {
                        assert(rest_old == (true, lookback_scan(self.history_view(), considered, player as int, i as int, illegal@).1));
                    }
                } else if action_player == player && blind {
                    proof { assert(rest_old == (false, true)); }
                    skip_start = true;
                    break;
                } else {
                    proof { assert(rest_old == lookback_scan(self.history_view(), considered, player as int, i as int, illegal@)); }
                }
            } else if action_player == player {
                let is_exchange = match self.history[i].action_info() {
                    ActionInfo::ExchangeDrawChoice { .. } => true,
                    _ => false,
                };
                if is_exchange {
                    proof { assert(rest_old == (false, true)); }
                    skip_start = true;
                    break;
                }
                proof { assert(rest_old == lookback_scan(self.history_view(), considered, player as int, i as int, illegal@)); }
            } else {
                proof { assert(rest_old == lookback_scan(self.history_view(), considered, player as int, i as int, illegal@)); }
            }
        }
        proof {
            assert(self.history@[0].meta_spec().wf());
            if !skip_start {
                assert(lookback_scan(self.history_view(), considered, player as int, i as int, illegal@) == (false, false));
            }
            assert(total == (changed, skip_start));
        }
        let ghost changed_scan = changed;
        let start_rows = self.history[0].inferred_constraints();
        proof { lemma_rows(start_rows@, player as int); }
        let room = start_rows[player].len() < 2;
        if !skip_start && room {
            let ghost h4 = self.history_view();
            let ghost row4 = self.history_view()[0].meta_spec().inferred_view()[player as int];
            self.add_start_knowledge(player, considered);
            proof {
                if row4.len() < 2 {
                    assert(row4.push(considered)[row4.len() as int] == considered);
                }
            }
            proof {
                lemma_learned_then_same(self.history_view(), h4, s0.history_view());
                if filled { lemma_recorded_same(self.history_view(), h4, s0.history_view(), considered, i as int); }
            }
            changed = true;
        }
        let ghost starts = !skip_start;
        if changed {
            let ghost h5 = self.history_view();
            self.regenerate_path();
            proof {
                lemma_learned_then_same(self.history_view(), h5, s0.history_view());
                if filled { lemma_recorded_same(self.history_view(), h5, s0.history_view(), considered, i as int); }
            }
        }
        proof {
            if filled {
                let k = choose|k: int| i as int <= k && 2 <= k < s0.history_view().len() - 1
                    && (s0.history_view()[k].info_spec() matches ActionInfo::RevealRedraw { redraw, .. } && redraw is None)
                    && #[trigger] self.history_view()[k].info_spec() == with_redraw(s0.history_view()[k].info_spec(), considered);
                assert(redraw_recorded(self.history_view(), s0.history_view(), considered, 2));
            }
            assert(changed == (changed_scan || (!skip_start && room)));
            assert(room == (s0.history_view()[0].meta_spec().inferred_view()[player as int].len() < 2) || skip_start);
            assert(s0.history_view()[index as int] == s0.history_view().last());
        }
        changed
    }

    /// The last move's player lost `card`: it is recorded dead and leaves the known cards;
    /// when looking back (`lookback_initial`) changed anything, all facts were recomputed;
    /// otherwise the groups are pruned (`dead_card_prune`).
    pub fn add_dead_card_initial(&mut self, player_id: usize, card: Card)
        requires
            old(self).wf(),
            player_id < 7,
            old(self).public_view()[player_id as int].len() < 2,
        ensures
            final(self).wf(),
            same_last_move(final(self).history_view(), old(self).history_view()),
            redraws_learned(final(self).history_view(), old(self).history_view()),
            final(self).move_no_spec() == old(self).move_no_spec(),
            final(self).history_view() != old(self).history_view() ==> dead_from_history(*final(self)),
            final(self).history_view() == old(self).history_view() ==> ({
                let pub1 = old(self).public_view().update(player_id as int, old(self).public_view()[player_id as int].push(card));
                let inf1 = old(self).inferred_view().update(player_id as int,
                    swap_remove_card(old(self).inferred_view()[player_id as int], card));
                &&& final(self).public_view() == pub1
                &&& final(self).inferred_view()[player_id as int] == inf1[player_id as int]
                &&& final(self).impossible_view() == old(self).impossible_view()
                &&& !(pub1[player_id as int].len() == 2 || inf1[player_id as int].len() == 1)
                    ==> final(self).inferred_view() == inf1 && forall|c: int| 0 <= c < 5 ==> {
                        let all_known = table_count(pub1, card) + table_count(inf1, card) == 3;
                        &&& (c == card_index(card) && all_known) ==> final(self).groups_view()[c].len() == 1
                            && all_known_group(final(self).groups_view()[c][0], pub1, inf1, card)
                        &&& !(c == card_index(card) && all_known) ==> dead_pruned_list(#[trigger] final(self).groups_view()[c],
                            old(self).groups_view()[c], pub1[player_id as int], inf1[player_id as int], player_id as int,
                            card, all_known, c)
                    }
            }),
            final(self).public_view() == old(self).public_view().update(player_id as int,
                old(self).public_view()[player_id as int].push(card)) || dead_from_history(*final(self)),
    {
        proof { self.lemma_wf_rows(); }
        let ghost pub0 = self.public_view();
        let ghost inf0 = self.inferred_view();
        self.public_constraints[player_id].push(card);
        swap_remove_card_from(&mut self.inferred_constraints[player_id], card);
        proof {
            crate::card::lemma_swap_remove_card_len(inf0[player_id as int], card);
            assert(self.public_view() =~= pub0.update(player_id as int, pub0[player_id as int].push(card)));
            assert(self.inferred_view() =~= inf0.update(player_id as int, swap_remove_card(inf0[player_id as int], card)));
            assert(self.public_view()[player_id as int].last() == card);
        }
        let ghost h0 = self.history_view();
        if self.lookback_initial() {
            proof { lemma_no_change(h0, shown_in(h0.last().info_spec())); }
            return;
        }
        self.dead_card_prune(player_id, card);
    }

    /// `add_dead_card_initial`, then redundant groups are dropped and everything derivable is
    /// derived.
    pub fn death_initial(&mut self, player_id: usize, card: Card)
        requires
            old(self).wf(),
            player_id < 7,
            old(self).public_view()[player_id as int].len() < 2,
        ensures
            final(self).wf(),
            same_last_move(final(self).history_view(), old(self).history_view()),
            redraws_learned(final(self).history_view(), old(self).history_view()),
            final(self).move_no_spec() == old(self).move_no_spec(),
            final(self).public_view() == old(self).public_view().update(player_id as int,
                old(self).public_view()[player_id as int].push(card)) || dead_from_history(*final(self)),
    {
        self.add_dead_card_initial(player_id, card);
        self.group_redundant_prune();
        self.add_inferred_information();
    }

    /// The last move's player revealed `card`: it is known to hold it; when looking back
    /// (`lookback_initial`) changed anything, all facts were recomputed; otherwise the groups
    /// are adjusted, everything derivable is derived and `card` is settled if all its copies
    /// are placed.
    pub fn reveal_initial(&mut self, player_id: usize, card: Card)
        requires
            old(self).wf(),
            player_id < 6,
            !old(self).inferred_view()[player_id as int].contains(card) ==> old(self).inferred_view()[player_id as int].len() < 2,
        ensures
            final(self).wf(),
            same_last_move(final(self).history_view(), old(self).history_view()),
            redraws_learned(final(self).history_view(), old(self).history_view()),
            final(self).move_no_spec() == old(self).move_no_spec(),
            first_move_shown(old(self).history_view())
                && old(self).history_view()[0].meta_spec().inferred_view()[old(self).history_view().last().player_spec() as int].len() < 2
                ==> dead_from_history(*final(self)),
            final(self).public_view() == old(self).public_view() || dead_from_history(*final(self)),
            first_move_shown(old(self).history_view()) ==> start_holds(final(self).history_view(),
                old(self).history_view().last().player_spec() as int, shown_in(old(self).history_view().last().info_spec())),
            final(self).history_view() == old(self).history_view() ==> {
                &&& final(self).public_view() == old(self).public_view()
                &&& final(self).impossible_view() == old(self).impossible_view()
                &&& table_count(final(self).public_view(), card) + table_count(final(self).inferred_view(), card) == 3
                    ==> final(self).groups_view()[card_index(card)].len() == 1
                        && all_known_group(final(self).groups_view()[card_index(card)][0],
                            final(self).public_view(), final(self).inferred_view(), card)
            },
    {
        if !self.inferred_player_constraint_contains(player_id, card) {
            self.add_inferred_player_constraint(player_id, card);
        }
        let ghost h0 = self.history_view();
        if self.lookback_initial() {
            proof { lemma_no_change(h0, shown_in(h0.last().info_spec())); }
            return;
        }
        self.reveal_group_adjustment(player_id, card);
        self.add_inferred_information();
        self.clear_group_constraints(card);
    }

    /// As `reveal_initial`, then (unless looking back changed anything) the player drew a
    /// replacement (`redraw`).
    pub fn reveal_redraw_initial(&mut self, player_id: usize, card: Card)
        requires
            old(self).wf(),
            player_id < 6,
            !old(self).inferred_view()[player_id as int].contains(card) ==> old(self).inferred_view()[player_id as int].len() < 2,
        ensures
            final(self).wf(),
            same_last_move(final(self).history_view(), old(self).history_view()),
            redraws_learned(final(self).history_view(), old(self).history_view()),
            final(self).move_no_spec() == old(self).move_no_spec(),
            first_move_shown(old(self).history_view())
                && old(self).history_view()[0].meta_spec().inferred_view()[old(self).history_view().last().player_spec() as int].len() < 2
                ==> dead_from_history(*final(self)),
            final(self).public_view() == old(self).public_view() || dead_from_history(*final(self)),
            first_move_shown(old(self).history_view()) ==> start_holds(final(self).history_view(),
                old(self).history_view().last().player_spec() as int, shown_in(old(self).history_view().last().info_spec())),
            final(self).history_view() == old(self).history_view() ==> exists|mid: Seq<Seq<Card>>|
                #[trigger] super::moves::redrawn_from(final(self).inferred_view(), mid, player_id as int, card)
                && super::mixing::pile_group_kept(final(self).groups_view()[card_index(card)], player_id as int,
                    card_index(card), card_index(card), old(self).public_view()[player_id as int], mid[6]),
    {
        if !self.inferred_player_constraint_contains(player_id, card) {
            self.add_inferred_player_constraint(player_id, card);
        }
        let ghost h0 = self.history_view();
        if self.lookback_initial() {
            proof { lemma_no_change(h0, shown_in(h0.last().info_spec())); }
            return;
        }
        self.reveal_group_adjustment(player_id, card);
        self.add_inferred_information();
        self.clear_group_constraints(card);
        let ghost mid = self.inferred_view();
        self.redraw(player_id, card);
        proof {
            assert(super::moves::redrawn_from(self.inferred_view(), mid, player_id as int, card));
            crate::card::lemma_card_index_roundtrip(card);
            assert(super::mixing::pile_group_kept(self.groups_view()[card_index(card)], player_id as int,
                card_index(card), card_index(card), old(self).public_view()[player_id as int], mid[6]));
        }
    }

    /// Computes the facts after the last move, just added, by its kind (a move whose effect is
    /// not well defined on the current facts leaves them as they are), derives the
    /// impossibilities and stores the result in the entry.
    fn calculate_stored_move_initial(&mut self)
        requires
            old(self).wf(),
            old(self).history_view().last().info_spec() matches ActionInfo::RevealRedraw { redraw, .. } ==> redraw is None,
        ensures
            final(self).wf(),
            same_last_move(final(self).history_view(), old(self).history_view()),
            redraws_learned(final(self).history_view(), old(self).history_view()),
            final(self).move_no_spec() == old(self).move_no_spec(),
            dead_before_last(*old(self)) ==> dead_from_history(*final(self)),
            impossible_consistent(*final(self)),
    {
        let history_index = self.history.len() - 1;
        let player = self.history[history_index].player() as usize;
        let ghost s0 = *self;
        proof { self.lemma_wf_rows(); }
        match self.history[history_index].action_info() {
            ActionInfo::Discard { discard } => {
                let card = *discard;
                if player < 6 && self.public_constraints[player].len() < 2 {
                    self.death_initial(player, card);
                }
            },
            ActionInfo::RevealRedraw { reveal, .. } => {
                let card = *reveal;
                if player < 6 && (contains_card(&self.inferred_constraints[player], card)
                    || self.inferred_constraints[player].len() < 2) {
                    self.reveal_redraw_initial(player, card);
                }
            },
            ActionInfo::ExchangeDrawChoice { .. } => {
                if player < 6 {
                    self.ambassador_public(player);
                }
            },
            _ => {},
        }
        proof {
            if dead_before_last(s0) {
                let n = s0.history_view().len() as int;
                assert forall|q: int| 0 <= q < 7 implies #[trigger] self.public_view()[q]
                    == discards_before(self.history_view(), n, q) by {
                    lemma_discards_learned(self.history_view(), s0.history_view(), n, q);
                    if !dead_from_history(*self) {
                        assert(s0.public_view()[q] == discards_before(s0.history_view(), n - 1, q));
                    }
                }
            }
        }
        self.generate_impossible_constraints();
        let ghost h1 = self.history_view();
        self.store_facts(history_index);
        proof {
            lemma_learned_then_same(self.history_view(), h1, old(self).history_view());
            if dead_before_last(s0) {
                assert forall|q: int| 0 <= q < 7 implies #[trigger] self.public_view()[q]
                    == discards_before(self.history_view(), self.history_view().len() as int, q) by {
                    lemma_same_moves_learned(self.history_view(), h1);
                    lemma_discards_learned(self.history_view(), h1, h1.len() as int, q);
                }
            }
        }
    }

    /// Adds a move of `player_id` to the history (a start entry is ignored) and computes the
    /// facts after it (`calculate_stored_move_initial`); the move counter goes up by one.
    pub fn add_move(&mut self, player_id: u8, action_info: ActionInfo)
        requires
            old(self).wf(),
            player_id < 6,
            old(self).move_no_spec() < usize::MAX,
            action_info matches ActionInfo::RevealRedraw { redraw, .. } ==> redraw is None,
        ensures
            final(self).wf(),
            move_added(*final(self), *old(self), player_id, action_info),
            final(self).move_no_spec() == old(self).move_no_spec() + 1,
            (action_info is Start || action_info is StartInferred) ==> final(self).history_view() == old(self).history_view(),
            !(action_info is Start || action_info is StartInferred) ==> {
                &&& final(self).history_view().len() == old(self).history_view().len() + 1
                &&& final(self).history_view().last().info_spec() == action_info
                &&& final(self).history_view().last().player_spec() == player_id
                &&& redraws_learned(final(self).history_view().take(old(self).history_view().len() as int),
                    old(self).history_view())
            },
            dead_from_history(*old(self)) ==> dead_from_history(*final(self)),
            !(action_info is Start || action_info is StartInferred) || impossible_consistent(*old(self))
                ==> impossible_consistent(*final(self)),
    {
        let is_move = match action_info {
            ActionInfo::Start => false,
            ActionInfo::StartInferred => false,
            _ => true,
        };
        if is_move {
            let entry = SignificantAction::initial(self.move_no, player_id, action_info);
            let ghost h0 = self.history@;
            self.history.push(entry);
            proof {
                assert forall|i: int| 0 <= i < self.history@.len() implies (#[trigger] self.history@[i]).meta_spec().wf() by {
                    if i < h0.len() { assert(self.history@[i] == h0[i]); }
                }
                assert forall|i: int| 2 <= i < self.history@.len() implies (#[trigger] self.history@[i]).player_spec() < 6 by {
                    if i < h0.len() { assert(self.history@[i] == h0[i]); }
                }
                assert forall|i: int| 2 <= i < self.history@.len() implies !((#[trigger] self.history@[i]).info_spec() is Start)
                    && !(self.history@[i].info_spec() is StartInferred) by {
                    if i < h0.len() { assert(self.history@[i] == h0[i]); }
                }
            }
            let ghost h1 = self.history_view();
            proof {
                if dead_from_history(*old(self)) {
                    assert forall|q: int| 0 <= q < 7 implies #[trigger] self.public_view()[q]
                        == discards_before(h1, h1.len() - 1, q) by {
                        lemma_discards_prefix(h1, h0, h0.len() as int, q);
                    }
                }
            }
            self.calculate_stored_move_initial();
            proof {
                let h2 = self.history_view();
                assert(h1.take(h0.len() as int) =~= old(self).history_view());
                assert forall|k: int| 0 <= k < h0.len() implies (#[trigger] h2.take(h0.len() as int)[k]).player_spec()
                    == old(self).history_view()[k].player_spec()
                    && (h2.take(h0.len() as int)[k].info_spec().same_info(old(self).history_view()[k].info_spec())
                        || redraw_filled(h2.take(h0.len() as int)[k].info_spec(), old(self).history_view()[k].info_spec())) by {
                    assert(h2.take(h0.len() as int)[k] == h2[k]);
                    assert(old(self).history_view()[k] == h1[k]);
                }
            }
        }
        let ghost before = *self;
        self.move_no = self.move_no + 1;
        proof {
            assert(self.public_view() == before.public_view());
            assert(self.inferred_view() == before.inferred_view());
            assert(self.groups_view() == before.groups_view());
            assert(self.impossible_view() == before.impossible_view());
            if impossible_consistent(before) {
                assert forall|p: int, c: int| 0 <= p < 7 && 0 <= c < 5 implies #[trigger] self.impossible_view()@[p]@[c]
                    == impossible_entry(self.public_view(), self.inferred_view(), self.groups_view(), p, c) by {
                    assert(before.impossible_view()@[p]@[c]
                        == impossible_entry(before.public_view(), before.inferred_view(), before.groups_view(), p, c));
                }
            }
        }
    }

    /// After the reveal at `index` was found to have drawn its card back: scanning earlier
    /// moves, stops (false) at a reveal of the drawn card by someone who did not draw it back,
    /// at a reveal after which the drawn card could be placed, or at a known exchange;
    /// otherwise records that the pile held the drawn card from the start and returns true.
    pub fn lookback_1_continual(&mut self, index: usize) -> (r: bool)
        requires
            old(self).wf(),
            2 <= index < old(self).history_view().len(),
        ensures
            final(self).wf(),
            same_moves(final(self).history_view(), old(self).history_view()),
            final(self).public_view() == old(self).public_view(),
            final(self).inferred_view() == old(self).inferred_view(),
            final(self).groups_view() == old(self).groups_view(),
            final(self).impossible_view() == old(self).impossible_view(),
            final(self).move_no_spec() == old(self).move_no_spec(),
            !r ==> *final(self) == *old(self),
            r ==> (old(self).history_view()[index as int].info_spec() matches ActionInfo::RevealRedraw { redraw, .. }
                && redraw is Some
                && ({
                    let pile = final(self).history_view()[0].meta_spec().inferred_view()[6];
                    pile.contains(redraw.unwrap()) || pile.len() == 3
                })),
            r == (match old(self).history_view()[index as int].info_spec() {
                ActionInfo::RevealRedraw { redraw: Some(card), .. } => continual_clear(old(self).history_view(), card, index as int),
                _ => false,
            }),
            r ==> forall|k: int| 1 <= k < old(self).history_view().len() ==> #[trigger] final(self).history_view()[k] == old(self).history_view()[k],
            r ==> (old(self).history_view()[index as int].info_spec() matches ActionInfo::RevealRedraw { redraw: Some(card), .. } && {
                let start = old(self).history_view()[0].meta_spec().inferred_view();
                final(self).history_view()[0].meta_spec().inferred_view() == if start[6].contains(card) || start[6].len() >= 3 {
                    start
                } else {
                    start.update(6, start[6].push(card))
                }
            }),
    {
        let drawn = match self.history[index].action_info() {
            ActionInfo::RevealRedraw { redraw, .. } => *redraw,
            _ => None,
        };
        let redraw_card = match drawn {
            Some(c) => c,
            None => { return false; },
        };
        let mut i: usize = index;
        while i > 2
            invariant
                self.wf(),
                2 <= i <= index,
                index < self.history_view().len(),
                *self == *old(self),
                old(self).history_view()[index as int].info_spec() matches ActionInfo::RevealRedraw { redraw, .. }
                    && redraw == Some(redraw_card),
                continual_clear(self.history_view(), redraw_card, index as int)
                    == continual_clear(self.history_view(), redraw_card, i as int),
            decreases i,
        {
            i -= 1;
            let player_i = self.move_player(i);
            match self.history[i].action_info() {
                ActionInfo::RevealRedraw { reveal, redraw, .. } => {
                    let same = match redraw { Some(d) => *d == *reveal, None => false };
                    if !same {
                        if *reveal == redraw_card {
                            return false;
                        }
                        proof {
                            assert(self.history@[i - 1].meta_spec().wf());
                        }
                        let before = &self.history[i - 1];
                        let inferred = before.inferred_constraints();
                        proof { lemma_rows(inferred@, player_i as int); }
                        if before.known_card_count(redraw_card) == 2 && !contains_card(&inferred[player_i], redraw_card) {
                            return false;
                        }
                    }
                },
                ActionInfo::ExchangeDrawChoice { draw, relinquish } => {
                    if draw.len() != 0 || relinquish.len() != 0 {
                        return false;
                    }
                },
                _ => {},
            }
        }
        proof { assert(self.history@[0].meta_spec().wf()); }
        let start_pile = self.history[0].inferred_constraints();
        proof { lemma_rows(start_pile@, 6); }
        if !contains_card(&start_pile[6], redraw_card) {
            let ghost row = self.history_view()[0].meta_spec().inferred_view()[6];
            self.add_start_knowledge(6, redraw_card);
            proof {
                if row.len() < 3 {
                    assert(row.push(redraw_card)[row.len() as int] == redraw_card);
                }
            }
        }
        true
    }
}

} // verus!
