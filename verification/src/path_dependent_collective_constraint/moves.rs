use vstd::prelude::*;
use crate::card::{Card, card_index, card_at, count_card, count_in, remove_card, remove_card_from,
    swap_remove_card_from, contains_card};
use crate::group::CompressedGroupConstraint;
use super::{PathDependentCollectiveConstraint, lemma_group_rows, lemma_only_list_changed, lemma_rows};
use super::prune::{drop_player_groups, list_dropped};
use super::group_ops::{max_alive_pp, no_redundant_pair_from, present_or_covered, swap_removed, lemma_push_keeps_covered};
use super::hand::add_ok;
use super::inference::empty_lists;

verus! {

/// `row` with `card` added unless it is there.
pub open spec fn with_card(row: Seq<Card>, card: Card) -> Seq<Card> {
    if row.contains(card) { row } else { row.push(card) }
}

/// A group holding `player` that says more than the player's `alive` known copies and has
/// another participant and some copy: with the player's two cards known, the group of the
/// other participants follows from it.
pub open spec fn readd_qualifies(g: CompressedGroupConstraint, player: int, alive: int) -> bool {
    &&& g.pflag(player)
    &&& g.alive_spec() > alive
    &&& exists|j: int| 0 <= j < 7 && j != player && #[trigger] g.pflag(j)
    &&& g.total_spec() != 0
}

/// `n` is `g` with `player` taken out and its `alive` known and `dead` dead copies subtracted.
pub open spec fn readded_of(n: CompressedGroupConstraint, g: CompressedGroupConstraint, player: int, alive: int,
    dead: int) -> bool
{
    &&& forall|j: int| #[trigger] n.pflag(j) == (j != player && g.pflag(j))
    &&& forall|j: int| #[trigger] n.sflag(j) == (j != player && g.sflag(j))
    &&& n.card_spec() == g.card_spec()
    &&& n.alive_spec() == crate::group::clamp3(g.alive_spec() - alive)
    &&& n.dead_spec() == crate::group::clamp3(g.dead_spec() - dead)
    &&& n.total_spec() == g.total_spec()
}

proof fn lemma_tail_swap_removed(v: Seq<CompressedGroupConstraint>, i: int, x: CompressedGroupConstraint)
    requires
        0 <= i < v.len(),
        v.subrange(i, v.len() as int).contains(x),
        v[i] != x,
    ensures
        swap_removed(v, i).subrange(i, v.len() - 1).contains(x),
        v.subrange(i + 1, v.len() as int).contains(x),
{
    let m = choose|m: int| 0 <= m < v.len() - i && v.subrange(i, v.len() as int)[m] == x;
    let w = swap_removed(v, i);
    if i + m == v.len() - 1 {
        assert(w.subrange(i, v.len() - 1)[0] == x);
    } else {
        assert(w.subrange(i, v.len() - 1)[m] == x);
    }
    assert(v.subrange(i + 1, v.len() as int)[m - 1] == x);
}

/// With the two cards of `player` known, the groups of `v` holding the player that its
/// `alive` known copies account for, or that have no other participant, are dropped; for each
/// other group holding it with some copy, the group of the other participants
/// (`readded_of`) is returned. Groups not holding the player, or without living copies, stay.
fn collect_readds(v: &mut Vec<CompressedGroupConstraint>, player: usize, alive: u8, dead: u8)
    -> (readd: Vec<CompressedGroupConstraint>)
    requires
        player < 7,
    ensures
        forall|k: int| 0 <= k < old(v)@.len() && !(old(v)@[k].pflag(player as int) && old(v)@[k].alive_spec() > 0)
            ==> final(v)@.contains(#[trigger] old(v)@[k]),
        forall|k: int| 0 <= k < old(v)@.len() && #[trigger] readd_qualifies(old(v)@[k], player as int, alive as int)
            ==> exists|m: int| 0 <= m < readd@.len()
                && #[trigger] readded_of(readd@[m], old(v)@[k], player as int, alive as int, dead as int),
{
    let ghost before = v@;
    let mut readd: Vec<CompressedGroupConstraint> = Vec::new();
    let mut i: usize = 0;
    proof {
        assert(v@.subrange(0, v@.len() as int) =~= v@);
        assert forall|j: int| 0 <= j < before.len() implies v@.contains(#[trigger] before[j]) by {
            assert(v@[j] == before[j]);
        }
    }
    while i < v.len()
        invariant
            player < 7,
            i <= v@.len(),
            forall|j: int| 0 <= j < before.len() && !(before[j].pflag(player as int) && before[j].alive_spec() > 0)
                ==> v@.contains(#[trigger] before[j]),
            forall|j: int| 0 <= j < before.len() && #[trigger] readd_qualifies(before[j], player as int, alive as int)
                ==> v@.subrange(i as int, v@.len() as int).contains(before[j]) || exists|m: int| 0 <= m < readd@.len()
                    && #[trigger] readded_of(readd@[m], before[j], player as int, alive as int, dead as int),
        decreases v@.len() - i,
    {
        let g = v[i];
        let ghost vv = v@;
        let ghost r0 = readd@;
        if g.get_player_flag(player) && g.count_alive() > 0 {
            if g.count_alive() <= alive {
                v.swap_remove(i);
                proof {
                    assert(v@ == swap_removed(vv, i as int));
                    assert forall|j: int| 0 <= j < before.len() && !(before[j].pflag(player as int) && before[j].alive_spec() > 0)
                        implies v@.contains(#[trigger] before[j]) by {
                        super::prune::lemma_swap_removed_keeps(vv, i as int, before[j]);
                    }
                    assert forall|j: int| 0 <= j < before.len() && #[trigger] readd_qualifies(before[j], player as int, alive as int)
                        implies v@.subrange(i as int, v@.len() as int).contains(before[j]) || exists|m: int| 0 <= m < readd@.len()
                            && #[trigger] readded_of(readd@[m], before[j], player as int, alive as int, dead as int) by {
                        if vv.subrange(i as int, vv.len() as int).contains(before[j]) {
                            lemma_tail_swap_removed(vv, i as int, before[j]);
                        }
                    }
                }
                continue;
            }
            let mut r = g;
            r.set_player_flag(player, false);
            r.set_single_card_flag(player, false);
            if r.none_in() {
                v.swap_remove(i);
                proof {
                    assert(v@ == swap_removed(vv, i as int));
                    assert forall|j: int| 0 <= j < before.len() && !(before[j].pflag(player as int) && before[j].alive_spec() > 0)
                        implies v@.contains(#[trigger] before[j]) by {
                        super::prune::lemma_swap_removed_keeps(vv, i as int, before[j]);
                    }
                    assert forall|j: int| 0 <= j < before.len() && #[trigger] readd_qualifies(before[j], player as int, alive as int)
                        implies v@.subrange(i as int, v@.len() as int).contains(before[j]) || exists|m: int| 0 <= m < readd@.len()
                            && #[trigger] readded_of(readd@[m], before[j], player as int, alive as int, dead as int) by {
                        if vv.subrange(i as int, vv.len() as int).contains(before[j]) {
                            if before[j] == g {
                                let jj = choose|jj: int| 0 <= jj < 7 && jj != player && #[trigger] before[j].pflag(jj);
                                assert(r.pflag(jj));
                            }
                            lemma_tail_swap_removed(vv, i as int, before[j]);
                        }
                    }
                }
                continue;
            }
            r.sub_alive_count(alive);
            r.sub_dead_count(dead);
            if r.get_total_count() != 0 {
                readd.push(r);
            }
            proof {
                assert(r.pflag(player as int) == false);
                if r.total_spec() != 0 {
                    assert(readd@[readd@.len() - 1] == r);
                }
            }
        }
        proof {
            assert forall|j: int| 0 <= j < before.len() && #[trigger] readd_qualifies(before[j], player as int, alive as int)
                implies v@.subrange(i + 1, v@.len() as int).contains(before[j]) || exists|m: int| 0 <= m < readd@.len()
                    && #[trigger] readded_of(readd@[m], before[j], player as int, alive as int, dead as int) by {
                if exists|m: int| 0 <= m < r0.len() && #[trigger] readded_of(r0[m], before[j], player as int, alive as int, dead as int) {
                    let m = choose|m: int| 0 <= m < r0.len() && #[trigger] readded_of(r0[m], before[j], player as int, alive as int, dead as int);
                    assert(readd@[m] == r0[m]);
                } else if before[j] == g {
                    assert(readded_of(readd@[readd@.len() - 1], before[j], player as int, alive as int, dead as int));
                } else {
                    lemma_tail_swap_removed(vv, i as int, before[j]);
                }
            }
        }
        i += 1;
    }
    readd
}

/// The list `after` of a card after the player's two cards are known: every group of
/// `before` not holding the player (or without living copies) is kept or made redundant, and
/// for every group holding it that `readd_qualifies`, the group of the other participants
/// (`readded_of`) is there or made redundant.
pub open spec fn readjusted_list(after: Seq<CompressedGroupConstraint>, before: Seq<CompressedGroupConstraint>,
    player: int, alive: int, dead: int) -> bool
{
    &&& forall|k: int| 0 <= k < before.len() && !(before[k].pflag(player) && before[k].alive_spec() > 0)
        ==> present_or_covered(after, #[trigger] before[k])
    &&& forall|k: int| 0 <= k < before.len() && #[trigger] readd_qualifies(before[k], player, alive)
        ==> exists|n: CompressedGroupConstraint| #[trigger] readded_of(n, before[k], player, alive, dead)
            && present_or_covered(after, n)
}

/// The living copies of card number `c` known around `player` and the pile: its own known
/// copies or a group of only it and the pile, whichever says more.
pub open spec fn circulating_of(s: PathDependentCollectiveConstraint, player: int, c: int) -> int {
    max_alive_pp(s.groups_view()[c], player, count_card(s.inferred_view()[player], card_at(c)) as int)
}

/// After the exchange of `player`, the pile's known copies of card number `c` are adjusted:
/// they and the player's lives cover the copies known around them.
pub open spec fn adjusts(s: PathDependentCollectiveConstraint, player: int, c: int) -> bool {
    count_card(s.inferred_view()[6], card_at(c)) + (2 - s.public_view()[player].len()) >= circulating_of(s, player, c)
}

/// How many known copies the pile keeps: when it and the player's lives cover the copies
/// known around them, only those the player cannot hold.
pub open spec fn pile_kept(pile: int, lives: int, circ: int) -> int {
    if pile + lives >= circ { if circ - lives > 0 { circ - lives } else { 0 } } else { pile }
}

/// Every player but `player` has lost both cards.
pub open spec fn others_dead(public: Seq<Seq<Card>>, player: int) -> bool {
    forall|p: int| 0 <= p < 6 && p != player ==> #[trigger] public[p].len() >= 2
}

/// The list holds a group of only `player` and the pile (or fewer) with at least the
/// `circ` living copies (at most three).
pub open spec fn pile_group_recorded(list: Seq<CompressedGroupConstraint>, player: int, circ: int) -> bool {
    exists|k: int| 0 <= k < list.len()
        && (forall|j: int| 0 <= j < 7 && #[trigger] list[k].pflag(j) ==> (j == player || j == 6))
        && crate::group::clamp3(circ) <= list[k].alive_spec()
}

/// `after` is the known cards `mid` after `player` redrew in place of `card` (`redraw`): the
/// card leaves the player's row and the pile's row is adjusted (`pile_after`).
pub open spec fn redrawn_from(after: Seq<Seq<Card>>, mid: Seq<Seq<Card>>, player: int, card: Card) -> bool {
    let inf1 = mid.update(player, crate::card::swap_remove_card(mid[player], card));
    after == inf1.update(6, super::mixing::pile_after(inf1[6], card, 5))
}

impl PathDependentCollectiveConstraint {
    /// `player_id` revealed `reveal` and exchanged it with the pile for `redraw`, both known:
    /// each is first recorded where it was (`add_inferred_card`), then the two known cards
    /// change places, the groups follow (`swap_mix`) and redundant groups are dropped.
    pub fn reveal_redraw_diff(&mut self, player_id: usize, reveal: Card, redraw: Card)
        requires
            old(self).wf(),
            player_id < 6,
            add_ok(old(self).public_view()[player_id as int], old(self).inferred_view()[player_id as int],
                player_id as int, reveal, 1),
            add_ok(old(self).public_view()[6], old(self).inferred_view()[6], 6, redraw, 1),
        ensures
            final(self).wf(),
            final(self).public_view() == old(self).public_view(),
            final(self).inferred_view() == old(self).inferred_view()
                .update(player_id as int, remove_card(with_card(old(self).inferred_view()[player_id as int], reveal), reveal).push(redraw))
                .update(6, remove_card(with_card(old(self).inferred_view()[6], redraw), redraw).push(reveal)),
            final(self).impossible_view() == old(self).impossible_view(),
            final(self).history_view() == old(self).history_view(),
            final(self).move_no_spec() == old(self).move_no_spec(),
            forall|c: int| 0 <= c < 5 ==> no_redundant_pair_from(#[trigger] final(self).groups_view()[c], 0),
    {
        proof { self.lemma_wf_rows(); }
        let ghost inf0 = self.inferred_view();
        if !contains_card(&self.inferred_constraints[player_id], reveal) {
            let mut changes: Vec<Vec<usize>> = empty_lists();
            self.add_inferred_card(player_id, reveal, 1, &mut changes);
        }
        proof { self.lemma_wf_rows(); }
        let ghost inf1 = self.inferred_view();
        assert(inf1 == inf0.update(player_id as int, with_card(inf0[player_id as int], reveal)));
        if !contains_card(&self.inferred_constraints[6], redraw) {
            let mut changes: Vec<Vec<usize>> = empty_lists();
            self.add_inferred_card(6, redraw, 1, &mut changes);
        }
        proof { self.lemma_wf_rows(); }
        let ghost inf2 = self.inferred_view();
        assert(inf2 == inf1.update(6, with_card(inf1[6], redraw)));
        let ghost t0 = self.inferred_constraints@;
        remove_card_from(&mut self.inferred_constraints[player_id], reveal);
        let ghost t1 = self.inferred_constraints@;
        remove_card_from(&mut self.inferred_constraints[6], redraw);
        let ghost r_p = remove_card(with_card(inf0[player_id as int], reveal), reveal);
        let ghost r_6 = remove_card(with_card(inf0[6], redraw), redraw);
        proof {
            assert forall|i: int| 0 <= i < 7 implies #[trigger] self.inferred_view()[i]
                == inf0.update(player_id as int, r_p).update(6, r_6)[i] by {
                lemma_rows(self.inferred_constraints@, i);
                lemma_rows(t1, i);
                lemma_rows(t0, i);
            }
            crate::card::lemma_first_pos_exists(with_card(inf0[player_id as int], reveal), reveal);
            crate::card::lemma_first_pos_exists(with_card(inf0[6], redraw), redraw);
            assert(with_card(inf0[player_id as int], reveal).contains(reveal)) by {
                if !inf0[player_id as int].contains(reveal) {
                    assert(inf0[player_id as int].push(reveal)[inf0[player_id as int].len() as int] == reveal);
                }
            }
            assert(with_card(inf0[6], redraw).contains(redraw)) by {
                if !inf0[6].contains(redraw) {
                    assert(inf0[6].push(redraw)[inf0[6].len() as int] == redraw);
                }
            }
            assert(self.inferred_view() =~= inf0.update(player_id as int, r_p).update(6, r_6));
        }
        self.swap_mix(player_id, reveal, 6, redraw);
        self.swap_add_inferred_cards_unchecked(player_id, redraw, 6, reveal);
        self.group_redundant_prune();
        proof {
            assert(self.inferred_view() =~= inf0.update(player_id as int, r_p.push(redraw)).update(6, r_6.push(reveal)));
        }
    }

    /// `player_id` revealed `relinquish` and gave it to the pile without drawing: it is first
    /// recorded with the player (`add_inferred_card`), then it moves to the pile's known
    /// cards, the groups follow (`relinquish_mix`) and redundant groups are dropped.
    pub fn reveal_redraw_relinquish(&mut self, player_id: usize, relinquish: Card)
        requires
            old(self).wf(),
            player_id < 6,
            add_ok(old(self).public_view()[player_id as int], old(self).inferred_view()[player_id as int],
                player_id as int, relinquish, 1),
            old(self).inferred_view()[6].len() < 3,
        ensures
            final(self).wf(),
            final(self).public_view() == old(self).public_view(),
            final(self).inferred_view() == old(self).inferred_view()
                .update(player_id as int, remove_card(with_card(old(self).inferred_view()[player_id as int], relinquish), relinquish))
                .update(6, old(self).inferred_view()[6].push(relinquish)),
            final(self).impossible_view() == old(self).impossible_view(),
            final(self).history_view() == old(self).history_view(),
            final(self).move_no_spec() == old(self).move_no_spec(),
            forall|c: int| 0 <= c < 5 ==> no_redundant_pair_from(#[trigger] final(self).groups_view()[c], 0),
    {
        proof { self.lemma_wf_rows(); }
        let ghost inf0 = self.inferred_view();
        if !contains_card(&self.inferred_constraints[player_id], relinquish) {
            let mut changes: Vec<Vec<usize>> = empty_lists();
            self.add_inferred_card(player_id, relinquish, 1, &mut changes);
        }
        proof { self.lemma_wf_rows(); }
        let ghost t0 = self.inferred_constraints@;
        remove_card_from(&mut self.inferred_constraints[player_id], relinquish);
        let ghost r_p = remove_card(with_card(inf0[player_id as int], relinquish), relinquish);
        proof {
            assert forall|i: int| 0 <= i < 7 implies #[trigger] self.inferred_view()[i]
                == inf0.update(player_id as int, r_p)[i] by {
                lemma_rows(self.inferred_constraints@, i);
                lemma_rows(t0, i);
            }
            crate::card::lemma_first_pos_exists(with_card(inf0[player_id as int], relinquish), relinquish);
            assert(with_card(inf0[player_id as int], relinquish).contains(relinquish)) by {
                if !inf0[player_id as int].contains(relinquish) {
                    assert(inf0[player_id as int].push(relinquish)[inf0[player_id as int].len() as int] == relinquish);
                }
            }
            assert(self.inferred_view() =~= inf0.update(player_id as int, r_p));
        }
        self.relinquish_mix(player_id, 6, relinquish);
        let mut changes: Vec<Vec<usize>> = empty_lists();
        self.add_inferred_card_unchecked(6, relinquish, 1, &mut changes);
        self.group_redundant_prune();
        proof {
            assert(self.inferred_view() =~= inf0.update(player_id as int, r_p).update(6, inf0[6].push(relinquish)));
        }
    }

    /// After an unseen exchange with the pile by `player_id`: for each card, the pile keeps
    /// only as many known copies as can still be elsewhere than with the player, and the group
    /// of the player and the pile holding the living copies known around them is added. Where
    /// the pile's known copies and the player's lives cannot cover those copies, the card is
    /// left as it is.
    pub fn ambassador_inferred_adjustment(&mut self, player_id: usize)
        requires
            old(self).wf(),
            player_id < 6,
        ensures
            final(self).wf(),
            final(self).public_view() == old(self).public_view(),
            forall|q: int| 0 <= q < 6 ==> #[trigger] final(self).inferred_view()[q] == old(self).inferred_view()[q],
            final(self).impossible_view() == old(self).impossible_view(),
            final(self).history_view() == old(self).history_view(),
            final(self).move_no_spec() == old(self).move_no_spec(),
            forall|c: int| 0 <= c < 5 ==> #[trigger] count_card(final(self).inferred_view()[6], card_at(c)) == pile_kept(
                count_card(old(self).inferred_view()[6], card_at(c)) as int, 2 - old(self).public_view()[player_id as int].len(),
                circulating_of(*old(self), player_id as int, c)),
            forall|c: int| 0 <= c < 5 && #[trigger] adjusts(*old(self), player_id as int, c)
                && !others_dead(old(self).public_view(), player_id as int)
                ==> pile_group_recorded(final(self).groups_view()[c], player_id as int, circulating_of(*old(self), player_id as int, c)),
    {
        let lives = self.player_lives(player_id);
        let circulating = self.total_known_alive_with_player_and_pile(player_id);
        let ghost s0 = *self;
        let mut c: usize = 0;
        while c < 5
            invariant
                self.wf(),
                player_id < 6,
                c <= 5,
                lives <= 2,
                lives == 2 - s0.public_view()[player_id as int].len(),
                s0 == *old(self),
                forall|x: int| 0 <= x < 5 ==> #[trigger] circulating@[x] == circulating_of(s0, player_id as int, x),
                self.public_view() == old(self).public_view(),
                forall|q: int| 0 <= q < 6 ==> #[trigger] self.inferred_view()[q] == old(self).inferred_view()[q],
                self.impossible_view() == old(self).impossible_view(),
                self.history_view() == old(self).history_view(),
                self.move_no_spec() == old(self).move_no_spec(),
                forall|x: int| 0 <= x < 5 ==> #[trigger] count_card(self.inferred_view()[6], card_at(x)) == if x < c {
                    pile_kept(count_card(s0.inferred_view()[6], card_at(x)) as int, lives as int, circulating_of(s0, player_id as int, x))
                } else { count_card(s0.inferred_view()[6], card_at(x)) as int },
                forall|x: int| c <= x < 5 ==> #[trigger] self.groups_view()[x] == s0.groups_view()[x],
                forall|x: int| 0 <= x < c && #[trigger] adjusts(s0, player_id as int, x) && !others_dead(s0.public_view(), player_id as int)
                    ==> pile_group_recorded(self.groups_view()[x], player_id as int, circulating_of(s0, player_id as int, x)),
            decreases 5 - c,
        {
            let card = Card::from_num(c);
            proof { self.lemma_wf_rows(); }
            let pile = count_in(&self.inferred_constraints[6], card);
            proof { crate::card::lemma_count_card_le_len(self.inferred_view()[6], card); }
            if pile + lives >= circulating[c] {
                let removal = pile + lives - circulating[c];
                let ghost inf_c = self.inferred_view();
                let ghost gv_c = self.groups_view();
                let mut k: u8 = 0;
                while k < removal
                    invariant
                        self.wf(),
                        player_id < 6,
                        c < 5,
                        card == card_at(c as int),
                        k <= removal,
                        self.public_view() == old(self).public_view(),
                        forall|q: int| 0 <= q < 6 ==> #[trigger] self.inferred_view()[q] == old(self).inferred_view()[q],
                        self.impossible_view() == old(self).impossible_view(),
                        self.history_view() == old(self).history_view(),
                        self.move_no_spec() == old(self).move_no_spec(),
                        self.groups_view() == gv_c,
                        count_card(self.inferred_view()[6], card) == if k <= pile { pile - k } else { 0int },
                        forall|x: int| 0 <= x < 5 && x != c ==> #[trigger] count_card(self.inferred_view()[6], card_at(x))
                            == count_card(inf_c[6], card_at(x)),
                    decreases removal - k,
                {
                    proof { self.lemma_wf_rows(); }
                    let ghost inf0 = self.inferred_view();
                    swap_remove_card_from(&mut self.inferred_constraints[6], card);
                    proof {
                        crate::card::lemma_swap_remove_card_len(inf0[6], card);
                        assert(self.inferred_view() =~= inf0.update(6, crate::card::swap_remove_card(inf0[6], card)));
                        crate::card::lemma_count_card_contains(inf0[6], card);
                        crate::card::lemma_count_swap_remove_card(inf0[6], card, card);
                        assert forall|x: int| 0 <= x < 5 && x != c implies #[trigger] count_card(self.inferred_view()[6], card_at(x))
                            == count_card(inf_c[6], card_at(x)) by {
                            crate::card::lemma_count_swap_remove_card(inf0[6], card, card_at(x));
                            crate::card::lemma_card_index_roundtrip(card);
                        }
                    }
                    k += 1;
                }
                let dead = self.player_dead_card_count(player_id, card);
                let group = CompressedGroupConstraint::new_with_pile(player_id, card, dead, circulating[c]);
                let ghost g0 = self.groups_view();
                self.add_group_constraint(group);
                proof {
                    crate::card::lemma_card_index_roundtrip(card);
                    if !others_dead(s0.public_view(), player_id as int) {
                        let known = group.pflag(6) && forall|p: int| 0 <= p < 6 ==>
                            (!#[trigger] group.pflag(p) ==> old(self).public_view()[p].len() >= 2);
                        if known {
                            assert forall|p: int| 0 <= p < 6 && p != player_id implies #[trigger] s0.public_view()[p].len() >= 2 by {
                                assert(!group.pflag(p));
                            }
                        }
                        let gl = self.groups_view()[c as int];
                        let k = choose|k: int| 0 <= k < gl.len() && #[trigger] super::group_ops::says_as_much(gl[k], group);
                        assert forall|j: int| 0 <= j < 7 && #[trigger] gl[k].pflag(j) implies (j == player_id || j == 6) by {
                            assert(gl[k].plist()[j]);
                        }
                    }
                }
            } else {
                proof { assert(!adjusts(s0, player_id as int, c as int)); }
            }
            c += 1;
        }
    }

    /// `player_id` exchanged cards with the pile unseen: the groups mix (`mix`), the pile's
    /// known cards are adjusted (`ambassador_inferred_adjustment`), redundant groups are
    /// dropped and everything derivable is derived.
    pub fn ambassador_public(&mut self, player_id: usize)
        requires
            old(self).wf(),
            player_id < 6,
        ensures
            final(self).wf(),
            final(self).public_view() == old(self).public_view(),
            final(self).history_view() == old(self).history_view(),
            final(self).move_no_spec() == old(self).move_no_spec(),
            super::mixing::mixed_impossible(final(self).impossible_view(), old(self).impossible_view(), player_id as int),
    {
        self.mix(player_id);
        self.ambassador_inferred_adjustment(player_id);
        self.group_redundant_prune();
        self.add_inferred_information();
    }

    /// After `player_id` revealed `card`: drops from every list the groups holding the player
    /// whose living copies it is known to hold; with both its cards known, also drops the
    /// groups holding only the player, and for each other group holding it adds the group of
    /// the other participants with the player's copies taken out (when any copy is left),
    /// without redundancy (`readjusted_list`).
    pub fn reveal_group_adjustment(&mut self, player_id: usize, card: Card)
        requires
            old(self).wf(),
            player_id < 7,
        ensures
            final(self).wf(),
            final(self).public_view() == old(self).public_view(),
            final(self).inferred_view() == old(self).inferred_view(),
            final(self).impossible_view() == old(self).impossible_view(),
            final(self).history_view() == old(self).history_view(),
            final(self).move_no_spec() == old(self).move_no_spec(),
            old(self).public_view()[player_id as int].len() + old(self).inferred_view()[player_id as int].len() != 2
                ==> forall|c: int| 0 <= c < 5 ==> list_dropped(#[trigger] final(self).groups_view()[c],
                    old(self).groups_view()[c], player_id as int, 1,
                    count_card(old(self).inferred_view()[player_id as int], card_at(c)) as int),
            old(self).public_view()[player_id as int].len() + old(self).inferred_view()[player_id as int].len() == 2
                ==> forall|c: int| 0 <= c < 5 ==> readjusted_list(#[trigger] final(self).groups_view()[c],
                    old(self).groups_view()[c], player_id as int,
                    count_card(old(self).inferred_view()[player_id as int], card_at(c)) as int,
                    count_card(old(self).public_view()[player_id as int], card_at(c)) as int),
    {
        let alive = self.player_inferred_card_counts(player_id);
        let dead = self.player_dead_card_counts(player_id);
        let known = self.player_cards_known(player_id);
        let mut c: usize = 0;
        while c < 5
            invariant
                self.wf(),
                player_id < 7,
                c <= 5,
                self.public_view() == old(self).public_view(),
                self.inferred_view() == old(self).inferred_view(),
                self.impossible_view() == old(self).impossible_view(),
                self.history_view() == old(self).history_view(),
                self.move_no_spec() == old(self).move_no_spec(),
                self.groups_view().len() == 5,
                known == old(self).public_view()[player_id as int].len() + old(self).inferred_view()[player_id as int].len(),
                forall|k: int| 0 <= k < 5 ==> #[trigger] alive@[k] == count_card(old(self).inferred_view()[player_id as int], card_at(k)),
                known != 2 ==> forall|k: int| 0 <= k < c ==> list_dropped(#[trigger] self.groups_view()[k],
                    old(self).groups_view()[k], player_id as int, 1, alive@[k] as int),
                forall|k: int| c <= k < 5 ==> #[trigger] self.groups_view()[k] == old(self).groups_view()[k],
                forall|k: int| 0 <= k < 5 ==> #[trigger] dead@[k] == count_card(old(self).public_view()[player_id as int], card_at(k)),
                known == 2 ==> forall|k: int| 0 <= k < c ==> readjusted_list(#[trigger] self.groups_view()[k],
                    old(self).groups_view()[k], player_id as int, alive@[k] as int, dead@[k] as int),
            decreases 5 - c,
        {
            let ghost gs = self.group_constraints@;
            proof { lemma_group_rows(gs, c as int); }
            if known != 2 {
                drop_player_groups(&mut self.group_constraints[c], player_id, 1, alive[c]);
            } else {
                let readd = collect_readds(&mut self.group_constraints[c], player_id, alive[c], dead[c]);
                let ghost l0 = self.group_constraints@[c as int]@;
                proof {
                    assert forall|k: int| 0 <= k < l0.len() implies present_or_covered(l0, #[trigger] l0[k]) by {
                        assert(l0.contains(l0[k]));
                    }
                }
                let mut k: usize = 0;
                while k < readd.len()
                    invariant
                        self.wf(),
                        c < 5,
                        k <= readd@.len(),
                        gs.len() == 5,
                        self.group_constraints@.len() == 5,
                        forall|kk: int| 0 <= kk < 5 && kk != c ==> #[trigger] self.group_constraints@[kk] == gs[kk],
                        self.public_view() == old(self).public_view(),
                        self.inferred_view() == old(self).inferred_view(),
                        self.impossible_view() == old(self).impossible_view(),
                        self.history_view() == old(self).history_view(),
                        self.move_no_spec() == old(self).move_no_spec(),
                        forall|j: int| 0 <= j < l0.len() ==> present_or_covered(self.group_constraints@[c as int]@, #[trigger] l0[j]),
                        forall|m: int| 0 <= m < k ==> present_or_covered(self.group_constraints@[c as int]@, #[trigger] readd@[m]),
                    decreases readd@.len() - k,
                {
                    let ghost cur = self.group_constraints@[c as int]@;
                    Self::non_redundant_push(&mut self.group_constraints[c], readd[k]);
                    proof {
                        let nxt = self.group_constraints@[c as int]@;
                        assert forall|j: int| 0 <= j < l0.len() implies present_or_covered(nxt, #[trigger] l0[j]) by {
                            lemma_push_keeps_covered(cur, nxt, l0[j], readd@[k as int]);
                        }
                        assert forall|m: int| 0 <= m < k + 1 implies present_or_covered(nxt, #[trigger] readd@[m]) by {
                            if m < k { lemma_push_keeps_covered(cur, nxt, readd@[m], readd@[k as int]); }
                        }
                    }
                    k += 1;
                }
                proof {
                    lemma_group_rows(self.group_constraints@, c as int);
                    let fin = self.group_constraints@[c as int]@;
                    let og = old(self).groups_view()[c as int];
                    assert(og == gs[c as int]@);
                    assert forall|j: int| 0 <= j < og.len() && #[trigger] readd_qualifies(og[j], player_id as int, alive@[c as int] as int)
                        implies exists|n: CompressedGroupConstraint| #[trigger] readded_of(n, og[j], player_id as int, alive@[c as int] as int,
                            dead@[c as int] as int) && present_or_covered(fin, n) by {
                        let m = choose|m: int| 0 <= m < readd@.len()
                            && #[trigger] readded_of(readd@[m], og[j], player_id as int, alive@[c as int] as int, dead@[c as int] as int);
                        assert(present_or_covered(fin, readd@[m]));
                    }
                    assert forall|j: int| 0 <= j < og.len() && !(og[j].pflag(player_id as int) && og[j].alive_spec() > 0)
                        implies present_or_covered(fin, #[trigger] og[j]) by {
                        let m = choose|m: int| 0 <= m < l0.len() && l0[m] == og[j];
                        assert(present_or_covered(fin, l0[m]));
                    }
                }
            }
            proof { lemma_only_list_changed(gs, self.group_constraints@, c as int); }
            c += 1;
        }
    }

    /// `player_id` revealed `card`: it is known to hold it, the groups are adjusted
    /// (`reveal_group_adjustment`), everything derivable is derived, and `card` is settled if
    /// all its copies are placed.
    pub fn reveal_card(&mut self, history_index: usize, player_id: usize, card: Card)
        requires
            old(self).wf(),
            player_id < 6,
            !old(self).inferred_view()[player_id as int].contains(card) ==> old(self).inferred_view()[player_id as int].len() < 2,
        ensures
            final(self).wf(),
            final(self).public_view() == old(self).public_view(),
            final(self).impossible_view() == old(self).impossible_view(),
            final(self).history_view() == old(self).history_view(),
            final(self).move_no_spec() == old(self).move_no_spec(),
            super::table_count(final(self).public_view(), card) + super::table_count(final(self).inferred_view(), card) == 3
                ==> final(self).groups_view()[card_index(card)].len() == 1
                    && super::mutation::all_known_group(final(self).groups_view()[card_index(card)][0],
                        final(self).public_view(), final(self).inferred_view(), card),
    {
        if !self.inferred_player_constraint_contains(player_id, card) {
            self.add_inferred_player_constraint(player_id, card);
        }
        self.reveal_group_adjustment(player_id, card);
        self.add_inferred_information();
        self.clear_group_constraints(card);
    }

    /// `player_id` lost `card`: it is recorded dead (`add_dead_card`), redundant groups are
    /// dropped and everything derivable is derived.
    pub fn death(&mut self, history_index: usize, player_id: usize, card: Card)
        requires
            old(self).wf(),
            player_id < 7,
            old(self).public_view()[player_id as int].len() < 2,
        ensures
            final(self).wf(),
            final(self).public_view() == old(self).public_view().update(player_id as int,
                old(self).public_view()[player_id as int].push(card)),
            final(self).impossible_view() == old(self).impossible_view(),
            final(self).history_view() == old(self).history_view(),
            final(self).move_no_spec() == old(self).move_no_spec(),
    {
        self.add_dead_card(player_id, card);
        self.group_redundant_prune();
        self.add_inferred_information();
    }

    /// `player_id` revealed `card` and drew a replacement: `reveal_card`, then `redraw`.
    pub fn reveal_redraw(&mut self, history_index: usize, player_id: usize, card: Card)
        requires
            old(self).wf(),
            player_id < 6,
            !old(self).inferred_view()[player_id as int].contains(card) ==> old(self).inferred_view()[player_id as int].len() < 2,
        ensures
            final(self).wf(),
            final(self).public_view() == old(self).public_view(),
            final(self).impossible_view() == old(self).impossible_view(),
            final(self).history_view() == old(self).history_view(),
            final(self).move_no_spec() == old(self).move_no_spec(),
            exists|mid: Seq<Seq<Card>>| #[trigger] redrawn_from(final(self).inferred_view(), mid, player_id as int, card)
                && super::mixing::pile_group_kept(final(self).groups_view()[card_index(card)], player_id as int,
                    card_index(card), card_index(card), old(self).public_view()[player_id as int], mid[6]),
    {
        self.reveal_card(history_index, player_id, card);
        let ghost mid = self.inferred_view();
        self.redraw(player_id, card);
        proof {
            assert(redrawn_from(self.inferred_view(), mid, player_id as int, card));
            crate::card::lemma_card_index_roundtrip(card);
            assert(super::mixing::pile_group_kept(self.groups_view()[card_index(card)], player_id as int,
                card_index(card), card_index(card), old(self).public_view()[player_id as int], mid[6]));
        }
    }

    /// `player_id` revealed `card` and got the same card back: it is known to hold it.
    pub fn reveal_redraw_same(&mut self, player_id: usize, card: Card)
        requires
            old(self).wf(),
            player_id < 7,
            add_ok(old(self).public_view()[player_id as int], old(self).inferred_view()[player_id as int],
                player_id as int, card, 1),
        ensures
            final(self).wf(),
            final(self).public_view() == old(self).public_view(),
            final(self).inferred_view()[player_id as int].contains(card),
            final(self).inferred_view() == if old(self).inferred_view()[player_id as int].contains(card) {
                old(self).inferred_view()
            } else {
                old(self).inferred_view().update(player_id as int, old(self).inferred_view()[player_id as int].push(card))
            },
            old(self).inferred_view()[player_id as int].contains(card) ==> final(self).groups_view() == old(self).groups_view(),
            final(self).impossible_view() == old(self).impossible_view(),
            final(self).history_view() == old(self).history_view(),
            final(self).move_no_spec() == old(self).move_no_spec(),
    {
        proof { self.lemma_wf_rows(); }
        if !contains_card(&self.inferred_constraints[player_id], card) {
            let mut changes: Vec<Vec<usize>> = empty_lists();
            self.add_inferred_card(player_id, card, 1, &mut changes);
            proof {
                assert(self.inferred_view()[player_id as int] == old(self).inferred_view()[player_id as int].push(card));
                assert(self.inferred_view()[player_id as int].last() == card);
            }
        }
    }
}

} // verus!
