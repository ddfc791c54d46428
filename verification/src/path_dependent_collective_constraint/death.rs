use vstd::prelude::*;
use crate::card::{Card, card_index, card_at, count_card, swap_remove_card, swap_remove_card_from};
use crate::group::{CompressedGroupConstraint, count_flags};
use super::{PathDependentCollectiveConstraint, lemma_group_rows, lemma_only_list_changed, table_count};
use super::prune::{list_stripped, kill_player_in_list, kill_of};
use super::hand::singles_without;
use super::mutation::all_known_group;
use super::bulk::named_in;
use super::queries::card_counts;

verus! {

proof fn lemma_contains_count(s: Seq<Card>, c: Card)
    requires
        s.contains(c),
    ensures
        count_card(s, c) > 0,
    decreases s.len(),
{
    if s.last() != c {
        let k = choose|k: int| 0 <= k < s.len() && s[k] == c;
        assert(s.drop_last()[k] == c);
        lemma_contains_count(s.drop_last(), c);
    }
}

/// What the death of `card` of `player` does to the groups of card number `c`, given the
/// player's dead and known cards after it: a player with both cards dead leaves every group
/// (the dead copies subtracted, and for `card` one living copy less); a player with one
/// known living card leaves every group (that card's copies subtracted, and for `card` one
/// living copy more); otherwise, in the groups of `card` holding the player, one living copy
/// becomes dead. The lists of a card whose three copies are dead, and of `card` once all
/// its copies are placed, stay as they are.
pub open spec fn dead_pruned_list(after: Seq<CompressedGroupConstraint>, before: Seq<CompressedGroupConstraint>,
    public_row: Seq<Card>, inferred_row: Seq<Card>, player: int, card: Card, all_known: bool, c: int) -> bool
{
    let dc = count_card(public_row, card_at(c)) as int;
    let ic = count_card(inferred_row, card_at(c)) as int;
    let is_card = c == card_index(card);
    if dc == 3 || (is_card && all_known) {
        after == before
    } else if public_row.len() == 2 {
        if is_card {
            list_stripped(after, before, player, 1, 1, dc - 1, dc)
        } else {
            list_stripped(after, before, player, ic, ic, dc, ic + dc)
        }
    } else if inferred_row.len() == 1 {
        if is_card {
            list_stripped(after, before, player, 1 + ic, 1 + ic, 0, 1 + ic)
        } else {
            list_stripped(after, before, player, ic, ic, 0, ic)
        }
    } else if is_card {
        &&& forall|k: int| 0 <= k < after.len() ==>
            (before.contains(#[trigger] after[k]) && !after[k].pflag(player)) || kill_of(after[k], before, player, true)
        &&& forall|j: int| 0 <= j < before.len() && !(#[trigger] before[j]).pflag(player) ==> after.contains(before[j])
    } else {
        after == before
    }
}

/// The parameters with which `strip_dead_player` strips the list of card number `k`.
pub open spec fn params_ok(k: int, ci: int, own_active: bool, two_dead: bool, dead: int, inf: int,
    active: bool, keep: int, a: int, d: int, t: int) -> bool
{
    &&& active == if k == ci { own_active } else { dead != 3 }
    &&& if two_dead {
        if k == ci {
            keep == 1 && a == 1 && d == dead - 1 && t == dead
        } else {
            keep == inf && a == inf && d == dead && t == inf + dead
        }
    } else {
        if k == ci {
            keep == 1 + inf && a == 1 + inf && d == 0 && t == 1 + inf
        } else {
            keep == inf && a == inf && d == 0 && t == inf
        }
    }
}

impl PathDependentCollectiveConstraint {
    /// The group work of `dead_card_prune` before the split-off groups are recorded: settles
    /// `card` when all its copies are placed, adjusts the lists (see `dead_pruned_list`), and
    /// returns the groups left about a single participant.
    fn strip_dead_player(&mut self, player_id: usize, card: Card) -> (r: Vec<CompressedGroupConstraint>)
        requires
            old(self).wf(),
            player_id < 7,
            old(self).public_view()[player_id as int].len() == 2 ==> old(self).public_view()[player_id as int].contains(card),
        ensures
            final(self).wf(),
            final(self).public_view() == old(self).public_view(),
            final(self).inferred_view() == old(self).inferred_view(),
            final(self).impossible_view() == old(self).impossible_view(),
            final(self).history_view() == old(self).history_view(),
            final(self).move_no_spec() == old(self).move_no_spec(),
            forall|c: int| 0 <= c < 5 ==> {
                let all_known = table_count(old(self).public_view(), card) + table_count(old(self).inferred_view(), card) == 3;
                &&& (c == card_index(card) && all_known) ==> final(self).groups_view()[c].len() == 1
                    && all_known_group(final(self).groups_view()[c][0], old(self).public_view(), old(self).inferred_view(), card)
                &&& !(c == card_index(card) && all_known) ==> dead_pruned_list(#[trigger] final(self).groups_view()[c],
                    old(self).groups_view()[c], old(self).public_view()[player_id as int],
                    old(self).inferred_view()[player_id as int], player_id as int, card, all_known, c)
            },
            singles_without(r@, Seq::empty(), player_id as int),
            !(old(self).public_view()[player_id as int].len() == 2 || old(self).inferred_view()[player_id as int].len() == 1)
                ==> r@.len() == 0,
    {
        let all_known = self.clear_group_constraints(card);
        proof { self.lemma_wf_rows(); }
        let mut new_inferred: Vec<CompressedGroupConstraint> = Vec::new();
        assert(new_inferred@.subrange(0, 0) =~= Seq::<CompressedGroupConstraint>::empty());
        let dead = card_counts(&self.public_constraints[player_id]);
        let inf = card_counts(&self.inferred_constraints[player_id]);
        let ci = card.num();
        let own_active = !all_known && dead[ci] != 3;
        let public_len = self.public_constraints[player_id].len();
        let inferred_len = self.inferred_constraints[player_id].len();
        if public_len == 2 || inferred_len == 1 {
            proof {
                if public_len == 2 {
                    lemma_contains_count(self.public_view()[player_id as int], card);
                    assert(card_at(ci as int) == card);
                }
            }
            let mut active = [false; 5];
            let mut keep = [0u8; 5];
            let mut a = [0u8; 5];
            let mut d = [0u8; 5];
            let mut t = [0u8; 5];
            let mut c: usize = 0;
            while c < 5
                invariant
                    c <= 5,
                    ci == card_index(card),
                    ci < 5,
                    public_len == 2 || inferred_len == 1,
                    public_len == 2 ==> dead@[ci as int] >= 1,
                    forall|k: int| 0 <= k < 5 ==> #[trigger] dead@[k] <= 3,
                    forall|k: int| 0 <= k < 5 ==> #[trigger] inf@[k] <= 3,
                    forall|k: int| 0 <= k < c ==> params_ok(k, ci as int, own_active, public_len == 2,
                        dead@[k] as int, inf@[k] as int, active@[k], keep@[k] as int, a@[k] as int, d@[k] as int, t@[k] as int),
                decreases 5 - c,
            {
                let ghost (a0, k0, aa0, d0, t0) = (active, keep, a, d, t);
                if c == ci {

                    active[c] = own_active;
                    if public_len == 2 {
                        keep[c] = 1;
                        a[c] = 1;
                        d[c] = dead[c] - 1;
                        t[c] = dead[c];
                    } else {
                        keep[c] = 1 + inf[c];
                        a[c] = 1 + inf[c];
                        d[c] = 0;
                        t[c] = 1 + inf[c];
                    }
                } else {
                    active[c] = dead[c] != 3;
                    keep[c] = inf[c];
                    a[c] = inf[c];
                    if public_len == 2 {
                        d[c] = dead[c];
                        t[c] = inf[c] + dead[c];
                    } else {
                        d[c] = 0;
                        t[c] = inf[c];
                    }
                }
                proof {
                    assert forall|k: int| 0 <= k < c + 1 implies params_ok(k, ci as int, own_active, public_len == 2,
                        dead@[k] as int, inf@[k] as int, active@[k], keep@[k] as int, a@[k] as int, d@[k] as int, t@[k] as int) by {
                        if k < c {
                            assert(active@[k] == a0@[k] && keep@[k] == k0@[k] && a@[k] == aa0@[k] && d@[k] == d0@[k] && t@[k] == t0@[k]);
                        }
                    }
                }
                c += 1;
            }
            self.strip_player_lists(player_id, active, keep, a, d, t, &mut new_inferred);
        } else if own_active {
            let ghost gs = self.group_constraints@;
            proof { lemma_group_rows(gs, ci as int); }
            kill_player_in_list(&mut self.group_constraints[ci], player_id, true);
            proof { lemma_only_list_changed(gs, self.group_constraints@, ci as int); }
        }
        new_inferred
    }

    /// After `card` of `player_id` died: prunes the groups (see `dead_pruned_list`) and
    /// records what the groups left about a single participant say (`add_inferred_card_bulk`).
    pub fn dead_card_prune(&mut self, player_id: usize, card: Card)
        requires
            old(self).wf(),
            player_id < 7,
            old(self).public_view()[player_id as int].len() == 2 ==> old(self).public_view()[player_id as int].contains(card),
        ensures
            final(self).wf(),
            final(self).public_view() == old(self).public_view(),
            final(self).impossible_view() == old(self).impossible_view(),
            final(self).history_view() == old(self).history_view(),
            final(self).move_no_spec() == old(self).move_no_spec(),
            final(self).inferred_view()[player_id as int] == old(self).inferred_view()[player_id as int],
            !(old(self).public_view()[player_id as int].len() == 2 || old(self).inferred_view()[player_id as int].len() == 1)
                ==> final(self).inferred_view() == old(self).inferred_view() && forall|c: int| 0 <= c < 5 ==> {
                    let all_known = table_count(old(self).public_view(), card) + table_count(old(self).inferred_view(), card) == 3;
                    &&& (c == card_index(card) && all_known) ==> final(self).groups_view()[c].len() == 1
                        && all_known_group(final(self).groups_view()[c][0], old(self).public_view(), old(self).inferred_view(), card)
                    &&& !(c == card_index(card) && all_known) ==> dead_pruned_list(#[trigger] final(self).groups_view()[c],
                        old(self).groups_view()[c], old(self).public_view()[player_id as int],
                        old(self).inferred_view()[player_id as int], player_id as int, card, all_known, c)
                },
    {
        let new_inferred = self.strip_dead_player(player_id, card);
        proof {
            if named_in(new_inferred@, player_id as int) {
                let k = choose|k: int| 0 <= k < new_inferred@.len() && #[trigger] new_inferred@[k].pflag(player_id as int);
                assert(!new_inferred@[k].pflag(player_id as int));
            }
        }
        self.add_inferred_card_bulk(new_inferred);
    }

    /// Records that `card` of `player_id` died: it joins the dead cards, leaves the known
    /// living cards, and the groups are pruned (`dead_card_prune`).
    pub fn add_dead_card(&mut self, player_id: usize, card: Card)
        requires
            old(self).wf(),
            player_id < 7,
            old(self).public_view()[player_id as int].len() < 2,
        ensures
            final(self).wf(),
            final(self).public_view() == old(self).public_view().update(player_id as int,
                old(self).public_view()[player_id as int].push(card)),
            final(self).inferred_view()[player_id as int] == swap_remove_card(old(self).inferred_view()[player_id as int], card),
            final(self).impossible_view() == old(self).impossible_view(),
            final(self).history_view() == old(self).history_view(),
            final(self).move_no_spec() == old(self).move_no_spec(),
            ({
                let pub1 = old(self).public_view().update(player_id as int, old(self).public_view()[player_id as int].push(card));
                let inf1 = old(self).inferred_view().update(player_id as int,
                    swap_remove_card(old(self).inferred_view()[player_id as int], card));
                !(pub1[player_id as int].len() == 2 || inf1[player_id as int].len() == 1)
                    ==> final(self).inferred_view() == inf1 && forall|c: int| 0 <= c < 5 ==> {
                        let all_known = table_count(pub1, card) + table_count(inf1, card) == 3;
                        &&& (c == card_index(card) && all_known) ==> final(self).groups_view()[c].len() == 1
                            && all_known_group(final(self).groups_view()[c][0], pub1, inf1, card)
                        &&& !(c == card_index(card) && all_known) ==> dead_pruned_list(#[trigger] final(self).groups_view()[c],
                            old(self).groups_view()[c], pub1[player_id as int], inf1[player_id as int], player_id as int,
                            card, all_known, c)
                    }
            }),
    {
        proof { self.lemma_wf_rows(); }
        let ghost pub0 = self.public_view();
        let ghost inf0 = self.inferred_view();
        self.public_constraints[player_id].push(card);
        swap_remove_card_from(&mut self.inferred_constraints[player_id], card);
        proof {
            assert(self.public_view() =~= pub0.update(player_id as int, pub0[player_id as int].push(card)));
            assert(self.inferred_view() =~= inf0.update(player_id as int, swap_remove_card(inf0[player_id as int], card)));
            assert(self.public_view()[player_id as int].last() == card);
        }
        self.dead_card_prune(player_id, card);
    }
}

} // verus!
