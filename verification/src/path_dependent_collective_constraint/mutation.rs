use vstd::prelude::*;
use crate::card::{Card, card_index, card_at, count_card, count_in, contains_card,
    swap_remove_card, swap_remove_card_from, lemma_count_card_le_len};
use crate::group::CompressedGroupConstraint;
use super::prune::{kill_player_in_list, kill_of};
use super::{PathDependentCollectiveConstraint, rows, table_ok, lemma_rows, table_count,
    table_count_exec, group_rows, lemma_group_rows, lemma_table_count_bound};

verus! {

/// The group stating where all three copies of `card` are, once all are known.
pub open spec fn all_known_group(g: CompressedGroupConstraint, public: Seq<Seq<Card>>,
    inferred: Seq<Seq<Card>>, card: Card) -> bool
{
    &&& forall|p: int| 0 <= p < 7 ==> #[trigger] g.pflag(p) == (public[p].contains(card) || inferred[p].contains(card))
    &&& forall|p: int| !#[trigger] g.sflag(p)
    &&& g.card_spec() == card
    &&& g.dead_spec() == table_count(public, card)
    &&& g.alive_spec() == table_count(inferred, card)
    &&& g.total_spec() == 3
}

impl PathDependentCollectiveConstraint {
    /// When every copy of `card` is dead or known to be held, replaces the groups of
    /// `card` by the single group saying where they are, and returns true.
    pub fn clear_group_constraints(&mut self, card: Card) -> (r: bool)
        requires
            old(self).wf(),
        ensures
            final(self).wf(),
            r == (table_count(old(self).public_view(), card) + table_count(old(self).inferred_view(), card) == 3),
            final(self).public_view() == old(self).public_view(),
            final(self).inferred_view() == old(self).inferred_view(),
            final(self).impossible_view() == old(self).impossible_view(),
            final(self).history_view() == old(self).history_view(),
            final(self).move_no_spec() == old(self).move_no_spec(),
            forall|c: int| 0 <= c < 5 && c != card_index(card) ==> #[trigger] final(self).groups_view()[c] == old(self).groups_view()[c],
            r ==> final(self).groups_view()[card_index(card)].len() == 1
                && all_known_group(final(self).groups_view()[card_index(card)][0],
                    old(self).public_view(), old(self).inferred_view(), card),
            !r ==> final(self).groups_view() == old(self).groups_view(),
    {
        proof { self.lemma_wf_rows(); }
        let total_dead_known = table_count_exec(&self.public_constraints, card);
        let total_alive_known = table_count_exec(&self.inferred_constraints, card);
        if total_dead_known + total_alive_known == 3 {
            let mut group = CompressedGroupConstraint::zero();
            group.set_card(card);
            let mut player: usize = 0;
            while player < 7
                invariant
                    self.wf(),
                    player <= 7,
                    forall|p: int| 0 <= p < player ==> #[trigger] group.pflag(p) ==
                        (self.public_view()[p].contains(card) || self.inferred_view()[p].contains(card)),
                    forall|p: int| player <= p < 7 ==> !#[trigger] group.pflag(p),
                    forall|p: int| !#[trigger] group.sflag(p),
                    group.card_spec() == card,
                    group.alive_spec() == 0 && group.dead_spec() == 0 && group.total_spec() == 0,
                decreases 7 - player,
            {
                proof { self.lemma_wf_rows(); }
                if contains_card(&self.public_constraints[player], card) {
                    group.set_player_flag(player, true);
                } else if contains_card(&self.inferred_constraints[player], card) {
                    group.set_player_flag(player, true);
                }
                player += 1;
            }
            group.set_dead_count(total_dead_known);
            group.set_alive_count(total_alive_known);
            group.set_total_count(3);
            let c = card.num();
            let ghost old_groups = self.group_constraints@;
            let mut fresh: Vec<CompressedGroupConstraint> = Vec::new();
            fresh.push(group);
            self.group_constraints.set(c, fresh);
            proof {
                assert forall|k: int| 0 <= k < 5 && k != c implies #[trigger] self.groups_view()[k] == old(self).groups_view()[k] by {
                    lemma_group_rows(self.group_constraints@, k);
                    lemma_group_rows(old_groups, k);
                }
                lemma_group_rows(self.group_constraints@, c as int);
                lemma_table_count_bound(self.public_view(), card, 2);
                lemma_table_count_bound(self.inferred_view(), card, 3);
            }
            return true;
        }
        false
    }

    /// Records that `card` of `player_id` died: it leaves the known held cards, and the
    /// groups of `card` holding the player count one more dead and one fewer living copy
    /// (or are dropped), unless all copies are now placed.
    pub fn add_dead_player_constraint(&mut self, player_id: usize, card: Card)
        requires
            old(self).wf(),
            player_id < 7,
            old(self).public_view()[player_id as int].len() < 2,
        ensures
            final(self).wf(),
            final(self).public_view() == old(self).public_view().update(player_id as int,
                old(self).public_view()[player_id as int].push(card)),
            final(self).inferred_view() == old(self).inferred_view().update(player_id as int,
                swap_remove_card(old(self).inferred_view()[player_id as int], card)),
            final(self).impossible_view() == old(self).impossible_view(),
            final(self).history_view() == old(self).history_view(),
            final(self).move_no_spec() == old(self).move_no_spec(),
            forall|c: int| 0 <= c < 5 && c != card_index(card) ==> #[trigger] final(self).groups_view()[c] == old(self).groups_view()[c],
            table_count(final(self).public_view(), card) + table_count(final(self).inferred_view(), card) != 3 ==> {
                let after = final(self).groups_view()[card_index(card)];
                let before = old(self).groups_view()[card_index(card)];
                &&& forall|k: int| 0 <= k < after.len() ==>
                    (before.contains(#[trigger] after[k]) && !after[k].pflag(player_id as int))
                    || kill_of(after[k], before, player_id as int, false)
                &&& forall|j: int| 0 <= j < before.len() && !(#[trigger] before[j]).pflag(player_id as int)
                    ==> after.contains(before[j])
            },
    {
        proof { self.lemma_wf_rows(); }
        self.public_constraints[player_id].push(card);
        swap_remove_card_from(&mut self.inferred_constraints[player_id], card);
        proof {
            assert(self.public_view() =~= old(self).public_view().update(player_id as int,
                old(self).public_view()[player_id as int].push(card)));
            assert(self.inferred_view() =~= old(self).inferred_view().update(player_id as int,
                swap_remove_card(old(self).inferred_view()[player_id as int], card)));
            assert(self.groups_view() == old(self).groups_view());
        }
        if self.clear_group_constraints(card) {
            return;
        }
        let c = card.num();
        let ghost old_groups = self.group_constraints@;
        kill_player_in_list(&mut self.group_constraints[c], player_id, false);
        proof {
            lemma_group_rows(self.group_constraints@, c as int);
            lemma_group_rows(old_groups, c as int);
            assert forall|k: int| 0 <= k < 5 && k != c implies #[trigger] self.groups_view()[k] == old(self).groups_view()[k] by {
                lemma_group_rows(self.group_constraints@, k);
                lemma_group_rows(old_groups, k);
            }
        }
    }
}

} // verus!
