use vstd::prelude::*;
use crate::card::{Card, card_index, card_at, count_card, count_in, contains_card};
use crate::group::{CompressedGroupConstraint, count_flags};
use super::{PathDependentCollectiveConstraint, group_rows, lemma_group_rows, lemma_only_list_changed,
    table_count, rows, lemma_rows};
use super::mutation::all_known_group;
use super::prune::{strip_player, drop_player_groups, list_stripped, list_dropped, split_off, strip_of,
    stripped};
use super::queries::card_counts;

verus! {

/// `out` is `out0` followed by groups about a single participant other than `player`.
pub open spec fn singles_without(out: Seq<CompressedGroupConstraint>, out0: Seq<CompressedGroupConstraint>,
    player: int) -> bool
{
    &&& out.len() >= out0.len()
    &&& out.subrange(0, out0.len() as int) == out0
    &&& forall|k: int| out0.len() <= k < out.len() ==>
        !(#[trigger] out[k]).pflag(player) && count_flags(out[k].plist(), 7) == 1
}

proof fn lemma_singles_chain(out: Seq<CompressedGroupConstraint>, o1: Seq<CompressedGroupConstraint>,
    out0: Seq<CompressedGroupConstraint>, before: Seq<CompressedGroupConstraint>, p: int, ka: int, a: int,
    d: int, t: int)
    requires
        singles_without(o1, out0, p),
        split_off(out, o1, before, p, ka, a, d, t),
    ensures
        singles_without(out, out0, p),
{
    assert(out.subrange(0, out0.len() as int) =~= o1.subrange(0, out0.len() as int)) by {
        assert forall|k: int| 0 <= k < out0.len() implies out[k] == o1[k] by {
            assert(out.subrange(0, o1.len() as int)[k] == out[k]);
        }
    }
    assert forall|k: int| out0.len() <= k < out.len() implies
        !(#[trigger] out[k]).pflag(p) && count_flags(out[k].plist(), 7) == 1 by {
        if k < o1.len() {
            assert(out.subrange(0, o1.len() as int)[k] == out[k]);
        } else {
            assert(strip_of(out[k], before, p, ka, a, d, t));
            let j = choose|j: int| 0 <= j < before.len() && #[trigger] before[j].pflag(p)
                && before[j].alive_spec() > ka && stripped(out[k], before[j], p, a, d, t);
            assert(out[k].pflag(p) == (p != p && before[j].pflag(p)));
        }
    }
}

/// The player's hand is fully known: two cards dead or held for a player, three held for
/// the pile.
pub open spec fn hand_full(public_row: Seq<Card>, inferred_row: Seq<Card>, player: int) -> bool {
    if player != 6 { public_row.len() + inferred_row.len() == 2 } else { inferred_row.len() == 3 }
}

/// What pruning after a change to the known cards of `player` does to the groups of card
/// number `c`: with the hand full, the player is taken out (its known and, for a player, dead
/// copies subtracted); otherwise groups holding the player that cannot fit beside its known
/// copies are dropped.
pub open spec fn pruned_list(after: Seq<CompressedGroupConstraint>, before: Seq<CompressedGroupConstraint>,
    public_row: Seq<Card>, inferred_row: Seq<Card>, player: int, card: Card, c: int) -> bool
{
    let ic = count_card(inferred_row, card_at(c)) as int;
    let dc = if player != 6 { count_card(public_row, card_at(c)) as int } else { 0int };
    if hand_full(public_row, inferred_row, player) {
        list_stripped(after, before, player, ic, ic, dc, ic + dc)
    } else if player != 6 {
        if c == card_index(card) { list_dropped(after, before, player, 1, 1) } else { after == before }
    } else {
        list_dropped(after, before, player, 0, ic)
    }
}

/// When adding `alive` known copies of `card` to `player` is well defined: a player's hand
/// stays consistent with its dead cards, and the pile holds at most three cards.
pub open spec fn add_ok(public_row: Seq<Card>, inferred_row: Seq<Card>, player: int, card: Card, alive: int) -> bool {
    let n = count_card(inferred_row, card) as int;
    if alive == 1 {
        !inferred_row.contains(card) ==> if player != 6 {
            public_row.len() + inferred_row.len() == 1 || inferred_row.len() == 0
        } else {
            inferred_row.len() < 3
        }
    } else if alive == 2 && player != 6 {
        inferred_row != seq![card, card] ==> public_row.len() == 0
    } else if (alive == 2 || alive == 3) && player == 6 {
        n < alive ==> inferred_row.len() + alive - n <= 3
    } else {
        true
    }
}

/// The known cards of `player` after `alive` copies of `card` are known to be there: one
/// copy is added unless present; a player known to hold two copies holds exactly them; the
/// pile gets the missing copies. Other counts change nothing.
pub open spec fn added_row(inferred_row: Seq<Card>, player: int, card: Card, alive: int) -> Seq<Card> {
    let n = count_card(inferred_row, card) as int;
    if alive == 1 {
        if inferred_row.contains(card) { inferred_row } else { inferred_row.push(card) }
    } else if alive == 2 && player != 6 {
        seq![card, card]
    } else if (alive == 2 || alive == 3) && player == 6 && n < alive {
        inferred_row + Seq::new((alive - n) as nat, |i: int| card)
    } else {
        inferred_row
    }
}

impl PathDependentCollectiveConstraint {
    /// After `card` was added to the known cards of `player_id`: settles `card` when all its
    /// copies are placed, then prunes every group list (see `pruned_list`); returns the
    /// groups left about a single participant.
    pub(crate) fn inferred_card_prune(&mut self, player_id: usize, card: Card) -> (r: Vec<CompressedGroupConstraint>)
        requires
            old(self).wf(),
            player_id < 7,
            player_id != 6 ==> old(self).public_view()[player_id as int].len()
                + old(self).inferred_view()[player_id as int].len() == 2
                || old(self).inferred_view()[player_id as int].len() == 1,
        ensures
            final(self).wf(),
            final(self).public_view() == old(self).public_view(),
            final(self).inferred_view() == old(self).inferred_view(),
            final(self).impossible_view() == old(self).impossible_view(),
            final(self).history_view() == old(self).history_view(),
            final(self).move_no_spec() == old(self).move_no_spec(),
            forall|c: int| 0 <= c < 5 ==> {
                let known = table_count(old(self).public_view(), card) + table_count(old(self).inferred_view(), card) == 3;
                if c == card_index(card) && known {
                    final(self).groups_view()[c].len() == 1 && all_known_group(final(self).groups_view()[c][0],
                        old(self).public_view(), old(self).inferred_view(), card)
                } else {
                    pruned_list(#[trigger] final(self).groups_view()[c], old(self).groups_view()[c],
                        old(self).public_view()[player_id as int], old(self).inferred_view()[player_id as int],
                        player_id as int, card, c)
                }
            },
            singles_without(r@, Seq::empty(), player_id as int),
    {
        let all_known = self.clear_group_constraints(card);
        proof { self.lemma_wf_rows(); }
        let mut new_inferred: Vec<CompressedGroupConstraint> = Vec::new();
        assert(new_inferred@.subrange(0, 0) =~= Seq::<CompressedGroupConstraint>::empty());
        let dead = card_counts(&self.public_constraints[player_id]);
        let inf = card_counts(&self.inferred_constraints[player_id]);
        let dead_count = self.public_constraints[player_id].len();
        let inf_count = self.inferred_constraints[player_id].len();
        let ci = card.num();
        let mut others = [true; 5];
        if all_known {
            others[ci] = false;
        }
        if player_id != 6 {
            if dead_count + inf_count == 2 {
                let t = [inf[0] + dead[0], inf[1] + dead[1], inf[2] + dead[2], inf[3] + dead[3], inf[4] + dead[4]];
                self.strip_player_lists(player_id, others, inf, inf, dead, t, &mut new_inferred);
                proof {
                    assert forall|c: int| 0 <= c < 5 implies #[trigger] t@[c] == inf@[c] + dead@[c] by {}
                }
            } else if !all_known {
                let mut only = [false; 5];
                only[ci] = true;
                self.drop_player_lists(player_id, only, [1u8; 5], [1u8; 5]);
            }
        } else {
            if inf_count == 3 {
                self.strip_player_lists(player_id, others, inf, inf, [0u8; 5], inf, &mut new_inferred);
            } else {
                self.drop_player_lists(player_id, others, [0u8; 5], inf);
            }
        }
        new_inferred
    }

    /// Records that `player_id` holds `alive_count` copies of `card` (see `added_row`); when
    /// that changed anything, the player is noted under `card` in `card_changes` (not for the
    /// pile holding several copies) and the groups are pruned as `inferred_card_prune` does;
    /// otherwise only `card` is settled if all its copies are placed. Returns whether the known
    /// cards changed, and the groups left about a single participant.
    pub fn add_inferred_card(&mut self, player_id: usize, card: Card, alive_count: u8,
        card_changes: &mut Vec<Vec<usize>>) -> (r: (bool, Vec<CompressedGroupConstraint>))
        requires
            old(self).wf(),
            player_id < 7,
            card_index(card) < old(card_changes)@.len(),
            add_ok(old(self).public_view()[player_id as int], old(self).inferred_view()[player_id as int],
                player_id as int, card, alive_count as int),
        ensures
            final(self).wf(),
            final(self).public_view() == old(self).public_view(),
            final(self).inferred_view() == old(self).inferred_view().update(player_id as int,
                added_row(old(self).inferred_view()[player_id as int], player_id as int, card, alive_count as int)),
            r.0 == (added_row(old(self).inferred_view()[player_id as int], player_id as int, card, alive_count as int)
                != old(self).inferred_view()[player_id as int]),
            final(self).impossible_view() == old(self).impossible_view(),
            final(self).history_view() == old(self).history_view(),
            final(self).move_no_spec() == old(self).move_no_spec(),
            forall|c: int| 0 <= c < 5 ==> {
                let known = table_count(old(self).public_view(), card) + table_count(final(self).inferred_view(), card) == 3;
                if c == card_index(card) && known {
                    final(self).groups_view()[c].len() == 1 && all_known_group(final(self).groups_view()[c][0],
                        old(self).public_view(), final(self).inferred_view(), card)
                } else if r.0 {
                    pruned_list(#[trigger] final(self).groups_view()[c], old(self).groups_view()[c],
                        old(self).public_view()[player_id as int], final(self).inferred_view()[player_id as int],
                        player_id as int, card, c)
                } else {
                    final(self).groups_view()[c] == old(self).groups_view()[c]
                }
            },
            final(card_changes)@.len() == old(card_changes)@.len(),
            forall|k: int| 0 <= k < old(card_changes)@.len() && k != card_index(card)
                ==> #[trigger] final(card_changes)@[k] == old(card_changes)@[k],
            final(card_changes)@[card_index(card)]@ == if r.0 && (alive_count == 1 || player_id != 6) {
                old(card_changes)@[card_index(card)]@.push(player_id)
            } else {
                old(card_changes)@[card_index(card)]@
            },
            singles_without(r.1@, Seq::empty(), player_id as int),
    {
        proof { self.lemma_wf_rows(); }
        let ghost row0 = self.inferred_view()[player_id as int];
        let ghost new_row = added_row(row0, player_id as int, card, alive_count as int);
        let ghost inf0 = self.inferred_view();
        let mut bool_changes = false;
        let ci = card.num();
        if alive_count == 1 {
            if !contains_card(&self.inferred_constraints[player_id], card) {
                self.inferred_constraints[player_id].push(card);
                card_changes[ci].push(player_id);
                bool_changes = true;
                proof {
                    assert(self.inferred_view() =~= inf0.update(player_id as int, new_row));
                    assert(new_row.len() != row0.len());
                }
            }
        } else if alive_count == 2 && player_id != 6 {
            let same = self.inferred_constraints[player_id].len() == 2
                && self.inferred_constraints[player_id][0] == card && self.inferred_constraints[player_id][1] == card;
            if same {
                assert(row0 =~= seq![card, card]);
            } else {
                let mut both: Vec<Card> = Vec::new();
                both.push(card);
                both.push(card);
                self.inferred_constraints.set(player_id, both);
                card_changes[ci].push(player_id);
                bool_changes = true;
                proof {
                    assert(both@ =~= seq![card, card]);
                    assert(self.inferred_view() =~= inf0.update(player_id as int, new_row));
                    if new_row == row0 {
                        assert(row0.len() == 2 && row0[0] == card && row0[1] == card);
                    }
                }
            }
        } else if (alive_count == 2 || alive_count == 3) && player_id == 6 {
            let current = count_in(&self.inferred_constraints[6], card);
            if alive_count > current {
                let k = alive_count - current;
                let mut j: u8 = 0;
                while j < k
                    invariant
                        j <= k,
                        k == alive_count - current,
                        current == count_card(row0, card),
                        player_id == 6,
                        row0.len() + k <= 3,
                        self.inferred_constraints@.len() == 7,
                        self.inferred_view() == inf0.update(6, row0 + Seq::new(j as nat, |i: int| card)),
                        self.public_view() == old(self).public_view(),
                        self.group_constraints == old(self).group_constraints,
                        self.impossible_constraints == old(self).impossible_constraints,
                        self.history == old(self).history,
                        self.move_no == old(self).move_no,
                        inf0 == old(self).inferred_view(),
                        inf0.len() == 7,
                    decreases k - j,
                {
                    proof { lemma_rows(self.inferred_constraints@, 6); }
                    let ghost prev = self.inferred_constraints@;
                    self.inferred_constraints[6].push(card);
                    j += 1;
                    proof {
                        let target = inf0.update(6, row0 + Seq::new(j as nat, |i: int| card));
                        assert(row0 + Seq::new(j as nat, |i: int| card) =~= (row0 + Seq::new((j - 1) as nat, |i: int| card)).push(card));
                        assert forall|i: int| 0 <= i < 7 implies #[trigger] self.inferred_view()[i] == target[i] by {
                            lemma_rows(self.inferred_constraints@, i);
                            lemma_rows(prev, i);
                        }
                        assert(self.inferred_view() =~= target);
                    }
                }
                bool_changes = true;
                assert(new_row.len() != row0.len());
            }
        }
        proof {
            if !bool_changes {
                assert(self.inferred_view() =~= inf0);
                assert(new_row == row0);
            }
            assert(self.inferred_view() =~= inf0.update(player_id as int, new_row));
        }
        if bool_changes {
            let new_inferred = self.inferred_card_prune(player_id, card);
            (true, new_inferred)
        } else {
            self.clear_group_constraints(card);
            let none: Vec<CompressedGroupConstraint> = Vec::new();
            assert(none@.subrange(0, 0) =~= Seq::<CompressedGroupConstraint>::empty());
            (false, none)
        }
    }

    /// Records that `player_id` holds one more copy of `card` without checking whether it is
    /// already known, then prunes as `inferred_card_prune` does. Only a single copy is
    /// supported; any other count other than two or three changes nothing.
    pub fn add_inferred_card_unchecked(&mut self, player_id: usize, card: Card, alive_count: u8,
        card_changes: &mut Vec<Vec<usize>>) -> (r: (bool, Vec<CompressedGroupConstraint>))
        requires
            old(self).wf(),
            player_id < 7,
            card_index(card) < old(card_changes)@.len(),
            alive_count != 2 && alive_count != 3,
            alive_count == 1 ==> old(self).inferred_view()[player_id as int].len() < 3,
            alive_count == 1 && player_id != 6 ==> old(self).public_view()[player_id as int].len()
                + old(self).inferred_view()[player_id as int].len() == 1
                || old(self).inferred_view()[player_id as int].len() == 0,
        ensures
            final(self).wf(),
            final(self).public_view() == old(self).public_view(),
            r.0 == (alive_count == 1),
            final(self).inferred_view() == if r.0 {
                old(self).inferred_view().update(player_id as int, old(self).inferred_view()[player_id as int].push(card))
            } else {
                old(self).inferred_view()
            },
            final(self).impossible_view() == old(self).impossible_view(),
            final(self).history_view() == old(self).history_view(),
            final(self).move_no_spec() == old(self).move_no_spec(),
            forall|c: int| 0 <= c < 5 ==> {
                let known = table_count(old(self).public_view(), card) + table_count(final(self).inferred_view(), card) == 3;
                if !r.0 {
                    final(self).groups_view()[c] == old(self).groups_view()[c]
                } else if c == card_index(card) && known {
                    final(self).groups_view()[c].len() == 1 && all_known_group(final(self).groups_view()[c][0],
                        old(self).public_view(), final(self).inferred_view(), card)
                } else {
                    pruned_list(#[trigger] final(self).groups_view()[c], old(self).groups_view()[c],
                        old(self).public_view()[player_id as int], final(self).inferred_view()[player_id as int],
                        player_id as int, card, c)
                }
            },
            final(card_changes)@.len() == old(card_changes)@.len(),
            forall|k: int| 0 <= k < old(card_changes)@.len() && k != card_index(card)
                ==> #[trigger] final(card_changes)@[k] == old(card_changes)@[k],
            final(card_changes)@[card_index(card)]@ == if r.0 {
                old(card_changes)@[card_index(card)]@.push(player_id)
            } else {
                old(card_changes)@[card_index(card)]@
            },
            singles_without(r.1@, Seq::empty(), player_id as int),
    {
        if alive_count == 1 {
            proof { self.lemma_wf_rows(); }
            let ghost inf0 = self.inferred_view();
            self.inferred_constraints[player_id].push(card);
            card_changes[card.num()].push(player_id);
            proof {
                assert(self.inferred_view() =~= inf0.update(player_id as int, inf0[player_id as int].push(card)));
            }
            let new_inferred = self.inferred_card_prune(player_id, card);
            (true, new_inferred)
        } else {
            let none: Vec<CompressedGroupConstraint> = Vec::new();
            assert(none@.subrange(0, 0) =~= Seq::<CompressedGroupConstraint>::empty());
            (false, none)
        }
    }

    /// For each card `c` with `active[c]`, takes `player_id` out of the groups of `c`
    /// (see `strip_player`, with `keep[c]`, `a[c]`, `d[c]` and `t[c]`); the groups left
    /// with a single participant are added to `out`.
    pub(crate) fn strip_player_lists(&mut self, player_id: usize, active: [bool; 5], keep: [u8; 5],
        a: [u8; 5], d: [u8; 5], t: [u8; 5], out: &mut Vec<CompressedGroupConstraint>)
        requires
            old(self).wf(),
            player_id < 7,
        ensures
            final(self).wf(),
            final(self).public_view() == old(self).public_view(),
            final(self).inferred_view() == old(self).inferred_view(),
            final(self).impossible_view() == old(self).impossible_view(),
            final(self).history_view() == old(self).history_view(),
            final(self).move_no_spec() == old(self).move_no_spec(),
            forall|c: int| 0 <= c < 5 ==> if active@[c] {
                list_stripped(#[trigger] final(self).groups_view()[c], old(self).groups_view()[c],
                    player_id as int, keep@[c] as int, a@[c] as int, d@[c] as int, t@[c] as int)
            } else {
                final(self).groups_view()[c] == old(self).groups_view()[c]
            },
            singles_without(final(out)@, old(out)@, player_id as int),
    {
        let ghost out0 = out@;
        assert(out@.subrange(0, out0.len() as int) =~= out0);
        let mut c: usize = 0;
        while c < 5
            invariant
                self.wf(),
                player_id < 7,
                c <= 5,
                self.public_view() == old(self).public_view(),
                self.inferred_view() == old(self).inferred_view(),
                self.impossible_view() == old(self).impossible_view(),
                self.history_view() == old(self).history_view(),
                self.move_no_spec() == old(self).move_no_spec(),
                self.groups_view().len() == 5,
                forall|k: int| 0 <= k < c ==> if active@[k] {
                    list_stripped(#[trigger] self.groups_view()[k], old(self).groups_view()[k],
                        player_id as int, keep@[k] as int, a@[k] as int, d@[k] as int, t@[k] as int)
                } else {
                    self.groups_view()[k] == old(self).groups_view()[k]
                },
                forall|k: int| c <= k < 5 ==> #[trigger] self.groups_view()[k] == old(self).groups_view()[k],
                singles_without(out@, out0, player_id as int),
            decreases 5 - c,
        {
            if active[c] {
                let ghost gs = self.group_constraints@;
                let ghost o1 = out@;
                proof { lemma_group_rows(gs, c as int); }
                strip_player(&mut self.group_constraints[c], player_id, keep[c], a[c], d[c], t[c], out);
                proof {
                    lemma_only_list_changed(gs, self.group_constraints@, c as int);
                    lemma_singles_chain(out@, o1, out0, gs[c as int]@, player_id as int, keep@[c as int] as int,
                        a@[c as int] as int, d@[c as int] as int, t@[c as int] as int);
                }
            }
            c += 1;
        }
    }

    /// For each card `c` with `active[c]`, drops the groups of `c` that hold `player_id`
    /// and have between `lo[c]` and `hi[c]` living copies.
    pub(crate) fn drop_player_lists(&mut self, player_id: usize, active: [bool; 5], lo: [u8; 5], hi: [u8; 5])
        requires
            old(self).wf(),
            player_id < 7,
        ensures
            final(self).wf(),
            final(self).public_view() == old(self).public_view(),
            final(self).inferred_view() == old(self).inferred_view(),
            final(self).impossible_view() == old(self).impossible_view(),
            final(self).history_view() == old(self).history_view(),
            final(self).move_no_spec() == old(self).move_no_spec(),
            forall|c: int| 0 <= c < 5 ==> if active@[c] {
                list_dropped(#[trigger] final(self).groups_view()[c], old(self).groups_view()[c],
                    player_id as int, lo@[c] as int, hi@[c] as int)
            } else {
                final(self).groups_view()[c] == old(self).groups_view()[c]
            },
    {
        let mut c: usize = 0;
        while c < 5
            invariant
                self.wf(),
                player_id < 7,
                c <= 5,
                self.public_view() == old(self).public_view(),
                self.inferred_view() == old(self).inferred_view(),
                self.impossible_view() == old(self).impossible_view(),
                self.history_view() == old(self).history_view(),
                self.move_no_spec() == old(self).move_no_spec(),
                self.groups_view().len() == 5,
                forall|k: int| 0 <= k < c ==> if active@[k] {
                    list_dropped(#[trigger] self.groups_view()[k], old(self).groups_view()[k],
                        player_id as int, lo@[k] as int, hi@[k] as int)
                } else {
                    self.groups_view()[k] == old(self).groups_view()[k]
                },
                forall|k: int| c <= k < 5 ==> #[trigger] self.groups_view()[k] == old(self).groups_view()[k],
            decreases 5 - c,
        {
            if active[c] {
                let ghost gs = self.group_constraints@;
                proof { lemma_group_rows(gs, c as int); }
                drop_player_groups(&mut self.group_constraints[c], player_id, lo[c], hi[c]);
                proof { lemma_only_list_changed(gs, self.group_constraints@, c as int); }
            }
            c += 1;
        }
    }
}

} // verus!
