use vstd::prelude::*;
use crate::card::{Card, card_index, card_at, count_card, count_in, contains_card};
use crate::group::{CompressedGroupConstraint, count_flags};
use super::{PathDependentCollectiveConstraint, lemma_group_rows, lemma_only_list_changed, table_count};
use super::group_ops::swap_removed;
use super::hand::{add_ok, added_row, pruned_list, singles_without};
use super::mutation::all_known_group;

verus! {

/// Each group of `v` once, every group of `batch` is there, and the keys never decrease.
pub open spec fn unique_sorted_of(v: Seq<CompressedGroupConstraint>, batch: Seq<CompressedGroupConstraint>) -> bool {
    &&& forall|i: int, j: int| 0 <= i < j < v.len() ==> #[trigger] v[i] != #[trigger] v[j]
    &&& forall|i: int, j: int| 0 <= i <= j < v.len() ==> (#[trigger] v[i]).key() <= (#[trigger] v[j]).key()
    &&& forall|k: int| 0 <= k < v.len() ==> batch.contains(#[trigger] v[k])
    &&& forall|k: int| 0 <= k < batch.len() ==> v.contains(#[trigger] batch[k])
}

/// Some group of `batch` holds `q`.
pub open spec fn named_in(batch: Seq<CompressedGroupConstraint>, q: int) -> bool {
    exists|k: int| 0 <= k < batch.len() && #[trigger] batch[k].pflag(q)
}

/// The groups of `batch` once each, ordered by key.
pub fn unique_sorted_groups(batch: &Vec<CompressedGroupConstraint>) -> (r: Vec<CompressedGroupConstraint>)
    ensures
        unique_sorted_of(r@, batch@),
{
    let mut r: Vec<CompressedGroupConstraint> = Vec::new();
    let mut i: usize = 0;
    while i < batch.len()
        invariant
            i <= batch@.len(),
            forall|a: int, b: int| 0 <= a < b < r@.len() ==> #[trigger] r@[a] != #[trigger] r@[b],
            forall|a: int, b: int| 0 <= a <= b < r@.len() ==> (#[trigger] r@[a]).key() <= (#[trigger] r@[b]).key(),
            forall|k: int| 0 <= k < r@.len() ==> batch@.contains(#[trigger] r@[k]),
            forall|k: int| 0 <= k < i ==> r@.contains(#[trigger] batch@[k]),
        decreases batch@.len() - i,
    {
        let g = batch[i];
        let key = g.num();
        let mut pos: usize = 0;
        let mut found = false;
        while pos < r.len() && !found && r[pos].num() <= key
            invariant
                pos <= r@.len(),
                found ==> pos < r@.len() && r@[pos as int] == g,
                forall|k: int| 0 <= k < pos ==> r@[k].key() <= key && r@[k] != g,
            decreases r@.len() - pos, if found { 0int } else { 1int },
        {
            if r[pos] == g {
                found = true;
            } else {
                pos += 1;
            }
        }
        if !found {
            proof {
                assert forall|k: int| pos <= k < r@.len() implies r@[k] != g by {
                    if pos < r@.len() {
                        assert(r@[pos as int].key() > key);
                        assert(r@[pos as int].key() <= r@[k].key());
                    }
                }
            }
            let ghost r0 = r@;
            r.insert(pos, g);
            proof {
                assert forall|a: int, b: int| 0 <= a <= b < r@.len() implies (#[trigger] r@[a]).key() <= (#[trigger] r@[b]).key() by {
                    if a < pos && b > pos {
                        assert(r@[b] == r0[b - 1]);
                    } else if a > pos {
                        assert(r@[a] == r0[a - 1]);
                        assert(r@[b] == r0[b - 1]);
                    } else if a == pos && b > pos {
                        assert(r@[b] == r0[b - 1]);
                        assert(r0[pos as int].key() > key);
                        assert(r0[pos as int].key() <= r0[b - 1].key());
                    }
                }
                assert forall|a: int, b: int| 0 <= a < b < r@.len() implies #[trigger] r@[a] != #[trigger] r@[b] by {
                    if b > pos && a != pos {
                        if a > pos { assert(r@[a] == r0[a - 1]); }
                        assert(r@[b] == r0[b - 1]);
                    } else if b > pos && a == pos {
                        assert(r@[b] == r0[b - 1]);
                    }
                }
                assert forall|k: int| 0 <= k < r@.len() implies batch@.contains(#[trigger] r@[k]) by {
                    if k < pos { assert(r@[k] == r0[k]); } else if k > pos { assert(r@[k] == r0[k - 1]); }
                }
                assert forall|k: int| 0 <= k <= i implies r@.contains(#[trigger] batch@[k]) by {
                    if k == i {
                        assert(r@[pos as int] == g);
                    } else {
                        let m = choose|m: int| 0 <= m < r0.len() && r0[m] == batch@[k];
                        if m < pos { assert(r@[m] == r0[m]); } else { assert(r@[m + 1] == r0[m]); }
                    }
                }
            }
        } else {
            assert(r@.contains(batch@[i as int]));
        }
        i += 1;
    }
    r
}

proof fn lemma_count_flags_pos(a: Seq<bool>, n: int)
    requires
        count_flags(a, n) > 0,
    ensures
        exists|j: int| 0 <= j < n && #[trigger] a[j],
    decreases n,
{
    if n > 0 && !a[n - 1] {
        lemma_count_flags_pos(a, n - 1);
        let j = choose|j: int| 0 <= j < n - 1 && #[trigger] a[j];
        assert(a[j]);
    }
}

/// The first participant of `g`, for a group that has one.
pub open spec fn first_member(g: CompressedGroupConstraint) -> int {
    choose|p: int| 0 <= p < 7 && g.pflag(p) && forall|j: int| 0 <= j < p ==> !g.pflag(j)
}

/// What taking group `g` does to the known cards `inferred`: when adding its living copies
/// of its card to its first participant is well defined (`add_ok`), that row becomes
/// `added_row`; otherwise nothing changes.
pub open spec fn bulk_step(public: Seq<Seq<Card>>, inferred: Seq<Seq<Card>>, g: CompressedGroupConstraint) -> Seq<Seq<Card>> {
    let p = first_member(g);
    if add_ok(public[p], inferred[p], p, g.card_spec(), g.alive_spec() as int) {
        inferred.update(p, added_row(inferred[p], p, g.card_spec(), g.alive_spec() as int))
    } else {
        inferred
    }
}

/// The known cards after taking the groups of `s` one by one, from the last to the first
/// (`bulk_step`).
pub open spec fn bulk_rows(public: Seq<Seq<Card>>, inferred: Seq<Seq<Card>>, s: Seq<CompressedGroupConstraint>) -> Seq<Seq<Card>>
    decreases s.len(),
{
    if s.len() == 0 {
        inferred
    } else {
        bulk_rows(public, bulk_step(public, inferred, s.last()), s.drop_last())
    }
}

/// The first participant of a group that has one.
fn first_participant(g: &CompressedGroupConstraint) -> (r: usize)
    requires
        count_flags(g.plist(), 7) > 0,
    ensures
        r < 7,
        g.pflag(r as int),
        forall|j: int| 0 <= j < r ==> !g.pflag(j),
        r == first_member(*g),
{
    proof {
        lemma_count_flags_pos(g.plist(), 7);
    }
    let mut j: usize = 0;
    while j < 6 && !g.get_player_flag(j)
        invariant
            j <= 6,
            exists|k: int| j <= k < 7 && #[trigger] g.plist()[k],
            forall|k: int| 0 <= k < j ==> !g.pflag(k),
        decreases 6 - j,
    {
        j += 1;
    }
    proof {
        if !g.pflag(j as int) {
            let k = choose|k: int| j <= k < 7 && #[trigger] g.plist()[k];
            assert(k == 6 && j == 6);
        }
        let m = first_member(*g);
        assert(0 <= m < 7 && g.pflag(m) && forall|x: int| 0 <= x < m ==> !g.pflag(x));
        if m < j { assert(!g.pflag(m)); }
        if m > j { assert(!g.pflag(j as int)); }
    }
    j
}

/// Whether some player named in `changes` is in `g` and known to hold at least as many
/// copies of card number `c` as `g` has living copies.
pub open spec fn covered_by_known(g: CompressedGroupConstraint, changes: Seq<usize>, inferred: Seq<Seq<Card>>, c: int) -> bool {
    exists|k: int| 0 <= k < changes.len() && #[trigger] g.pflag(changes[k] as int)
        && count_card(inferred[changes[k] as int], card_at(c)) >= g.alive_spec()
}

impl PathDependentCollectiveConstraint {
    /// Whether adding `alive` known copies of `card` to `player_id` is well defined (`add_ok`).
    pub(crate) fn add_ok_exec(&self, player_id: usize, card: Card, alive: u8) -> (r: bool)
        requires
            self.wf(),
            player_id < 7,
        ensures
            r == add_ok(self.public_view()[player_id as int], self.inferred_view()[player_id as int],
                player_id as int, card, alive as int),
    {
        proof { self.lemma_wf_rows(); }
        let public_len = self.public_constraints[player_id].len();
        let row = &self.inferred_constraints[player_id];
        let inferred_len = row.len();
        if alive == 1 {
            if contains_card(row, card) {
                true
            } else if player_id != 6 {
                public_len + inferred_len == 1 || inferred_len == 0
            } else {
                inferred_len < 3
            }
        } else if alive == 2 && player_id != 6 {
            let same = inferred_len == 2 && row[0] == card && row[1] == card;
            proof {
                if same { assert(row@ =~= seq![card, card]); }
                if row@ == seq![card, card] { assert(row@[0] == card && row@[1] == card); }
            }
            same || public_len == 0
        } else if (alive == 2 || alive == 3) && player_id == 6 {
            let n = count_in(row, card);
            n >= alive || inferred_len + (alive - n) as usize <= 3
        } else {
            true
        }
    }

    /// Records what each group of `single_flag_batch` says about its single participant:
    /// the groups are taken once each, in decreasing key order, each through
    /// `add_inferred_card` (a group for which that is not well defined, see `add_ok`, is
    /// skipped); after each, groups made redundant by a known card are dropped. Returns
    /// whether any known card changed.
    pub fn add_inferred_card_bulk(&mut self, single_flag_batch: Vec<CompressedGroupConstraint>) -> (r: bool)
        requires
            old(self).wf(),
            forall|k: int| 0 <= k < single_flag_batch@.len() ==> count_flags(#[trigger] single_flag_batch@[k].plist(), 7) > 0,
        ensures
            final(self).wf(),
            final(self).public_view() == old(self).public_view(),
            final(self).impossible_view() == old(self).impossible_view(),
            final(self).history_view() == old(self).history_view(),
            final(self).move_no_spec() == old(self).move_no_spec(),
            !r ==> final(self).inferred_view() == old(self).inferred_view(),
            forall|q: int| 0 <= q < 7 && !named_in(single_flag_batch@, q)
                ==> #[trigger] final(self).inferred_view()[q] == old(self).inferred_view()[q],
            exists|s: Seq<CompressedGroupConstraint>| #[trigger] unique_sorted_of(s, single_flag_batch@)
                && final(self).inferred_view() == bulk_rows(old(self).public_view(), old(self).inferred_view(), s),
            single_flag_batch@.len() == 0 ==> *final(self) == *old(self),
    {
        let mut card_changes: Vec<Vec<usize>> = Vec::new();
        let mut c: usize = 0;
        while c < 5
            invariant
                c <= 5,
                card_changes@.len() == c,
                forall|cc: int| 0 <= cc < c ==> (#[trigger] card_changes@[cc])@.len() == 0,
            decreases 5 - c,
        {
            card_changes.push(Vec::new());
            c += 1;
        }
        let mut bool_changes = false;
        let mut batch = unique_sorted_groups(&single_flag_batch);
        proof {
            if single_flag_batch@.len() == 0 && batch@.len() > 0 {
                assert(single_flag_batch@.contains(batch@[0]));
            }
        }
        let ghost b_init = batch@;
        proof {
            assert forall|k: int| 0 <= k < batch@.len() implies count_flags(#[trigger] batch@[k].plist(), 7) > 0 by {
                let j = choose|j: int| 0 <= j < single_flag_batch@.len() && single_flag_batch@[j] == batch@[k];
                assert(count_flags(single_flag_batch@[j].plist(), 7) > 0);
            }
        }
        while batch.len() > 0
            invariant
                single_flag_batch@.len() == 0 ==> batch@.len() == 0 && *self == *old(self),
                self.wf(),
                self.public_view() == old(self).public_view(),
                self.impossible_view() == old(self).impossible_view(),
                self.history_view() == old(self).history_view(),
                self.move_no_spec() == old(self).move_no_spec(),
                !bool_changes ==> self.inferred_view() == old(self).inferred_view(),
                card_changes@.len() == 5,
                forall|cc: int, k: int| 0 <= cc < 5 && 0 <= k < card_changes@[cc]@.len() ==> #[trigger] card_changes@[cc]@[k] < 7,
                forall|k: int| 0 <= k < batch@.len() ==> count_flags(#[trigger] batch@[k].plist(), 7) > 0,
                forall|k: int| 0 <= k < batch@.len() ==> single_flag_batch@.contains(#[trigger] batch@[k]),
                forall|q: int| 0 <= q < 7 && !named_in(single_flag_batch@, q)
                    ==> #[trigger] self.inferred_view()[q] == old(self).inferred_view()[q],
                unique_sorted_of(b_init, single_flag_batch@),
                bulk_rows(old(self).public_view(), self.inferred_view(), batch@)
                    == bulk_rows(old(self).public_view(), old(self).inferred_view(), b_init),
            ensures
                batch@.len() == 0,
                single_flag_batch@.len() == 0 ==> *self == *old(self),
                bulk_rows(old(self).public_view(), self.inferred_view(), batch@)
                    == bulk_rows(old(self).public_view(), old(self).inferred_view(), b_init),
            decreases batch@.len(),
        {
            let ghost b0 = batch@;
            let g = match batch.pop() {
                Some(g) => g,
                None => { break; },
            };
            proof {
                assert(b0.last() == g);
                assert forall|k: int| 0 <= k < batch@.len() implies count_flags(#[trigger] batch@[k].plist(), 7) > 0 by {
                    assert(batch@[k] == b0[k]);
                }
                assert forall|k: int| 0 <= k < batch@.len() implies single_flag_batch@.contains(#[trigger] batch@[k]) by {
                    assert(batch@[k] == b0[k]);
                }
                assert(single_flag_batch@.contains(b0[b0.len() - 1]));
            }
            let player_id = first_participant(&g);
            proof {
                let j = choose|j: int| 0 <= j < single_flag_batch@.len() && single_flag_batch@[j] == g;
                assert(single_flag_batch@[j].pflag(player_id as int));
                assert(named_in(single_flag_batch@, player_id as int));
            }
            let card = g.card();
            let alive = g.count_alive();
            let ghost inf_start = self.inferred_view();
            proof {
                assert(batch@ == b0.drop_last());
                assert(bulk_rows(old(self).public_view(), inf_start, b0)
                    == bulk_rows(old(self).public_view(), bulk_step(old(self).public_view(), inf_start, g), batch@));
            }
            if self.add_ok_exec(player_id, card, alive) {
                let ghost cc0 = card_changes@;
                let ghost inf0 = self.inferred_view();
                let changed = self.add_inferred_card(player_id, card, alive, &mut card_changes).0;
                proof {
                    if !changed {
                        assert(self.inferred_view() =~= inf0);
                    }
                    assert forall|cc: int, k: int| 0 <= cc < 5 && 0 <= k < card_changes@[cc]@.len()
                        implies #[trigger] card_changes@[cc]@[k] < 7 by {
                        if cc == card_index(card) {
                            if k < cc0[cc]@.len() {
                                assert(card_changes@[cc]@[k] == cc0[cc]@[k]);
                            }
                        } else {
                            assert(card_changes@[cc] == cc0[cc]);
                        }
                    }
                }
                bool_changes = changed || bool_changes;
            }
            proof {
                assert(self.inferred_view() == bulk_step(old(self).public_view(), inf_start, g));
            }
            self.remove_known_groups(&card_changes);
        }
        proof {
            assert(bulk_rows(old(self).public_view(), self.inferred_view(), batch@) == self.inferred_view());
            assert(unique_sorted_of(b_init, single_flag_batch@));
        }
        bool_changes
    }

    fn covered_by_known_exec(&self, g: &CompressedGroupConstraint, changes: &Vec<usize>, c: usize) -> (r: bool)
        requires
            self.wf(),
            c < 5,
            forall|k: int| 0 <= k < changes@.len() ==> #[trigger] changes@[k] < 7,
        ensures
            r == covered_by_known(*g, changes@, self.inferred_view(), c as int),
    {
        proof { self.lemma_wf_rows(); }
        let card = Card::from_num(c);
        let mut k: usize = 0;
        while k < changes.len()
            invariant
                self.wf(),
                k <= changes@.len(),
                card == card_at(c as int),
                forall|m: int| 0 <= m < changes@.len() ==> #[trigger] changes@[m] < 7,
                forall|m: int| 0 <= m < k ==> !(#[trigger] g.pflag(changes@[m] as int)
                    && count_card(self.inferred_view()[changes@[m] as int], card_at(c as int)) >= g.alive_spec()),
            decreases changes@.len() - k,
        {
            let p = changes[k];
            proof { self.lemma_wf_rows(); }
            if g.get_player_flag(p) && count_in(&self.inferred_constraints[p], card) >= g.count_alive() {
                return true;
            }
            k += 1;
        }
        false
    }

    /// Drops, from the groups of each card, those in which a player noted under that card in
    /// `card_changes` is known to hold at least the group's living copies.
    pub(crate) fn remove_known_groups(&mut self, card_changes: &Vec<Vec<usize>>)
        requires
            old(self).wf(),
            card_changes@.len() == 5,
            forall|c: int, k: int| 0 <= c < 5 && 0 <= k < card_changes@[c]@.len() ==> #[trigger] card_changes@[c]@[k] < 7,
        ensures
            final(self).wf(),
            final(self).public_view() == old(self).public_view(),
            final(self).inferred_view() == old(self).inferred_view(),
            final(self).impossible_view() == old(self).impossible_view(),
            final(self).history_view() == old(self).history_view(),
            final(self).move_no_spec() == old(self).move_no_spec(),
            forall|c: int| 0 <= c < 5 ==> {
                let after = #[trigger] final(self).groups_view()[c];
                let before = old(self).groups_view()[c];
                &&& forall|k: int| 0 <= k < after.len() ==> before.contains(#[trigger] after[k])
                    && !covered_by_known(after[k], card_changes@[c]@, old(self).inferred_view(), c)
                &&& forall|j: int| 0 <= j < before.len()
                    && !covered_by_known(#[trigger] before[j], card_changes@[c]@, old(self).inferred_view(), c)
                    ==> after.contains(before[j])
            },
            forall|c: int| 0 <= c < 5 && card_changes@[c]@.len() == 0
                ==> #[trigger] final(self).groups_view()[c] == old(self).groups_view()[c],
    {
        let mut c: usize = 0;
        while c < 5
            invariant
                self.wf(),
                c <= 5,
                card_changes@.len() == 5,
                forall|cc: int, k: int| 0 <= cc < 5 && 0 <= k < card_changes@[cc]@.len() ==> #[trigger] card_changes@[cc]@[k] < 7,
                self.public_view() == old(self).public_view(),
                self.inferred_view() == old(self).inferred_view(),
                self.impossible_view() == old(self).impossible_view(),
                self.history_view() == old(self).history_view(),
                self.move_no_spec() == old(self).move_no_spec(),
                self.groups_view().len() == 5,
                forall|cc: int| 0 <= cc < c ==> {
                    let after = #[trigger] self.groups_view()[cc];
                    let before = old(self).groups_view()[cc];
                    &&& forall|k: int| 0 <= k < after.len() ==> before.contains(#[trigger] after[k])
                        && !covered_by_known(after[k], card_changes@[cc]@, old(self).inferred_view(), cc)
                    &&& forall|j: int| 0 <= j < before.len()
                        && !covered_by_known(#[trigger] before[j], card_changes@[cc]@, old(self).inferred_view(), cc)
                        ==> after.contains(before[j])
                },
                forall|cc: int| c <= cc < 5 ==> #[trigger] self.groups_view()[cc] == old(self).groups_view()[cc],
                forall|cc: int| 0 <= cc < c && card_changes@[cc]@.len() == 0
                    ==> #[trigger] self.groups_view()[cc] == old(self).groups_view()[cc],
            decreases 5 - c,
        {
            let changes = &card_changes[c];
            assert(forall|k: int| 0 <= k < changes@.len() ==> #[trigger] changes@[k] < 7) by {
                assert forall|k: int| 0 <= k < changes@.len() implies #[trigger] changes@[k] < 7 by {
                    assert(card_changes@[c as int]@[k] < 7);
                }
            }
            let ghost gs = self.group_constraints@;
            let ghost before = self.groups_view()[c as int];
            let ghost inf = self.inferred_view();
            proof { lemma_group_rows(gs, c as int); }
            let mut i: usize = 0;
            while i < self.group_constraints[c].len()
                invariant
                    self.wf(),
                    c < 5,
                    i <= self.group_constraints@[c as int]@.len(),
                    self.group_constraints@.len() == 5,
                    forall|k: int| 0 <= k < changes@.len() ==> #[trigger] changes@[k] < 7,
                    inf == self.inferred_view(),
                    self.public_view() == old(self).public_view(),
                    self.inferred_view() == old(self).inferred_view(),
                    self.impossible_view() == old(self).impossible_view(),
                    self.history_view() == old(self).history_view(),
                    self.move_no_spec() == old(self).move_no_spec(),
                    forall|cc: int| 0 <= cc < 5 && cc != c ==> #[trigger] self.group_constraints@[cc] == gs[cc],
                    forall|k: int| 0 <= k < self.group_constraints@[c as int]@.len() ==> before.contains(#[trigger] self.group_constraints@[c as int]@[k]),
                    forall|k: int| 0 <= k < i ==> !covered_by_known(#[trigger] self.group_constraints@[c as int]@[k], changes@, inf, c as int),
                    forall|j: int| 0 <= j < before.len() && !covered_by_known(#[trigger] before[j], changes@, inf, c as int)
                        ==> self.group_constraints@[c as int]@.contains(before[j]),
                    changes@.len() == 0 ==> self.group_constraints@[c as int]@ == before,
                decreases self.group_constraints@[c as int]@.len() - i,
            {
                let g = self.group_constraints[c][i];
                if self.covered_by_known_exec(&g, changes, c) {
                    let ghost vv = self.group_constraints@[c as int]@;
                    proof {
                        assert forall|j: int| 0 <= j < before.len() && !covered_by_known(#[trigger] before[j], changes@, inf, c as int)
                            implies swap_removed(vv, i as int).contains(before[j]) by {
                            let m = choose|m: int| 0 <= m < vv.len() && vv[m] == before[j];
                            if m == vv.len() - 1 { assert(swap_removed(vv, i as int)[i as int] == before[j]); }
                            else { assert(swap_removed(vv, i as int)[m] == before[j]); }
                        }
                        assert forall|k: int| 0 <= k < vv.len() - 1 implies before.contains(#[trigger] swap_removed(vv, i as int)[k]) by {
                            if k == i { assert(swap_removed(vv, i as int)[k] == vv[vv.len() - 1]); }
                            else { assert(swap_removed(vv, i as int)[k] == vv[k]); }
                        }
                    }
                    self.group_constraints[c].swap_remove(i);
                    assert(self.group_constraints@[c as int]@ == swap_removed(vv, i as int));
                    continue;
                }
                i += 1;
            }
            proof {
                lemma_only_list_changed(gs, self.group_constraints@, c as int);
                assert(card_changes@[c as int]@ == changes@);
                assert forall|cc: int| 0 <= cc < c + 1 && card_changes@[cc]@.len() == 0
                    implies #[trigger] self.groups_view()[cc] == old(self).groups_view()[cc] by {
                    lemma_group_rows(self.group_constraints@, cc);
                    lemma_group_rows(gs, cc);
                }
            }
            c += 1;
        }
    }
}

} // verus!
