use vstd::prelude::*;
use crate::card::{Card, card_index, card_at, count_card, count_in, contains_card};
use crate::group::{CompressedGroupConstraint, count_flags, clamp3, disjoint_flags};
use super::group_ops::{present_or_covered, sub_list};
use super::bulk::first_member;
use super::{PathDependentCollectiveConstraint, clone_table, lemma_group_rows, lemma_only_list_changed, table_count, rows,
    lemma_rows, group_rows};

verus! {

/// A copy of a list of groups.
pub(crate) fn copy_groups(v: &Vec<CompressedGroupConstraint>) -> (r: Vec<CompressedGroupConstraint>)
    ensures
        r@ == v@,
{
    let mut r: Vec<CompressedGroupConstraint> = Vec::new();
    let mut i: usize = 0;
    while i < v.len()
        invariant
            i <= v@.len(),
            r@ == v@.subrange(0, i as int),
        decreases v@.len() - i,
    {
        r.push(v[i]);
        i += 1;
        assert(r@ =~= v@.subrange(0, i as int));
    }
    assert(v@.subrange(0, i as int) =~= v@);
    r
}

/// Five empty lists, one per card.
pub(crate) fn empty_lists<T>() -> (r: Vec<Vec<T>>)
    ensures
        r@.len() == 5,
        forall|c: int| 0 <= c < 5 ==> (#[trigger] r@[c])@.len() == 0,
{
    let mut r: Vec<Vec<T>> = Vec::new();
    let mut c: usize = 0;
    while c < 5
        invariant
            c <= 5,
            r@.len() == c,
            forall|k: int| 0 <= k < c ==> (#[trigger] r@[k])@.len() == 0,
        decreases 5 - c,
    {
        r.push(Vec::new());
        c += 1;
    }
    r
}

/// The first participant of a group, if it has one.
pub(crate) fn first_flag(g: &CompressedGroupConstraint) -> (r: Option<usize>)
    ensures
        match r {
            Some(p) => p < 7 && g.pflag(p as int) && (forall|j: int| 0 <= j < p ==> !g.pflag(j))
                && p == first_member(*g),
            None => forall|j: int| 0 <= j < 7 ==> !g.pflag(j),
        },
{
    let mut j: usize = 0;
    while j < 7
        invariant
            j <= 7,
            forall|k: int| 0 <= k < j ==> !g.pflag(k),
        decreases 7 - j,
    {
        if g.get_player_flag(j) {
            proof {
                let m = first_member(*g);
                assert(0 <= m < 7 && g.pflag(m) && forall|x: int| 0 <= x < m ==> !g.pflag(x));
                if m < j { assert(!g.pflag(m)); }
                if m > j { assert(!g.pflag(j as int)); }
            }
            return Some(j);
        }
        j += 1;
    }
    None
}

/// Some participant is in `g`.
pub open spec fn has_member(g: CompressedGroupConstraint) -> bool {
    exists|j: int| 0 <= j < 7 && #[trigger] g.pflag(j)
}

/// What the single-participant group `g` does to the known cards `inferred`, for its first
/// participant `p` and its card: with one living copy, the card joins `p`'s row unless
/// known there or the row is full; with two or three for the pile, the pile gets its
/// missing copies when they fit in three cards; with two for a player, the player's row
/// becomes exactly two copies. A group without participants changes nothing.
pub open spec fn single_step(inferred: Seq<Seq<Card>>, g: CompressedGroupConstraint) -> Seq<Seq<Card>> {
    let p = first_member(g);
    let card = g.card_spec();
    let alive = g.alive_spec() as int;
    let row = inferred[p];
    if !has_member(g) {
        inferred
    } else if alive == 1 {
        if !row.contains(card) && row.len() < 3 { inferred.update(p, row.push(card)) } else { inferred }
    } else if (alive == 2 || alive == 3) && p == 6 {
        let current = count_card(row, card) as int;
        if alive > current && row.len() + (alive - current) <= 3 {
            inferred.update(6, row + Seq::new((alive - current) as nat, |x: int| card))
        } else {
            inferred
        }
    } else if alive == 2 && p != 6 {
        inferred.update(p, seq![card, card])
    } else {
        inferred
    }
}

/// The known cards after the groups of `s` are taken, the last first (`single_step`).
pub open spec fn single_rows(inferred: Seq<Seq<Card>>, s: Seq<CompressedGroupConstraint>) -> Seq<Seq<Card>>
    decreases s.len(),
{
    if s.len() == 0 {
        inferred
    } else {
        single_rows(single_step(inferred, s.last()), s.drop_last())
    }
}

/// Whether `row` is exactly two copies of `card`.
pub(crate) fn is_pair_of(row: &Vec<Card>, card: Card) -> (r: bool)
    ensures
        r == (row@ == seq![card, card]),
{
    let r = row.len() == 2 && row[0] == card && row[1] == card;
    proof {
        if r { assert(row@ =~= seq![card, card]); }
        if row@ == seq![card, card] { assert(row@[0] == card && row@[1] == card); }
    }
    r
}

impl PathDependentCollectiveConstraint {
    /// The transfer to `player`'s known cards of what the single-participant groups in
    /// `singles` say, last group first: one copy is added unless known; a player holding two
    /// copies holds exactly them; the pile gets its missing copies. A change that would give a
    /// row more than three cards is not made. Players whose known cards of a card changed are
    /// noted in `card_changes`. Returns whether anything changed.
    pub(crate) fn apply_single_groups(&mut self, singles: &Vec<CompressedGroupConstraint>,
        card_changes: &mut Vec<Vec<usize>>) -> (r: bool)
        requires
            old(self).wf(),
            old(card_changes)@.len() == 5,
            forall|c: int, k: int| 0 <= c < 5 && 0 <= k < old(card_changes)@[c]@.len() ==> #[trigger] old(card_changes)@[c]@[k] < 7,
        ensures
            final(self).wf(),
            final(self).public_view() == old(self).public_view(),
            final(self).groups_view() == old(self).groups_view(),
            final(self).impossible_view() == old(self).impossible_view(),
            final(self).history_view() == old(self).history_view(),
            final(self).move_no_spec() == old(self).move_no_spec(),
            !r ==> final(self).inferred_view() == old(self).inferred_view(),
            final(self).inferred_view() == single_rows(old(self).inferred_view(), singles@),
            singles@.len() == 0 ==> final(card_changes)@ == old(card_changes)@ && !r,
            final(card_changes)@.len() == 5,
            forall|c: int, k: int| 0 <= c < 5 && 0 <= k < final(card_changes)@[c]@.len() ==> #[trigger] final(card_changes)@[c]@[k] < 7,
    {
        let mut changed = false;
        let mut i: usize = singles.len();
        proof { assert(singles@.take(i as int) =~= singles@); }
        while i > 0
            invariant
                self.wf(),
                i <= singles@.len(),
                self.public_view() == old(self).public_view(),
                self.groups_view() == old(self).groups_view(),
                self.impossible_view() == old(self).impossible_view(),
                self.history_view() == old(self).history_view(),
                self.move_no_spec() == old(self).move_no_spec(),
                !changed ==> self.inferred_view() == old(self).inferred_view(),
                card_changes@.len() == 5,
                forall|c: int, k: int| 0 <= c < 5 && 0 <= k < card_changes@[c]@.len() ==> #[trigger] card_changes@[c]@[k] < 7,
                single_rows(self.inferred_view(), singles@.take(i as int)) == single_rows(old(self).inferred_view(), singles@),
                singles@.len() == 0 ==> card_changes@ == old(card_changes)@ && !changed,
            decreases i,
        {
            i -= 1;
            let g = singles[i];
            let ghost inf_start = self.inferred_view();
            proof {
                let t1 = singles@.take(i as int + 1);
                assert(t1.last() == g);
                assert(t1.drop_last() =~= singles@.take(i as int));
                assert(single_rows(inf_start, t1) == single_rows(single_step(inf_start, g), singles@.take(i as int)));
            }
            let fp = first_flag(&g);
            proof {
                if fp is None {
                    assert(!has_member(g));
                } else {
                    assert(has_member(g)) by { assert(g.pflag(fp.unwrap() as int)); }
                }
            }
            if let Some(p) = fp {
                let card = g.card();
                let ci = card.num();
                let alive = g.count_alive();
                proof { self.lemma_wf_rows(); }
                let ghost inf0 = self.inferred_view();
                let ghost cc0 = card_changes@;
                let len = self.inferred_constraints[p].len();
                if alive == 1 {
                    if !contains_card(&self.inferred_constraints[p], card) && len < 3 {
                        self.inferred_constraints[p].push(card);
                        card_changes[ci].push(p);
                        changed = true;
                        proof {
                            assert(self.inferred_view() =~= inf0.update(p as int, inf0[p as int].push(card)));
                        }
                    }
                } else if (alive == 2 || alive == 3) && p == 6 {
                    let current = count_in(&self.inferred_constraints[6], card);
                    if alive > current && len + ((alive - current) as usize) <= 3 {
                        let k = alive - current;
                        let mut j: u8 = 0;
                        while j < k
                            invariant
                                j <= k,
                                len == inf0[6].len(),
                                len + k <= 3,
                                p == 6,
                                inf0.len() == 7,
                                forall|q: int| 0 <= q < 7 ==> #[trigger] inf0[q].len() <= 3,
                                self.inferred_constraints@.len() == 7,
                                self.inferred_view() == inf0.update(6, inf0[6] + Seq::new(j as nat, |x: int| card)),
                                table_ok_public_of(self),
                                self.group_constraints@.len() == 5,
                                self.history@.len() >= 2,
                                forall|h: int| 0 <= h < self.history@.len() ==> (#[trigger] self.history@[h]).meta_spec().wf(),
                                self.public_view() == old(self).public_view(),
                                self.groups_view() == old(self).groups_view(),
                                self.impossible_view() == old(self).impossible_view(),
                                self.history_view() == old(self).history_view(),
                                self.move_no_spec() == old(self).move_no_spec(),
                            decreases k - j,
                        {
                            let ghost prev = self.inferred_constraints@;
                            proof { lemma_rows(prev, 6); }
                            self.inferred_constraints[6].push(card);
                            j += 1;
                            proof {
                                let target = inf0.update(6, inf0[6] + Seq::new(j as nat, |x: int| card));
                                assert(inf0[6] + Seq::new(j as nat, |x: int| card) =~= (inf0[6] + Seq::new((j - 1) as nat, |x: int| card)).push(card));
                                assert forall|q: int| 0 <= q < 7 implies #[trigger] self.inferred_view()[q] == target[q] by {
                                    lemma_rows(self.inferred_constraints@, q);
                                    lemma_rows(prev, q);
                                }
                                assert(self.inferred_view() =~= target);
                            }
                        }
                        changed = true;
                    }
                } else if alive == 2 && p != 6 {
                    if !is_pair_of(&self.inferred_constraints[p], card) {
                        let mut both: Vec<Card> = Vec::new();
                        both.push(card);
                        both.push(card);
                        self.inferred_constraints.set(p, both);
                        card_changes[ci].push(p);
                        changed = true;
                        proof {
                            assert(self.inferred_view() =~= inf0.update(p as int, both@));
                            assert(both@ =~= seq![card, card]);
                        }
                    } else {
                        proof { assert(inf0.update(p as int, seq![card, card]) =~= inf0); }
                    }
                }
                proof {
                    assert forall|c: int, k: int| 0 <= c < 5 && 0 <= k < card_changes@[c]@.len()
                        implies #[trigger] card_changes@[c]@[k] < 7 by {
                        if c == ci {
                            if k < cc0[c]@.len() {
                                assert(card_changes@[c]@[k] == cc0[c]@[k]);
                            }
                        } else {
                            assert(card_changes@[c] == cc0[c]);
                        }
                    }
                }
            }
            proof { assert(self.inferred_view() == single_step(inf_start, g)); }
        }
        proof { assert(singles@.take(0) =~= Seq::<CompressedGroupConstraint>::empty()); }
        changed
    }
}

/// The living copies of card number `c` in `g` that participant `p`, with dead cards
/// `public_row` and known cards `inferred_row`, cannot hold (see `excess_copies`).
pub open spec fn excess_of(g: CompressedGroupConstraint, public_row: Seq<Card>, inferred_row: Seq<Card>, p: int,
    c: int, unopt: bool) -> Option<int>
{
    let single: int = if g.sflag(p) { 1 } else { 0 };
    let lives: int = if p != 6 { 2 - if public_row.len() >= single { public_row.len() as int } else { single } } else { 3 };
    let diff: int = inferred_row.len() - count_card(inferred_row, card_at(c));
    let alive = g.alive_spec() as int;
    if unopt {
        if diff > lives {
            None
        } else {
            let max_holdable = if lives == 1 && diff == 1 { 1 } else { lives - diff };
            if alive > max_holdable { Some(alive - max_holdable) } else { None }
        }
    } else {
        if alive + diff > lives { Some(alive + diff - lives) } else { None }
    }
}

/// `h` is `g` with participant `p` taken out (and its single-card flag), `dead` dead copies
/// fewer, `excess` living copies, and a total of living and dead copies, counts kept within
/// three.
pub open spec fn derived_rel(h: CompressedGroupConstraint, g: CompressedGroupConstraint, p: int, dead: int, excess: int) -> bool {
    &&& forall|i: int| 0 <= i < 7 ==> #[trigger] h.pflag(i) == (i != p && g.pflag(i))
    &&& forall|i: int| 0 <= i < 7 ==> #[trigger] h.sflag(i) == (i != p && g.sflag(i))
    &&& h.card_spec() == g.card_spec()
    &&& h.dead_spec() == clamp3(g.dead_spec() - dead)
    &&& h.alive_spec() == clamp3(excess)
    &&& h.total_spec() == clamp3(clamp3(excess) + clamp3(g.dead_spec() - dead))
}

/// The group `derived_rel` describes.
pub open spec fn derived_group(g: CompressedGroupConstraint, p: int, dead: int, excess: int) -> CompressedGroupConstraint {
    choose|h: CompressedGroupConstraint| derived_rel(h, g, p, dead, excess)
}

/// Group `g` of card number `c` with several participants yields a group without its
/// participant `p`, which cannot hold all its living copies (`excess_of`).
pub open spec fn derives(public: Seq<Seq<Card>>, inferred: Seq<Seq<Card>>, g: CompressedGroupConstraint, p: int, c: int,
    unopt: bool) -> bool
{
    &&& count_flags(g.plist(), 7) > 1
    &&& 0 <= p < 7
    &&& g.pflag(p)
    &&& excess_of(g, public[p], inferred[p], p, c, unopt) is Some
}

/// The group without `p` holding the excess copies (`derives`).
pub open spec fn derived_from(public: Seq<Seq<Card>>, inferred: Seq<Seq<Card>>, g: CompressedGroupConstraint, p: int, c: int,
    unopt: bool) -> CompressedGroupConstraint
{
    derived_group(g, p, count_card(public[p], card_at(c)) as int, excess_of(g, public[p], inferred[p], p, c, unopt).unwrap())
}

impl PathDependentCollectiveConstraint {
    /// The living copies of card number `c` that participant `p` of `g` cannot hold given its
    /// other known cards, or `None` when it can hold them all. With `unopt`, a player with one
    /// life and one other known card is taken to hold one copy, and a participant with more
    /// other known cards than lives yields nothing.
    pub(crate) fn excess_copies(&self, g: &CompressedGroupConstraint, p: usize, c: usize, unopt: bool) -> (r: Option<u8>)
        requires
            self.wf(),
            p < 7,
            c < 5,
        ensures
            match r {
                Some(e) => e <= 6,
                None => true,
            },
            r is Some == excess_of(*g, self.public_view()[p as int], self.inferred_view()[p as int], p as int, c as int, unopt) is Some,
            r is Some ==> r.unwrap() as int
                == excess_of(*g, self.public_view()[p as int], self.inferred_view()[p as int], p as int, c as int, unopt).unwrap(),
    {
        proof { self.lemma_wf_rows(); }
        let lives: u8 = if p != 6 {
            let dead_len = self.public_constraints[p].len() as u8;
            let single: u8 = if g.get_single_card_flag(p) { 1 } else { 0 };
            2 - if dead_len >= single { dead_len } else { single }
        } else {
            3
        };
        let card = Card::from_num(c);
        let row = &self.inferred_constraints[p];
        let same = count_in(row, card);
        proof { crate::card::lemma_count_card_le_len(row@, card); }
        let diff: u8 = row.len() as u8 - same;
        let alive = g.count_alive();
        if unopt {
            if diff > lives {
                return None;
            }
            let max_holdable: u8 = if lives == 1 && diff == 1 { 1 } else { lives - diff };
            if alive > max_holdable { Some(alive - max_holdable) } else { None }
        } else {
            if alive + diff > lives { Some(alive + diff - lives) } else { None }
        }
    }

    /// For each group of `reference` with several participants and each participant that
    /// cannot hold all its living copies, the group of the other participants holding the
    /// excess (see `subset_derived`): groups with more than two participants left go, without
    /// redundancy, to the first list of the result (by card), the others to the second.
    pub(crate) fn derive_subset_groups(&self, reference: &Vec<Vec<CompressedGroupConstraint>>, unopt: bool)
        -> (r: (Vec<Vec<CompressedGroupConstraint>>, Vec<CompressedGroupConstraint>))
        requires
            self.wf(),
            reference@.len() == 5,
        ensures
            r.0@.len() == 5,
            (forall|c: int| 0 <= c < 5 ==> (#[trigger] reference@[c])@.len() == 0)
                ==> (forall|c: int| 0 <= c < 5 ==> (#[trigger] r.0@[c])@.len() == 0) && r.1@.len() == 0,
            (forall|c: int, k: int| 0 <= c < 5 && 0 <= k < reference@[c]@.len() ==> count_flags(#[trigger] reference@[c]@[k].plist(), 7) <= 1)
                ==> (forall|c: int| 0 <= c < 5 ==> (#[trigger] r.0@[c])@.len() == 0) && r.1@.len() == 0,
            forall|c: int, k: int, p: int| 0 <= c < 5 && 0 <= k < reference@[c]@.len()
                && derives(self.public_view(), self.inferred_view(), reference@[c]@[k], p, c, unopt)
                && count_flags(reference@[c]@[k].plist(), 7) > 2
                ==> present_or_covered(r.0@[c]@, #[trigger] derived_from(self.public_view(), self.inferred_view(),
                    reference@[c]@[k], p, c, unopt)),
    {
        let ghost pv = self.public_view();
        let ghost iv = self.inferred_view();
        let ghost ref_empty = forall|c: int| 0 <= c < 5 ==> (#[trigger] reference@[c])@.len() == 0;
        let ghost ref_single = forall|c: int, k: int| 0 <= c < 5 && 0 <= k < reference@[c]@.len()
            ==> count_flags(#[trigger] reference@[c]@[k].plist(), 7) <= 1;
        let mut new_groups: Vec<Vec<CompressedGroupConstraint>> = empty_lists();
        let mut singles: Vec<CompressedGroupConstraint> = Vec::new();
        let mut c: usize = 0;
        while c < 5
            invariant
                self.wf(),
                c <= 5,
                reference@.len() == 5,
                new_groups@.len() == 5,
                ref_empty == forall|c: int| 0 <= c < 5 ==> (#[trigger] reference@[c])@.len() == 0,
                ref_empty ==> (forall|x: int| 0 <= x < 5 ==> (#[trigger] new_groups@[x])@.len() == 0) && singles@.len() == 0,
                ref_single == forall|c: int, k: int| 0 <= c < 5 && 0 <= k < reference@[c]@.len()
                    ==> count_flags(#[trigger] reference@[c]@[k].plist(), 7) <= 1,
                ref_single ==> (forall|x: int| 0 <= x < 5 ==> (#[trigger] new_groups@[x])@.len() == 0) && singles@.len() == 0,
                pv == self.public_view(),
                iv == self.inferred_view(),
                forall|c2: int, k: int, p: int| 0 <= c2 < c && 0 <= k < reference@[c2]@.len()
                    && derives(pv, iv, reference@[c2]@[k], p, c2, unopt)
                    && count_flags(reference@[c2]@[k].plist(), 7) > 2
                    ==> present_or_covered(new_groups@[c2]@, #[trigger] derived_from(pv, iv, reference@[c2]@[k], p, c2, unopt)),
            decreases 5 - c,
        {
            let list = &reference[c];
            let ghost frame = new_groups@;
            let mut i: usize = 0;
            while i < list.len()
                invariant
                    self.wf(),
                    c < 5,
                    i <= list@.len(),
                    new_groups@.len() == 5,
                    ref_empty ==> list@.len() == 0,
                    ref_empty ==> (forall|x: int| 0 <= x < 5 ==> (#[trigger] new_groups@[x])@.len() == 0) && singles@.len() == 0,
                    ref_single ==> (forall|k: int| 0 <= k < list@.len() ==> count_flags(#[trigger] list@[k].plist(), 7) <= 1),
                    ref_single ==> (forall|x: int| 0 <= x < 5 ==> (#[trigger] new_groups@[x])@.len() == 0) && singles@.len() == 0,
                    pv == self.public_view(),
                    iv == self.inferred_view(),
                    list@ == reference@[c as int]@,
                    frame.len() == 5,
                    forall|x: int| 0 <= x < 5 && x != c ==> #[trigger] new_groups@[x] == frame[x],
                    forall|c2: int, k: int, p: int| 0 <= c2 < c && 0 <= k < reference@[c2]@.len()
                        && derives(pv, iv, reference@[c2]@[k], p, c2, unopt)
                        && count_flags(reference@[c2]@[k].plist(), 7) > 2
                        ==> present_or_covered(frame[c2]@, #[trigger] derived_from(pv, iv, reference@[c2]@[k], p, c2, unopt)),
                    forall|k: int, p: int| 0 <= k < i
                        && derives(pv, iv, list@[k], p, c as int, unopt)
                        && count_flags(list@[k].plist(), 7) > 2
                        ==> present_or_covered(new_groups@[c as int]@, #[trigger] derived_from(pv, iv, list@[k], p, c as int, unopt)),
                decreases list@.len() - i,
            {
                let g = list[i];
                let flags = g.part_list_count();
                if flags > 1 {
                    let mut p: usize = 0;
                    while p < 7
                        invariant
                            self.wf(),
                            c < 5,
                            p <= 7,
                            new_groups@.len() == 5,
                            pv == self.public_view(),
                            iv == self.inferred_view(),
                            i < list@.len(),
                            g == list@[i as int],
                            flags == count_flags(g.plist(), 7),
                            flags > 1,
                            frame.len() == 5,
                            forall|x: int| 0 <= x < 5 && x != c ==> #[trigger] new_groups@[x] == frame[x],
                            forall|k: int, q: int| 0 <= k < i
                                && derives(pv, iv, list@[k], q, c as int, unopt)
                                && count_flags(list@[k].plist(), 7) > 2
                                ==> present_or_covered(new_groups@[c as int]@, #[trigger] derived_from(pv, iv, list@[k], q, c as int, unopt)),
                            forall|q: int| 0 <= q < p
                                && derives(pv, iv, g, q, c as int, unopt)
                                && flags > 2
                                ==> present_or_covered(new_groups@[c as int]@, #[trigger] derived_from(pv, iv, g, q, c as int, unopt)),
                        decreases 7 - p,
                    {
                        if g.get_player_flag(p) {
                            match self.excess_copies(&g, p, c, unopt) {
                                Some(excess) => {
                                    proof { self.lemma_wf_rows(); }
                                    let mut ng = g;
                                    ng.set_player_flag(p, false);
                                    ng.set_single_card_flag(p, false);
                                    let dead = count_in(&self.public_constraints[p], Card::from_num(c));
                                    ng.sub_dead_count(dead);
                                    ng.set_alive_count(excess);
                                    let total = ng.count_alive() + ng.count_dead();
                                    ng.set_total_count(total);
                                    proof {
                                        let dg = derived_from(pv, iv, g, p as int, c as int, unopt);
                                        assert(derived_rel(ng, g, p as int, dead as int, excess as int));
                                        assert(derived_rel(dg, g, p as int, dead as int, excess as int));
                                        assert forall|x: int| 0 <= x < 7 implies #[trigger] ng.pflag(x) == dg.pflag(x) by {}
                                        assert forall|x: int| 0 <= x < 7 implies #[trigger] ng.sflag(x) == dg.sflag(x) by {}
                                        crate::group::lemma_group_ext(ng, dg);
                                    }
                                    if flags > 2 {
                                        let ghost before = new_groups@[c as int]@;
                                        Self::non_redundant_push(&mut new_groups[c], ng);
                                        proof {
                                            let after = new_groups@[c as int]@;
                                            assert forall|k: int, q: int| 0 <= k < i
                                                && derives(pv, iv, list@[k], q, c as int, unopt)
                                                && count_flags(list@[k].plist(), 7) > 2
                                                implies present_or_covered(after, #[trigger] derived_from(pv, iv, list@[k], q, c as int, unopt)) by {
                                                super::group_ops::lemma_push_keeps_covered(before, after,
                                                    derived_from(pv, iv, list@[k], q, c as int, unopt), ng);
                                            }
                                            assert forall|q: int| 0 <= q < p + 1
                                                && derives(pv, iv, g, q, c as int, unopt)
                                                && flags > 2
                                                implies present_or_covered(after, #[trigger] derived_from(pv, iv, g, q, c as int, unopt)) by {
                                                if q < p {
                                                    super::group_ops::lemma_push_keeps_covered(before, after,
                                                        derived_from(pv, iv, g, q, c as int, unopt), ng);
                                                }
                                            }
                                        }
                                    } else {
                                        Self::non_duplicate_push(&mut singles, ng);
                                    }
                                },
                                None => {},
                            }
                        }
                        p += 1;
                    }
                }
                proof {
                    assert forall|k: int, q: int| 0 <= k < i + 1
                        && derives(pv, iv, list@[k], q, c as int, unopt)
                        && count_flags(list@[k].plist(), 7) > 2
                        implies present_or_covered(new_groups@[c as int]@, #[trigger] derived_from(pv, iv, list@[k], q, c as int, unopt)) by {
                        if k == i {
                            assert(0 <= q < 7);
                        }
                    }
                }
                i += 1;
            }
            proof {
                assert forall|c2: int, k: int, q: int| 0 <= c2 < c + 1 && 0 <= k < reference@[c2]@.len()
                    && derives(pv, iv, reference@[c2]@[k], q, c2, unopt)
                    && count_flags(reference@[c2]@[k].plist(), 7) > 2
                    implies present_or_covered(new_groups@[c2]@, #[trigger] derived_from(pv, iv, reference@[c2]@[k], q, c2, unopt)) by {
                    if c2 < c {
                        assert(new_groups@[c2] == frame[c2]);
                    }
                }
            }
            c += 1;
        }
        (new_groups, singles)
    }

    /// Adds every group of `new_groups` to the list of its card without redundancy, last
    /// group of each list first; returns whether any was added.
    pub(crate) fn push_groups_tracked(&mut self, new_groups: Vec<Vec<CompressedGroupConstraint>>) -> (r: bool)
        requires
            old(self).wf(),
            new_groups@.len() == 5,
        ensures
            final(self).wf(),
            final(self).public_view() == old(self).public_view(),
            final(self).inferred_view() == old(self).inferred_view(),
            final(self).impossible_view() == old(self).impossible_view(),
            final(self).history_view() == old(self).history_view(),
            final(self).move_no_spec() == old(self).move_no_spec(),
            forall|c: int, k: int| 0 <= c < 5 && 0 <= k < new_groups@[c]@.len()
                ==> present_or_covered(final(self).groups_view()[c], #[trigger] new_groups@[c]@[k]),
            !r ==> forall|c: int| 0 <= c < 5 ==> sub_list(#[trigger] final(self).groups_view()[c], old(self).groups_view()[c]),
            (exists|c: int, k: int| 0 <= c < 5 && 0 <= k < new_groups@[c]@.len()
                && !present_or_covered(old(self).groups_view()[c], #[trigger] new_groups@[c]@[k])) ==> r,
            forall|c: int, g: CompressedGroupConstraint| 0 <= c < 5 && #[trigger] present_or_covered(old(self).groups_view()[c], g)
                ==> present_or_covered(final(self).groups_view()[c], g),
            (forall|c: int| 0 <= c < 5 ==> (#[trigger] new_groups@[c])@.len() == 0)
                ==> !r && final(self).groups_view() == old(self).groups_view(),
            (forall|c: int, k: int| 0 <= c < 5 && 0 <= k < new_groups@[c]@.len()
                ==> present_or_covered(old(self).groups_view()[c], #[trigger] new_groups@[c]@[k])) ==> !r,
    {
        let ghost ng0 = new_groups@;
        let ghost ng_empty = forall|c: int| 0 <= c < 5 ==> (#[trigger] new_groups@[c])@.len() == 0;
        let ghost all0 = forall|c: int, k: int| 0 <= c < 5 && 0 <= k < new_groups@[c]@.len()
            ==> present_or_covered(old(self).groups_view()[c], #[trigger] new_groups@[c]@[k]);
        let mut new_groups = new_groups;
        let mut changed = false;
        let mut c: usize = 0;
        while c < 5
            invariant
                self.wf(),
                c <= 5,
                new_groups@.len() == 5,
                ng0.len() == 5,
                forall|x: int| c <= x < 5 ==> #[trigger] new_groups@[x] == ng0[x],
                self.public_view() == old(self).public_view(),
                self.inferred_view() == old(self).inferred_view(),
                self.impossible_view() == old(self).impossible_view(),
                self.history_view() == old(self).history_view(),
                self.move_no_spec() == old(self).move_no_spec(),
                forall|x: int, k: int| 0 <= x < c && 0 <= k < ng0[x]@.len()
                    ==> present_or_covered(self.groups_view()[x], #[trigger] ng0[x]@[k]),
                !changed ==> forall|x: int| 0 <= x < 5 ==> sub_list(#[trigger] self.groups_view()[x], old(self).groups_view()[x]),
                forall|x: int, g: CompressedGroupConstraint| 0 <= x < 5 && #[trigger] present_or_covered(old(self).groups_view()[x], g)
                    ==> present_or_covered(self.groups_view()[x], g),
                ng_empty == forall|x: int| 0 <= x < 5 ==> (#[trigger] ng0[x])@.len() == 0,
                ng_empty ==> !changed && self.groups_view() == old(self).groups_view(),
                all0 == forall|x: int, k: int| 0 <= x < 5 && 0 <= k < ng0[x]@.len()
                    ==> present_or_covered(old(self).groups_view()[x], #[trigger] ng0[x]@[k]),
                all0 ==> !changed,
                forall|x: int| c <= x < 5 ==> #[trigger] self.groups_view()[x] == old(self).groups_view()[x],
            decreases 5 - c,
        {
            let mut list = Vec::new();
            std::mem::swap(&mut list, &mut new_groups[c]);
            proof {
                assert(list@ == ng0[c as int]@);
                assert forall|x: int| c < x < 5 implies #[trigger] new_groups@[x] == ng0[x] by {}
            }
            let ghost gv_start = self.groups_view();
            while list.len() > 0
                invariant
                    self.wf(),
                    c < 5,
                    ng0.len() == 5,
                    list@.len() <= ng0[c as int]@.len(),
                    list@ == ng0[c as int]@.take(list@.len() as int),
                    self.public_view() == old(self).public_view(),
                    self.inferred_view() == old(self).inferred_view(),
                    self.impossible_view() == old(self).impossible_view(),
                    self.history_view() == old(self).history_view(),
                    self.move_no_spec() == old(self).move_no_spec(),
                    forall|x: int| 0 <= x < 5 && x != c ==> #[trigger] self.groups_view()[x] == gv_start[x],
                    forall|k: int| list@.len() <= k < ng0[c as int]@.len()
                        ==> present_or_covered(self.groups_view()[c as int], #[trigger] ng0[c as int]@[k]),
                    !changed ==> forall|x: int| 0 <= x < 5 ==> sub_list(#[trigger] self.groups_view()[x], old(self).groups_view()[x]),
                    ng_empty == forall|x: int| 0 <= x < 5 ==> (#[trigger] ng0[x])@.len() == 0,
                    ng_empty ==> list@.len() == 0 && !changed && self.groups_view() == old(self).groups_view(),
                    all0 ==> !changed,
                    all0 ==> forall|k: int| 0 <= k < list@.len() ==> present_or_covered(self.groups_view()[c as int], #[trigger] list@[k]),
                    forall|x: int| c < x < 5 ==> #[trigger] self.groups_view()[x] == old(self).groups_view()[x],
                    forall|x: int, g: CompressedGroupConstraint| 0 <= x < 5 && #[trigger] present_or_covered(old(self).groups_view()[x], g)
                        ==> present_or_covered(self.groups_view()[x], g),
                ensures
                    ng_empty ==> !changed && self.groups_view() == old(self).groups_view(),
                    all0 ==> !changed,
                    forall|x: int| c < x < 5 ==> #[trigger] self.groups_view()[x] == old(self).groups_view()[x],
                    !changed ==> forall|x: int| 0 <= x < 5 ==> sub_list(#[trigger] self.groups_view()[x], old(self).groups_view()[x]),
                    forall|x: int, g: CompressedGroupConstraint| 0 <= x < 5 && #[trigger] present_or_covered(old(self).groups_view()[x], g)
                        ==> present_or_covered(self.groups_view()[x], g),
                    list@.len() == 0,
                    forall|x: int| 0 <= x < 5 && x != c ==> #[trigger] self.groups_view()[x] == gv_start[x],
                    forall|k: int| 0 <= k < ng0[c as int]@.len()
                        ==> present_or_covered(self.groups_view()[c as int], #[trigger] ng0[c as int]@[k]),
                    self.wf(),
                    self.public_view() == old(self).public_view(),
                    self.inferred_view() == old(self).inferred_view(),
                    self.impossible_view() == old(self).impossible_view(),
                    self.history_view() == old(self).history_view(),
                    self.move_no_spec() == old(self).move_no_spec(),
                decreases list@.len(),
            {
                let ghost l0 = list@;
                let g = match list.pop() {
                    Some(g) => g,
                    None => { break; },
                };
                let ghost before = self.group_constraints@;
                let ghost gl0 = self.groups_view()[c as int];
                proof {
                    lemma_group_rows(before, c as int);
                    if all0 {
                        assert(g == l0[l0.len() - 1]);
                        assert(present_or_covered(gl0, l0[l0.len() - 1]));
                    }
                }
                let added = Self::non_redundant_push_tracked(&mut self.group_constraints[c], g).0;
                proof {
                    lemma_only_list_changed(before, self.group_constraints@, c as int);
                    lemma_group_rows(self.group_constraints@, c as int);
                    let gl1 = self.groups_view()[c as int];
                    if all0 {
                        assert(!added);
                        assert forall|k: int| 0 <= k < list@.len() implies present_or_covered(gl1, #[trigger] list@[k]) by {
                            assert(list@[k] == l0[k]);
                            assert(present_or_covered(gl0, l0[k]));
                            super::group_ops::lemma_push_keeps_covered(gl0, gl1, l0[k], g);
                        }
                    }
                    assert(list@ =~= ng0[c as int]@.take(list@.len() as int));
                    assert(g == ng0[c as int]@[list@.len() as int]);
                    assert forall|k: int| list@.len() <= k < ng0[c as int]@.len()
                        implies present_or_covered(gl1, #[trigger] ng0[c as int]@[k]) by {
                        if k == list@.len() {
                        } else {
                            super::group_ops::lemma_push_keeps_covered(gl0, gl1, ng0[c as int]@[k], g);
                        }
                    }
                    assert forall|x: int| 0 <= x < 5 && x != c implies #[trigger] self.groups_view()[x] == gv_start[x] by {
                        lemma_group_rows(self.group_constraints@, x);
                        lemma_group_rows(before, x);
                    }
                    assert forall|x: int, h: CompressedGroupConstraint| 0 <= x < 5 && #[trigger] present_or_covered(old(self).groups_view()[x], h)
                        implies present_or_covered(self.groups_view()[x], h) by {
                        lemma_group_rows(self.group_constraints@, x);
                        lemma_group_rows(before, x);
                        if x == c {
                            assert(present_or_covered(gl0, h));
                            super::group_ops::lemma_push_keeps_covered(gl0, gl1, h, g);
                        } else {
                            assert(self.groups_view()[x] == gv_start[x]);
                        }
                    }
                    if !added && !changed {
                        assert forall|x: int| 0 <= x < 5 implies sub_list(#[trigger] self.groups_view()[x], old(self).groups_view()[x]) by {
                            lemma_group_rows(self.group_constraints@, x);
                            lemma_group_rows(before, x);
                            if x == c {
                                super::group_ops::lemma_sub_list_trans(gl1, gl0, old(self).groups_view()[x]);
                            }
                        }
                    }
                }
                changed = added || changed;
            }
            proof {
                assert forall|x: int, k: int| 0 <= x < c + 1 && 0 <= k < ng0[x]@.len()
                    implies present_or_covered(self.groups_view()[x], #[trigger] ng0[x]@[k]) by {
                    if x < c { assert(self.groups_view()[x] == gv_start[x]); }
                }
            }
            c += 1;
        }
        proof {
            if !changed {
                assert forall|x: int, k: int| 0 <= x < 5 && 0 <= k < ng0[x]@.len()
                    implies present_or_covered(old(self).groups_view()[x], #[trigger] ng0[x]@[k]) by {
                    assert(sub_list(self.groups_view()[x], old(self).groups_view()[x]));
                    super::group_ops::lemma_covered_in_whole(self.groups_view()[x], old(self).groups_view()[x], ng0[x]@[k]);
                }
            }
        }
        changed
    }
}

/// Whether every list of `lists` is empty.
pub(crate) fn all_lists_empty<T>(lists: &Vec<Vec<T>>) -> (r: bool)
    ensures
        r == forall|c: int| 0 <= c < lists@.len() ==> (#[trigger] lists@[c])@.len() == 0,
{
    let mut c: usize = 0;
    while c < lists.len()
        invariant
            c <= lists@.len(),
            forall|k: int| 0 <= k < c ==> (#[trigger] lists@[k])@.len() == 0,
        decreases lists@.len() - c,
    {
        if lists[c].len() != 0 {
            return false;
        }
        c += 1;
    }
    true
}

/// A copy of the group lists.
pub(crate) fn copy_lists(v: &Vec<Vec<CompressedGroupConstraint>>) -> (r: Vec<Vec<CompressedGroupConstraint>>)
    ensures
        group_rows(r@) == group_rows(v@),
        r@.len() == v@.len(),
{
    let mut r: Vec<Vec<CompressedGroupConstraint>> = Vec::new();
    let mut i: usize = 0;
    while i < v.len()
        invariant
            i <= v@.len(),
            r@.len() == i,
            forall|k: int| 0 <= k < i ==> (#[trigger] r@[k])@ == v@[k]@,
        decreases v@.len() - i,
    {
        r.push(copy_groups(&v[i]));
        i += 1;
    }
    proof {
        assert(group_rows(r@) =~= group_rows(v@));
    }
    r
}

/// Whether two lists of group lists hold the same groups in the same order.
pub(crate) fn same_lists(a: &Vec<Vec<CompressedGroupConstraint>>, b: &Vec<Vec<CompressedGroupConstraint>>) -> (r: bool)
    ensures
        r == (group_rows(a@) == group_rows(b@)),
{
    if a.len() != b.len() {
        proof { assert(group_rows(a@).len() != group_rows(b@).len()); }
        return false;
    }
    let mut i: usize = 0;
    while i < a.len()
        invariant
            i <= a@.len(),
            a@.len() == b@.len(),
            forall|k: int| 0 <= k < i ==> (#[trigger] a@[k])@ == b@[k]@,
        decreases a@.len() - i,
    {
        if a[i].len() != b[i].len() {
            proof { assert(group_rows(a@)[i as int] != group_rows(b@)[i as int]); }
            return false;
        }
        let mut j: usize = 0;
        while j < a[i].len()
            invariant
                i < a@.len(),
                a@.len() == b@.len(),
                a@[i as int]@.len() == b@[i as int]@.len(),
                j <= a@[i as int]@.len(),
                forall|m: int| 0 <= m < j ==> a@[i as int]@[m] == b@[i as int]@[m],
            decreases a@[i as int]@.len() - j,
        {
            if a[i][j] != b[i][j] {
                proof { assert(group_rows(a@)[i as int][j as int] != group_rows(b@)[i as int][j as int]); }
                return false;
            }
            j += 1;
        }
        proof { assert(a@[i as int]@ =~= b@[i as int]@); }
        i += 1;
    }
    proof { assert(group_rows(a@) =~= group_rows(b@)); }
    true
}

/// Whether two tables hold the same cards in the same order.
pub(crate) fn same_rows(a: &Vec<Vec<Card>>, b: &Vec<Vec<Card>>) -> (r: bool)
    ensures
        r == (rows(a@) == rows(b@)),
{
    if a.len() != b.len() {
        proof { assert(rows(a@).len() != rows(b@).len()); }
        return false;
    }
    let mut i: usize = 0;
    while i < a.len()
        invariant
            i <= a@.len(),
            a@.len() == b@.len(),
            forall|k: int| 0 <= k < i ==> (#[trigger] a@[k])@ == b@[k]@,
        decreases a@.len() - i,
    {
        if a[i].len() != b[i].len() {
            proof { assert(rows(a@)[i as int] != rows(b@)[i as int]); }
            return false;
        }
        let mut j: usize = 0;
        while j < a[i].len()
            invariant
                i < a@.len(),
                a@.len() == b@.len(),
                a@[i as int]@.len() == b@[i as int]@.len(),
                j <= a@[i as int]@.len(),
                forall|m: int| 0 <= m < j ==> a@[i as int]@[m] == b@[i as int]@[m],
            decreases a@[i as int]@.len() - j,
        {
            if a[i][j] != b[i][j] {
                proof { assert(rows(a@)[i as int][j as int] != rows(b@)[i as int][j as int]); }
                return false;
            }
            j += 1;
        }
        proof { assert(a@[i as int]@ =~= b@[i as int]@); }
        i += 1;
    }
    proof { assert(rows(a@) =~= rows(b@)); }
    true
}

/// The most rounds the subset derivation runs before it stops looking for more: as many as a
/// counter can count, so that in practice it runs until nothing changes.
pub const SUBSET_ROUNDS: usize = usize::MAX;

impl PathDependentCollectiveConstraint {
    /// Derives, until nothing changes (at most `SUBSET_ROUNDS` rounds), the groups implied by
    /// participants that cannot hold all the living copies of a group (`derive_subset_groups`
    /// in its first form): single-participant results become known cards
    /// (`apply_single_groups`), groups made redundant by them are dropped, and the other
    /// results are added. Returns whether anything changed: the group lists or the known
    /// cards differ from before, or some round added a known card or a group.
    pub fn add_subset_groups_unopt(&mut self) -> (r: bool)
        requires
            old(self).wf(),
        ensures
            final(self).wf(),
            final(self).public_view() == old(self).public_view(),
            final(self).impossible_view() == old(self).impossible_view(),
            final(self).history_view() == old(self).history_view(),
            final(self).move_no_spec() == old(self).move_no_spec(),
            final(self).groups_view() != old(self).groups_view() || final(self).inferred_view() != old(self).inferred_view() ==> r,
            (forall|c: int| 0 <= c < 5 ==> (#[trigger] old(self).groups_view()[c]).len() == 0)
                ==> !r && final(self).groups_view() == old(self).groups_view() && final(self).inferred_view() == old(self).inferred_view(),
            (forall|c: int, k: int| 0 <= c < 5 && 0 <= k < old(self).groups_view()[c].len()
                ==> count_flags(#[trigger] old(self).groups_view()[c][k].plist(), 7) <= 1)
                ==> !r && final(self).groups_view() == old(self).groups_view() && final(self).inferred_view() == old(self).inferred_view(),
            (exists|c: int, k: int, p: int| 0 <= c < 5 && 0 <= k < old(self).groups_view()[c].len()
                && derives(old(self).public_view(), old(self).inferred_view(), old(self).groups_view()[c][k], p, c, true)
                && count_flags(old(self).groups_view()[c][k].plist(), 7) > 2
                && !present_or_covered(old(self).groups_view()[c], #[trigger] derived_from(old(self).public_view(),
                    old(self).inferred_view(), old(self).groups_view()[c][k], p, c, true))) ==> r,
    {
        let groups0 = copy_lists(&self.group_constraints);
        let inferred0 = clone_table(&self.inferred_constraints);
        let added = self.subset_rounds_unopt();
        let same = same_lists(&groups0, &self.group_constraints) && same_rows(&inferred0, &self.inferred_constraints);
        added || !same
    }

    /// The rounds of `add_subset_groups_unopt`: returns whether any round added a known card
    /// or a group; when none did, the known cards are as they were and each list only lost
    /// groups.
    fn subset_rounds_unopt(&mut self) -> (r: bool)
        requires
            old(self).wf(),
        ensures
            final(self).wf(),
            final(self).public_view() == old(self).public_view(),
            final(self).impossible_view() == old(self).impossible_view(),
            final(self).history_view() == old(self).history_view(),
            final(self).move_no_spec() == old(self).move_no_spec(),
            !r ==> final(self).inferred_view() == old(self).inferred_view(),
            !r ==> forall|c: int| 0 <= c < 5 ==> sub_list(#[trigger] final(self).groups_view()[c], old(self).groups_view()[c]),
            (forall|c: int| 0 <= c < 5 ==> (#[trigger] old(self).groups_view()[c]).len() == 0)
                ==> !r && final(self).groups_view() == old(self).groups_view() && final(self).inferred_view() == old(self).inferred_view(),
            (forall|c: int, k: int| 0 <= c < 5 && 0 <= k < old(self).groups_view()[c].len()
                ==> count_flags(#[trigger] old(self).groups_view()[c][k].plist(), 7) <= 1)
                ==> !r && final(self).groups_view() == old(self).groups_view() && final(self).inferred_view() == old(self).inferred_view(),
            (exists|c: int, k: int, p: int| 0 <= c < 5 && 0 <= k < old(self).groups_view()[c].len()
                && derives(old(self).public_view(), old(self).inferred_view(), old(self).groups_view()[c][k], p, c, true)
                && count_flags(old(self).groups_view()[c][k].plist(), 7) > 2
                && !present_or_covered(old(self).groups_view()[c], #[trigger] derived_from(old(self).public_view(),
                    old(self).inferred_view(), old(self).groups_view()[c][k], p, c, true))) ==> r,
    {
        let mut any_change = false;
        let mut rounds: usize = 0;
        let ghost old_empty = forall|c: int| 0 <= c < 5 ==> (#[trigger] old(self).groups_view()[c]).len() == 0;
        let ghost old_single = forall|c: int, k: int| 0 <= c < 5 && 0 <= k < old(self).groups_view()[c].len()
            ==> count_flags(#[trigger] old(self).groups_view()[c][k].plist(), 7) <= 1;
        proof {
            assert forall|c: int| 0 <= c < 5 implies sub_list(#[trigger] self.groups_view()[c], old(self).groups_view()[c]) by {
                lemma_group_rows(self.group_constraints@, c);
            }
        }
        while rounds < SUBSET_ROUNDS
            invariant
                self.wf(),
                self.public_view() == old(self).public_view(),
                self.impossible_view() == old(self).impossible_view(),
                self.history_view() == old(self).history_view(),
                self.move_no_spec() == old(self).move_no_spec(),
                !any_change ==> self.inferred_view() == old(self).inferred_view(),
                !any_change ==> forall|c: int| 0 <= c < 5 ==> sub_list(#[trigger] self.groups_view()[c], old(self).groups_view()[c]),
                rounds == 0 ==> self.groups_view() == old(self).groups_view() && self.inferred_view() == old(self).inferred_view(),
                rounds == 0 ==> !any_change,
                old_empty == forall|c: int| 0 <= c < 5 ==> (#[trigger] old(self).groups_view()[c]).len() == 0,
                rounds > 0 ==> !old_empty,
                old_single == forall|c: int, k: int| 0 <= c < 5 && 0 <= k < old(self).groups_view()[c].len()
                    ==> count_flags(#[trigger] old(self).groups_view()[c][k].plist(), 7) <= 1,
                rounds > 0 ==> !old_single,
                rounds > 0 && (exists|c: int, k: int, p: int| 0 <= c < 5 && 0 <= k < old(self).groups_view()[c].len()
                    && derives(old(self).public_view(), old(self).inferred_view(), old(self).groups_view()[c][k], p, c, true)
                    && count_flags(old(self).groups_view()[c][k].plist(), 7) > 2
                    && !present_or_covered(old(self).groups_view()[c], #[trigger] derived_from(old(self).public_view(),
                        old(self).inferred_view(), old(self).groups_view()[c][k], p, c, true))) ==> any_change,
            decreases SUBSET_ROUNDS - rounds,
        {
            let ghost start = self.groups_view();
            let ghost first = rounds == 0;
            rounds += 1;
            let empty = all_lists_empty(&self.group_constraints);
            proof {
                if first && old_empty {
                    assert forall|c: int| 0 <= c < self.group_constraints@.len() implies (#[trigger] self.group_constraints@[c])@.len() == 0 by {
                        lemma_group_rows(self.group_constraints@, c);
                        assert(old(self).groups_view()[c].len() == 0);
                    }
                }
            }
            if empty {
                proof {
                    assert forall|c: int| 0 <= c < 5 implies (#[trigger] self.groups_view()[c]).len() == 0 by {
                        lemma_group_rows(self.group_constraints@, c);
                    }
                }
                return any_change;
            }
            proof {
                assert forall|c: int| 0 <= c < 5 implies (#[trigger] self.group_constraints@[c])@ == start[c] by {
                    lemma_group_rows(self.group_constraints@, c);
                }
            }
            let ghost gc = self.group_constraints@;
            let (new_groups, singles) = self.derive_subset_groups(&self.group_constraints, true);
            let ghost ng = new_groups@;
            let ghost sg = singles@;
            proof {
                if first && old_single {
                    assert(forall|c: int, k: int| 0 <= c < 5 && 0 <= k < gc[c]@.len()
                        ==> count_flags(#[trigger] gc[c]@[k].plist(), 7) <= 1);
                }
            }
            let mut card_changes: Vec<Vec<usize>> = empty_lists();
            let ghost cc0 = card_changes@;
            let ghost inf_pre = self.inferred_view();
            let ghost g_pre = self.groups_view();
            let inferred_changed = self.apply_single_groups(&singles, &mut card_changes);
            proof {
                if first && old_single {
                    assert(sg.len() == 0);
                    assert(card_changes@ == cc0);
                    assert(sg =~= Seq::<CompressedGroupConstraint>::empty());
                    assert(self.inferred_view() == inf_pre);
                }
            }
            self.remove_known_groups(&card_changes);
            let ghost removed = self.groups_view();
            proof {
                if first && old_single {
                    assert forall|c: int| 0 <= c < 5 implies #[trigger] removed[c] == g_pre[c] by {
                        assert(card_changes@[c]@.len() == 0);
                    }
                    assert(removed =~= g_pre);
                }
            }
            let groups_changed = self.push_groups_tracked(new_groups);
            proof {
                if first && old_single {
                    assert(forall|c: int| 0 <= c < 5 ==> (#[trigger] ng[c])@.len() == 0);
                    assert(!groups_changed);
                    assert(!inferred_changed);
                }
            }
            proof {
                if first && exists|c: int, k: int, p: int| 0 <= c < 5 && 0 <= k < old(self).groups_view()[c].len()
                    && derives(old(self).public_view(), old(self).inferred_view(), old(self).groups_view()[c][k], p, c, true)
                    && count_flags(old(self).groups_view()[c][k].plist(), 7) > 2
                    && !present_or_covered(old(self).groups_view()[c], #[trigger] derived_from(old(self).public_view(),
                        old(self).inferred_view(), old(self).groups_view()[c][k], p, c, true)) {
                    let (c, k, p) = choose|c: int, k: int, p: int| 0 <= c < 5 && 0 <= k < old(self).groups_view()[c].len()
                        && derives(old(self).public_view(), old(self).inferred_view(), old(self).groups_view()[c][k], p, c, true)
                        && count_flags(old(self).groups_view()[c][k].plist(), 7) > 2
                        && !present_or_covered(old(self).groups_view()[c], #[trigger] derived_from(old(self).public_view(),
                            old(self).inferred_view(), old(self).groups_view()[c][k], p, c, true));
                    let d = derived_from(old(self).public_view(), old(self).inferred_view(), old(self).groups_view()[c][k], p, c, true);
                    assert(gc[c]@ == old(self).groups_view()[c]);
                    assert(present_or_covered(ng[c]@, d));
                    if present_or_covered(removed[c], d) {
                        super::group_ops::lemma_sub_list_trans(removed[c], start[c], old(self).groups_view()[c]);
                        super::group_ops::lemma_covered_in_whole(removed[c], old(self).groups_view()[c], d);
                    }
                    super::group_ops::lemma_fresh_member(ng[c]@, removed[c], d);
                    let m = choose|m: int| 0 <= m < ng[c]@.len() && !present_or_covered(removed[c], #[trigger] ng[c]@[m]);
                    assert(!present_or_covered(removed[c], ng[c]@[m]));
                    assert(groups_changed);
                }
            }
            proof {
                if !any_change && !inferred_changed && !groups_changed {
                    assert forall|c: int| 0 <= c < 5 implies sub_list(#[trigger] self.groups_view()[c], old(self).groups_view()[c]) by {
                        super::group_ops::lemma_sub_list_trans(removed[c], start[c], old(self).groups_view()[c]);
                        super::group_ops::lemma_sub_list_trans(self.groups_view()[c], removed[c], old(self).groups_view()[c]);
                    }
                }
            }
            if !inferred_changed && !groups_changed {
                return any_change;
            }
            any_change = true;
        }
        any_change
    }

    /// One round of subset derivation in its second form (`derive_subset_groups`): known
    /// cards are recorded and redundant groups dropped; when anything was derived, goes on with
    /// `add_subset_groups_recurse` on the derived groups. Returns whether that went on and
    /// changed anything.
    pub fn add_subset_groups(&mut self) -> (r: bool)
        requires
            old(self).wf(),
        ensures
            final(self).wf(),
            final(self).public_view() == old(self).public_view(),
            final(self).impossible_view() == old(self).impossible_view(),
            final(self).history_view() == old(self).history_view(),
            final(self).move_no_spec() == old(self).move_no_spec(),
            !r ==> forall|c: int| 0 <= c < 5 ==> sub_list(#[trigger] final(self).groups_view()[c], old(self).groups_view()[c]),
            (forall|c: int| 0 <= c < 5 ==> (#[trigger] old(self).groups_view()[c]).len() == 0)
                ==> !r && *final(self) == *old(self),
            (forall|c: int, k: int| 0 <= c < 5 && 0 <= k < old(self).groups_view()[c].len()
                ==> count_flags(#[trigger] old(self).groups_view()[c][k].plist(), 7) <= 1)
                ==> !r && final(self).groups_view() == old(self).groups_view() && final(self).inferred_view() == old(self).inferred_view(),
            (exists|c: int, k: int, p: int| 0 <= c < 5 && 0 <= k < old(self).groups_view()[c].len()
                && derives(old(self).public_view(), old(self).inferred_view(), old(self).groups_view()[c][k], p, c, false)
                && count_flags(old(self).groups_view()[c][k].plist(), 7) > 2
                && !present_or_covered(old(self).groups_view()[c], #[trigger] derived_from(old(self).public_view(),
                    old(self).inferred_view(), old(self).groups_view()[c][k], p, c, false))) ==> r,
    {
        if all_lists_empty(&self.group_constraints) {
            proof {
                assert forall|c: int| 0 <= c < 5 implies sub_list(#[trigger] self.groups_view()[c], old(self).groups_view()[c]) by {
                    lemma_group_rows(self.group_constraints@, c);
                }
                assert forall|c: int| 0 <= c < 5 implies (#[trigger] old(self).groups_view()[c]).len() == 0 by {
                    lemma_group_rows(self.group_constraints@, c);
                }
            }
            return false;
        }
        proof {
            assert forall|c: int| 0 <= c < 5 implies (#[trigger] self.group_constraints@[c])@ == old(self).groups_view()[c] by {
                lemma_group_rows(self.group_constraints@, c);
            }
        }
        let (new_groups, singles) = self.derive_subset_groups(&self.group_constraints, false);
        let ghost ng = new_groups@;
        let ghost sg = singles@;
        let ghost old_single = forall|c: int, k: int| 0 <= c < 5 && 0 <= k < old(self).groups_view()[c].len()
            ==> count_flags(#[trigger] old(self).groups_view()[c][k].plist(), 7) <= 1;
        let mut card_changes: Vec<Vec<usize>> = empty_lists();
        let ghost cc0 = card_changes@;
        self.apply_single_groups(&singles, &mut card_changes);
        proof {
            if old_single {
                assert(sg.len() == 0);
                assert(card_changes@ == cc0);
                assert(sg =~= Seq::<CompressedGroupConstraint>::empty());
            }
        }
        self.remove_known_groups(&card_changes);
        let ghost mid = self.groups_view();
        proof {
            if old_single {
                assert forall|c: int| 0 <= c < 5 implies #[trigger] mid[c] == old(self).groups_view()[c] by {
                    assert(card_changes@[c]@.len() == 0);
                }
                assert(mid =~= old(self).groups_view());
                assert(forall|c: int| 0 <= c < 5 ==> (#[trigger] ng[c])@.len() == 0);
            }
        }
        proof {
            assert forall|c: int| 0 <= c < 5 implies sub_list(#[trigger] mid[c], old(self).groups_view()[c]) by {}
        }
        proof {
            if (exists|c: int, k: int, p: int| 0 <= c < 5 && 0 <= k < old(self).groups_view()[c].len()
                    && derives(old(self).public_view(), old(self).inferred_view(), old(self).groups_view()[c][k], p, c, false)
                    && count_flags(old(self).groups_view()[c][k].plist(), 7) > 2
                    && !present_or_covered(old(self).groups_view()[c], #[trigger] derived_from(old(self).public_view(),
                        old(self).inferred_view(), old(self).groups_view()[c][k], p, c, false))) {
                let (c, k, p) = choose|c: int, k: int, p: int| 0 <= c < 5 && 0 <= k < old(self).groups_view()[c].len()
                    && derives(old(self).public_view(), old(self).inferred_view(), old(self).groups_view()[c][k], p, c, false)
                    && count_flags(old(self).groups_view()[c][k].plist(), 7) > 2
                    && !present_or_covered(old(self).groups_view()[c], #[trigger] derived_from(old(self).public_view(),
                        old(self).inferred_view(), old(self).groups_view()[c][k], p, c, false));
                let d = derived_from(old(self).public_view(), old(self).inferred_view(), old(self).groups_view()[c][k], p, c, false);
                assert(present_or_covered(ng[c]@, d));
                if present_or_covered(mid[c], d) {
                    super::group_ops::lemma_covered_in_whole(mid[c], old(self).groups_view()[c], d);
                }
                super::group_ops::lemma_fresh_member(ng[c]@, mid[c], d);
                assert(ng[c]@.len() > 0);
            }
        }
        if !all_lists_empty(&new_groups) || !all_lists_empty(&card_changes) {
            let r = self.add_subset_groups_recurse(new_groups);
            proof {
                if !r {
                    assert forall|c: int| 0 <= c < 5 implies sub_list(#[trigger] self.groups_view()[c], old(self).groups_view()[c]) by {
                        super::group_ops::lemma_sub_list_trans(self.groups_view()[c], mid[c], old(self).groups_view()[c]);
                    }
                }
            }
            return r;
        }
        false
    }

    /// Adds the groups of `reference_group_constraints`, derives from them as
    /// `add_subset_groups` does, and repeats on what was derived while anything was (at most
    /// `SUBSET_ROUNDS` rounds). Returns true when a round derived anything, else whether the
    /// last added groups changed the lists.
    pub fn add_subset_groups_recurse(&mut self, reference_group_constraints: Vec<Vec<CompressedGroupConstraint>>) -> (r: bool)
        requires
            old(self).wf(),
            reference_group_constraints@.len() == 5,
        ensures
            final(self).wf(),
            final(self).public_view() == old(self).public_view(),
            final(self).impossible_view() == old(self).impossible_view(),
            final(self).history_view() == old(self).history_view(),
            final(self).move_no_spec() == old(self).move_no_spec(),
            (exists|c: int, k: int| 0 <= c < 5 && 0 <= k < reference_group_constraints@[c]@.len()
                && !present_or_covered(old(self).groups_view()[c], #[trigger] reference_group_constraints@[c]@[k])) ==> r,
            !r ==> forall|c: int| 0 <= c < 5 ==> sub_list(#[trigger] final(self).groups_view()[c], old(self).groups_view()[c]),
            (forall|c: int| 0 <= c < 5 ==> (#[trigger] reference_group_constraints@[c])@.len() == 0) ==> !r,
            (forall|c: int, k: int| 0 <= c < 5 && 0 <= k < reference_group_constraints@[c]@.len()
                ==> count_flags(reference_group_constraints@[c]@[k].plist(), 7) <= 1
                    && present_or_covered(old(self).groups_view()[c], #[trigger] reference_group_constraints@[c]@[k])) ==> !r,
    {
        let ghost ref0 = reference_group_constraints@;
        let mut reference = reference_group_constraints;
        let mut went_on = false;
        let mut rounds: usize = 0;
        while rounds < SUBSET_ROUNDS
            invariant
                self.wf(),
                reference@.len() == 5,
                self.public_view() == old(self).public_view(),
                self.impossible_view() == old(self).impossible_view(),
                self.history_view() == old(self).history_view(),
                self.move_no_spec() == old(self).move_no_spec(),
                ref0 == reference_group_constraints@,
                rounds == 0 ==> reference@ == ref0 && self.groups_view() == old(self).groups_view(),
                rounds > 0 ==> went_on,
                rounds == 0 ==> !went_on,
                rounds > 0 ==> !(forall|c: int| 0 <= c < 5 ==> (#[trigger] ref0[c])@.len() == 0),
                rounds > 0 ==> !(forall|c: int, k: int| 0 <= c < 5 && 0 <= k < ref0[c]@.len()
                    ==> count_flags(ref0[c]@[k].plist(), 7) <= 1
                        && present_or_covered(old(self).groups_view()[c], #[trigger] ref0[c]@[k])),
            decreases SUBSET_ROUNDS - rounds,
        {
            let ghost first = rounds == 0;
            let ghost mid = self.groups_view();
            rounds += 1;
            let (new_groups, singles) = self.derive_subset_groups(&reference, false);
            let ghost ng = new_groups@;
            let ghost ref_now = reference@;
            let changed = self.push_groups_tracked(reference);
            let ghost pushed = self.groups_view();
            proof {
                if first && exists|c: int, k: int| 0 <= c < 5 && 0 <= k < ref0[c]@.len()
                    && !present_or_covered(old(self).groups_view()[c], #[trigger] ref0[c]@[k]) {
                    let (c, k) = choose|c: int, k: int| 0 <= c < 5 && 0 <= k < ref0[c]@.len()
                        && !present_or_covered(old(self).groups_view()[c], #[trigger] ref0[c]@[k]);
                    assert(ref_now == ref0);
                    assert(!present_or_covered(mid[c], ref_now[c]@[k]));
                    assert(changed);
                }
            }
            let mut card_changes: Vec<Vec<usize>> = empty_lists();
            let ghost cc0 = card_changes@;
            self.apply_single_groups(&singles, &mut card_changes);
            self.remove_known_groups(&card_changes);
            let more = !all_lists_empty(&new_groups) || !all_lists_empty(&card_changes);
            proof {
                if first && forall|c: int, k: int| 0 <= c < 5 && 0 <= k < ref0[c]@.len()
                    ==> count_flags(ref0[c]@[k].plist(), 7) <= 1
                        && present_or_covered(old(self).groups_view()[c], #[trigger] ref0[c]@[k]) {
                    assert(ref_now == ref0);
                    assert(forall|c: int, k: int| 0 <= c < 5 && 0 <= k < ref_now[c]@.len()
                        ==> count_flags(#[trigger] ref_now[c]@[k].plist(), 7) <= 1);
                    assert(forall|c: int| 0 <= c < 5 ==> (#[trigger] ng[c])@.len() == 0);
                    assert(!changed);
                    assert(card_changes@ == cc0);
                    assert(!more);
                }
                if first && forall|c: int| 0 <= c < 5 ==> (#[trigger] ref0[c])@.len() == 0 {
                    assert(forall|c: int| 0 <= c < 5 ==> (#[trigger] ref_now[c])@.len() == 0);
                    assert(forall|c: int| 0 <= c < 5 ==> (#[trigger] ng[c])@.len() == 0);
                    assert(card_changes@ == cc0);
                    assert(!more);
                    assert(!changed);
                }
            }
            if more {
                went_on = true;
                reference = new_groups;
            } else {
                proof {
                    if !(went_on || changed) {
                        assert(first);
                        assert forall|c: int| 0 <= c < 5 implies sub_list(#[trigger] self.groups_view()[c], old(self).groups_view()[c]) by {
                            assert(sub_list(pushed[c], mid[c]));
                            assert(sub_list(self.groups_view()[c], pushed[c]));
                            super::group_ops::lemma_sub_list_trans(self.groups_view()[c], pushed[c], old(self).groups_view()[c]);
                        }
                    }
                }
                proof {
                    if exists|c: int, k: int| 0 <= c < 5 && 0 <= k < ref0[c]@.len()
                        && !present_or_covered(old(self).groups_view()[c], #[trigger] ref0[c]@[k]) {
                        if first { assert(changed); } else { assert(went_on); }
                    }
                }
                return went_on || changed;
            }
        }
        went_on
    }
}

/// `h` is the union of groups `a` and `b` (see `mutually_exclusive_union`).
pub open spec fn union_rel(h: CompressedGroupConstraint, a: CompressedGroupConstraint, b: CompressedGroupConstraint) -> bool {
    &&& forall|j: int| #[trigger] h.pflag(j) == (a.pflag(j) || b.pflag(j))
    &&& forall|j: int| #[trigger] h.sflag(j) == (a.sflag(j) || b.sflag(j))
    &&& h.card_spec() == a.card_spec()
    &&& h.alive_spec() == clamp3((a.alive_spec() + b.alive_spec()) as int)
    &&& h.dead_spec() == clamp3((a.dead_spec() + b.dead_spec()) as int)
    &&& h.total_spec() == clamp3((a.total_spec() + b.total_spec()) as int)
}

/// The union of groups `a` and `b`.
pub open spec fn union_of(a: CompressedGroupConstraint, b: CompressedGroupConstraint) -> CompressedGroupConstraint {
    choose|h: CompressedGroupConstraint| union_rel(h, a, b)
}

/// Every group that `before` keeps or makes redundant, `after` does too.
pub open spec fn keeps_covered(after: Seq<CompressedGroupConstraint>, before: Seq<CompressedGroupConstraint>) -> bool {
    forall|g: CompressedGroupConstraint| #[trigger] present_or_covered(before, g) ==> present_or_covered(after, g)
}

proof fn lemma_push_keeps_all(before: Seq<CompressedGroupConstraint>, after: Seq<CompressedGroupConstraint>,
    pushed: CompressedGroupConstraint)
    requires
        present_or_covered(after, pushed),
        forall|k: int| 0 <= k < before.len() && !after.contains(#[trigger] before[k]) ==> super::group_ops::covers(pushed, before[k]),
    ensures
        keeps_covered(after, before),
{
    assert forall|g: CompressedGroupConstraint| #[trigger] present_or_covered(before, g) implies present_or_covered(after, g) by {
        super::group_ops::lemma_push_keeps_covered(before, after, g, pushed);
    }
}

/// The union of `a` and `b` is what `mutually_exclusive_union` computes.
proof fn lemma_union_is(h: CompressedGroupConstraint, a: CompressedGroupConstraint, b: CompressedGroupConstraint)
    requires
        union_rel(h, a, b),
    ensures
        h == union_of(a, b),
{
    let u = union_of(a, b);
    assert(union_rel(u, a, b));
    assert forall|j: int| 0 <= j < 7 implies #[trigger] h.pflag(j) == u.pflag(j) by {}
    assert forall|j: int| 0 <= j < 7 implies #[trigger] h.sflag(j) == u.sflag(j) by {}
    crate::group::lemma_group_ext(h, u);
}

/// Every group among the first `n` of `list` and every stored group of `stored` with disjoint
/// participants have their union in `out` or made redundant there.
pub open spec fn stored_unions_in(out: Seq<CompressedGroupConstraint>, list: Seq<CompressedGroupConstraint>,
    stored: Seq<CompressedGroupConstraint>, n: int) -> bool
{
    forall|i: int, k: int| 0 <= i < n && 0 <= k < stored.len() && i < list.len()
        && disjoint_flags(list[i].plist(), stored[k].plist())
        ==> present_or_covered(out, #[trigger] union_of(list[i], stored[k]))
}

/// Every pair of groups of `list` with disjoint participants has its union in `out` or made
/// redundant there, for the first `n` groups of `list` as the first member.
pub open spec fn unions_in(out: Seq<CompressedGroupConstraint>, list: Seq<CompressedGroupConstraint>,
    others: Seq<CompressedGroupConstraint>, n: int) -> bool
{
    forall|i: int, j: int| 0 <= i < n && 0 <= j < others.len() && i < list.len()
        && disjoint_flags(list[i].plist(), others[j].plist())
        ==> present_or_covered(out, #[trigger] union_of(list[i], others[j]))
}

impl PathDependentCollectiveConstraint {
    /// The groups implied by each group of `reference`: its union with every group of the same
    /// card with disjoint participants (from `reference`, and from the stored lists when
    /// `with_stored`), and its extension by every non-participant known to hold or have lost
    /// copies of the card. Kept without redundancy, by card.
    pub(crate) fn derive_unions(&self, reference: &Vec<Vec<CompressedGroupConstraint>>, with_stored: bool)
        -> (r: Vec<Vec<CompressedGroupConstraint>>)
        requires
            self.wf(),
            reference@.len() == 5,
        ensures
            r@.len() == 5,
            forall|c: int| 0 <= c < 5 ==> #[trigger] unions_in(r@[c]@, reference@[c]@, reference@[c]@, reference@[c]@.len() as int),
            with_stored ==> forall|c: int| 0 <= c < 5 ==> #[trigger] stored_unions_in(r@[c]@, reference@[c]@,
                self.groups_view()[c], reference@[c]@.len() as int),
    {
        let mut new_groups: Vec<Vec<CompressedGroupConstraint>> = empty_lists();
        let mut c: usize = 0;
        while c < 5
            invariant
                self.wf(),
                c <= 5,
                reference@.len() == 5,
                new_groups@.len() == 5,
                forall|x: int| 0 <= x < c ==> #[trigger] unions_in(new_groups@[x]@, reference@[x]@, reference@[x]@, reference@[x]@.len() as int),
                with_stored ==> forall|x: int| 0 <= x < c ==> #[trigger] stored_unions_in(new_groups@[x]@, reference@[x]@,
                    self.groups_view()[x], reference@[x]@.len() as int),
            decreases 5 - c,
        {
            let ghost frame = new_groups@;
            proof { self.lemma_wf_rows(); }
            let card = Card::from_num(c);
            let list = &reference[c];
            let ghost gvc = self.groups_view()[c as int];
            let mut i: usize = 0;
            while i < list.len()
                invariant
                    self.wf(),
                    c < 5,
                    i <= list@.len(),
                    new_groups@.len() == 5,
                    list@ == reference@[c as int]@,
                    gvc == self.groups_view()[c as int],
                    frame.len() == 5,
                    forall|x: int| 0 <= x < 5 && x != c ==> #[trigger] new_groups@[x] == frame[x],
                    forall|x: int| 0 <= x < c ==> #[trigger] unions_in(frame[x]@, reference@[x]@, reference@[x]@, reference@[x]@.len() as int),
                    with_stored ==> forall|x: int| 0 <= x < c ==> #[trigger] stored_unions_in(frame[x]@, reference@[x]@,
                        self.groups_view()[x], reference@[x]@.len() as int),
                    unions_in(new_groups@[c as int]@, list@, list@, i as int),
                    with_stored ==> stored_unions_in(new_groups@[c as int]@, list@, gvc, i as int),
                decreases list@.len() - i,
            {
                let gi = list[i];
                if with_stored {
                    proof { lemma_group_rows(self.group_constraints@, c as int); }
                    let stored = &self.group_constraints[c];
                    let mut k: usize = 0;
                    while k < stored.len()
                        invariant
                            c < 5,
                            k <= stored@.len(),
                            new_groups@.len() == 5,
                            stored@ == gvc,
                            gi == list@[i as int],
                            i < list@.len(),
                            forall|x: int| 0 <= x < 5 && x != c ==> #[trigger] new_groups@[x] == frame[x],
                            unions_in(new_groups@[c as int]@, list@, list@, i as int),
                            stored_unions_in(new_groups@[c as int]@, list@, gvc, i as int),
                            forall|m: int| 0 <= m < k && disjoint_flags(gi.plist(), gvc[m].plist())
                                ==> present_or_covered(new_groups@[c as int]@, #[trigger] union_of(gi, gvc[m])),
                        decreases stored@.len() - k,
                    {
                        if stored[k].part_list_is_mut_excl(&gi) {
                            let ng = CompressedGroupConstraint::mutually_exclusive_union(gi, stored[k]);
                            let ghost before = new_groups@[c as int]@;
                            Self::non_redundant_push(&mut new_groups[c], ng);
                            proof {
                                lemma_union_is(ng, gi, stored@[k as int]);
                                lemma_push_keeps_all(before, new_groups@[c as int]@, ng);
                                assert(disjoint_flags(gi.plist(), gvc[k as int].plist()));
                            }
                        }
                        k += 1;
                    }
                    proof {
                        assert forall|a: int, m: int| 0 <= a < i + 1 && 0 <= m < gvc.len() && a < list@.len()
                            && disjoint_flags(list@[a].plist(), gvc[m].plist())
                            implies present_or_covered(new_groups@[c as int]@, #[trigger] union_of(list@[a], gvc[m])) by {
                            if a == i {
                                assert(disjoint_flags(gi.plist(), gvc[m].plist()));
                            }
                        }
                    }
                }
                let mut j: usize = 0;
                while j < list.len()
                    invariant
                        c < 5,
                        j <= list@.len(),
                        new_groups@.len() == 5,
                        gi == list@[i as int],
                        i < list@.len(),
                        forall|x: int| 0 <= x < 5 && x != c ==> #[trigger] new_groups@[x] == frame[x],
                        unions_in(new_groups@[c as int]@, list@, list@, i as int),
                        with_stored ==> stored_unions_in(new_groups@[c as int]@, list@, gvc, i as int + 1),
                        forall|m: int| 0 <= m < j && disjoint_flags(gi.plist(), list@[m].plist())
                            ==> present_or_covered(new_groups@[c as int]@, #[trigger] union_of(gi, list@[m])),
                    decreases list@.len() - j,
                {
                    if gi.part_list_is_mut_excl(&list[j]) {
                        let ng = CompressedGroupConstraint::mutually_exclusive_union(gi, list[j]);
                        let ghost before = new_groups@[c as int]@;
                        Self::non_redundant_push(&mut new_groups[c], ng);
                        proof {
                            lemma_union_is(ng, gi, list@[j as int]);
                            lemma_push_keeps_all(before, new_groups@[c as int]@, ng);
                        }
                    }
                    j += 1;
                }
                proof {
                    assert forall|a: int, m: int| 0 <= a < i + 1 && 0 <= m < list@.len() && a < list@.len()
                        && disjoint_flags(list@[a].plist(), list@[m].plist())
                        implies present_or_covered(new_groups@[c as int]@, #[trigger] union_of(list@[a], list@[m])) by {
                    }
                }
                let mut p: usize = 0;
                while p < 7
                    invariant
                        self.wf(),
                        c < 5,
                        p <= 7,
                        new_groups@.len() == 5,
                        i < list@.len(),
                        forall|x: int| 0 <= x < 5 && x != c ==> #[trigger] new_groups@[x] == frame[x],
                        unions_in(new_groups@[c as int]@, list@, list@, i as int + 1),
                        with_stored ==> stored_unions_in(new_groups@[c as int]@, list@, gvc, i as int + 1),
                    decreases 7 - p,
                {
                    if !gi.get_player_flag(p) {
                        proof { self.lemma_wf_rows(); }
                        let alive = count_in(&self.inferred_constraints[p], card);
                        let dead = count_in(&self.public_constraints[p], card);
                        proof {
                            crate::card::lemma_count_card_le_len(self.inferred_view()[p as int], card);
                            crate::card::lemma_count_card_le_len(self.public_view()[p as int], card);
                        }
                        if alive + dead > 0 {
                            let mut ng = gi;
                            ng.set_player_flag(p, true);
                            ng.add_alive_count(alive);
                            ng.add_dead_count(dead);
                            let total = ng.count_alive() + ng.count_dead();
                            ng.set_total_count(total);
                            let ghost before = new_groups@[c as int]@;
                            Self::non_redundant_push(&mut new_groups[c], ng);
                            proof { lemma_push_keeps_all(before, new_groups@[c as int]@, ng); }
                        }
                    }
                    p += 1;
                }
                i += 1;
            }
            proof {
                assert forall|x: int| 0 <= x < c + 1 implies #[trigger] unions_in(new_groups@[x]@, reference@[x]@, reference@[x]@,
                    reference@[x]@.len() as int) by {
                    if x < c { assert(new_groups@[x] == frame[x]); }
                }
                if with_stored {
                    assert forall|x: int| 0 <= x < c + 1 implies #[trigger] stored_unions_in(new_groups@[x]@, reference@[x]@,
                        self.groups_view()[x], reference@[x]@.len() as int) by {
                        if x < c { assert(new_groups@[x] == frame[x]); }
                    }
                }
            }
            c += 1;
        }
        new_groups
    }

    /// Derives the unions and extensions of the stored groups (`derive_unions`) and hands them
    /// to `add_mutually_exclusive_unions_recurse`. Returns whether groups were added.
    pub fn add_mutually_exclusive_unions(&mut self) -> (r: bool)
        requires
            old(self).wf(),
        ensures
            final(self).wf(),
            final(self).public_view() == old(self).public_view(),
            final(self).inferred_view() == old(self).inferred_view(),
            final(self).impossible_view() == old(self).impossible_view(),
            final(self).history_view() == old(self).history_view(),
            final(self).move_no_spec() == old(self).move_no_spec(),
            !r ==> forall|c: int| 0 <= c < 5 ==> sub_list(#[trigger] final(self).groups_view()[c], old(self).groups_view()[c]),
            forall|c: int, i: int, j: int| 0 <= c < 5 && 0 <= i < old(self).groups_view()[c].len()
                && 0 <= j < old(self).groups_view()[c].len()
                && disjoint_flags(old(self).groups_view()[c][i].plist(), old(self).groups_view()[c][j].plist())
                ==> present_or_covered(final(self).groups_view()[c],
                    #[trigger] union_of(old(self).groups_view()[c][i], old(self).groups_view()[c][j])),
    {
        if all_lists_empty(&self.group_constraints) {
            proof {
                assert forall|c: int| 0 <= c < 5 implies sub_list(#[trigger] self.groups_view()[c], old(self).groups_view()[c]) by {
                    lemma_group_rows(self.group_constraints@, c);
                }
                assert forall|c: int| 0 <= c < 5 implies (#[trigger] old(self).groups_view()[c]).len() == 0 by {
                    lemma_group_rows(self.group_constraints@, c);
                }
            }
            return false;
        }
        proof {
            assert forall|c: int| 0 <= c < 5 implies (#[trigger] self.group_constraints@[c])@ == old(self).groups_view()[c] by {
                lemma_group_rows(self.group_constraints@, c);
            }
        }
        let new_groups = self.derive_unions(&self.group_constraints, false);
        let ghost ng = new_groups@;
        let r = self.add_mutually_exclusive_unions_recurse(new_groups);
        proof {
            assert forall|c: int, i: int, j: int| 0 <= c < 5 && 0 <= i < old(self).groups_view()[c].len()
                && 0 <= j < old(self).groups_view()[c].len()
                && disjoint_flags(old(self).groups_view()[c][i].plist(), old(self).groups_view()[c][j].plist())
                implies present_or_covered(self.groups_view()[c],
                    #[trigger] union_of(old(self).groups_view()[c][i], old(self).groups_view()[c][j])) by {
                assert(unions_in(ng[c]@, old(self).groups_view()[c], old(self).groups_view()[c],
                    old(self).groups_view()[c].len() as int));
                super::group_ops::lemma_covered_through(ng[c]@, self.groups_view()[c],
                    union_of(old(self).groups_view()[c][i], old(self).groups_view()[c][j]));
            }
        }
        r
    }

    /// Repeatedly (at most `SUBSET_ROUNDS` rounds, and while there is anything left): derives
    /// from `reference_group_constraints` the unions with each other and with the stored
    /// groups and the extensions (`derive_unions`), adds the reference groups without
    /// redundancy, and goes on with what was derived. Returns whether any group was added.
    pub fn add_mutually_exclusive_unions_recurse(&mut self, reference_group_constraints: Vec<Vec<CompressedGroupConstraint>>) -> (r: bool)
        requires
            old(self).wf(),
            reference_group_constraints@.len() == 5,
        ensures
            final(self).wf(),
            final(self).public_view() == old(self).public_view(),
            final(self).inferred_view() == old(self).inferred_view(),
            final(self).impossible_view() == old(self).impossible_view(),
            final(self).history_view() == old(self).history_view(),
            final(self).move_no_spec() == old(self).move_no_spec(),
            forall|c: int, k: int| 0 <= c < 5 && 0 <= k < reference_group_constraints@[c]@.len()
                ==> present_or_covered(final(self).groups_view()[c], #[trigger] reference_group_constraints@[c]@[k]),
            (exists|c: int, k: int| 0 <= c < 5 && 0 <= k < reference_group_constraints@[c]@.len()
                && !present_or_covered(old(self).groups_view()[c], #[trigger] reference_group_constraints@[c]@[k])) ==> r,
            !r ==> forall|c: int| 0 <= c < 5 ==> sub_list(#[trigger] final(self).groups_view()[c], old(self).groups_view()[c]),
            (forall|c: int| 0 <= c < 5 ==> (#[trigger] reference_group_constraints@[c])@.len() == 0)
                ==> !r && final(self).groups_view() == old(self).groups_view(),
            r ==> exists|c: int, g: CompressedGroupConstraint| 0 <= c < 5 && !present_or_covered(old(self).groups_view()[c], g)
                && #[trigger] present_or_covered(final(self).groups_view()[c], g),
    {
        let ghost ref0 = reference_group_constraints@;
        let mut reference = reference_group_constraints;
        let mut changed = false;
        let mut rounds: usize = 0;
        while rounds < SUBSET_ROUNDS
            invariant
                self.wf(),
                reference@.len() == 5,
                self.public_view() == old(self).public_view(),
                self.inferred_view() == old(self).inferred_view(),
                self.impossible_view() == old(self).impossible_view(),
                self.history_view() == old(self).history_view(),
                self.move_no_spec() == old(self).move_no_spec(),
                ref0 == reference_group_constraints@,
                rounds == 0 ==> reference@ == ref0 && self.groups_view() == old(self).groups_view() && !changed,
                rounds > 0 ==> forall|c: int, k: int| 0 <= c < 5 && 0 <= k < ref0[c]@.len()
                    ==> present_or_covered(self.groups_view()[c], #[trigger] ref0[c]@[k]),
                rounds > 0 ==> ((exists|c: int, k: int| 0 <= c < 5 && 0 <= k < ref0[c]@.len()
                    && !present_or_covered(old(self).groups_view()[c], #[trigger] ref0[c]@[k])) ==> changed),
                !changed ==> forall|c: int| 0 <= c < 5 ==> sub_list(#[trigger] self.groups_view()[c], old(self).groups_view()[c]),
                rounds > 0 ==> !(forall|c: int| 0 <= c < 5 ==> (#[trigger] ref0[c])@.len() == 0),
                changed ==> exists|c: int, g: CompressedGroupConstraint| 0 <= c < 5 && !present_or_covered(old(self).groups_view()[c], g)
                    && #[trigger] present_or_covered(self.groups_view()[c], g),
                forall|c: int, g: CompressedGroupConstraint| 0 <= c < 5 && #[trigger] present_or_covered(old(self).groups_view()[c], g)
                    ==> present_or_covered(self.groups_view()[c], g),
            decreases SUBSET_ROUNDS - rounds,
        {
            let ghost first = rounds == 0;
            let ghost mid = self.groups_view();
            rounds += 1;
            let empty = all_lists_empty(&reference);
            proof {
                if first && forall|c: int| 0 <= c < 5 ==> (#[trigger] ref0[c])@.len() == 0 {
                    assert(empty);
                }
            }
            if empty {
                proof {
                    if first {
                        assert forall|c: int, k: int| 0 <= c < 5 && 0 <= k < ref0[c]@.len()
                            implies present_or_covered(self.groups_view()[c], #[trigger] ref0[c]@[k]) by {
                            assert(reference@[c]@.len() == 0);
                        }
                        assert(!exists|c: int, k: int| 0 <= c < 5 && 0 <= k < ref0[c]@.len()
                            && !present_or_covered(old(self).groups_view()[c], #[trigger] ref0[c]@[k])) by {
                            assert forall|c: int, k: int| 0 <= c < 5 && 0 <= k < ref0[c]@.len()
                                implies present_or_covered(old(self).groups_view()[c], #[trigger] ref0[c]@[k]) by {
                                assert(reference@[c]@.len() == 0);
                            }
                        }
                    }
                }
                return changed;
            }
            let new_groups = self.derive_unions(&reference, true);
            let ghost ref_now = reference@;
            let added = self.push_groups_tracked(reference);
            proof {
                if first {
                    assert(ref_now == ref0);
                    if exists|c: int, k: int| 0 <= c < 5 && 0 <= k < ref0[c]@.len()
                        && !present_or_covered(old(self).groups_view()[c], #[trigger] ref0[c]@[k]) {
                        let (c, k) = choose|c: int, k: int| 0 <= c < 5 && 0 <= k < ref0[c]@.len()
                            && !present_or_covered(old(self).groups_view()[c], #[trigger] ref0[c]@[k]);
                        assert(!present_or_covered(mid[c], ref_now[c]@[k]));
                        assert(added);
                    }
                } else {
                    assert forall|c: int, k: int| 0 <= c < 5 && 0 <= k < ref0[c]@.len()
                        implies present_or_covered(self.groups_view()[c], #[trigger] ref0[c]@[k]) by {
                        assert(present_or_covered(mid[c], ref0[c]@[k]));
                    }
                }
                if !added && !changed {
                    assert forall|c: int| 0 <= c < 5 implies sub_list(#[trigger] self.groups_view()[c], old(self).groups_view()[c]) by {
                        super::group_ops::lemma_sub_list_trans(self.groups_view()[c], mid[c], old(self).groups_view()[c]);
                    }
                }
                if changed {
                    let (c, g) = choose|c: int, g: CompressedGroupConstraint| 0 <= c < 5 && !present_or_covered(old(self).groups_view()[c], g)
                        && #[trigger] present_or_covered(mid[c], g);
                    assert(present_or_covered(self.groups_view()[c], g));
                } else if added {
                    let (c, k) = choose|c: int, k: int| 0 <= c < 5 && 0 <= k < ref_now[c]@.len()
                        && !present_or_covered(mid[c], #[trigger] ref_now[c]@[k]);
                    let g = ref_now[c]@[k];
                    assert(present_or_covered(self.groups_view()[c], g));
                }
                assert forall|c: int, g: CompressedGroupConstraint| 0 <= c < 5 && #[trigger] present_or_covered(old(self).groups_view()[c], g)
                    implies present_or_covered(self.groups_view()[c], g) by {
                    assert(present_or_covered(mid[c], g));
                }
            }
            changed = added || changed;
            reference = new_groups;
        }
        changed
    }
}

/// The participation flags of `g` without `player`.
pub open spec fn others_of(g: CompressedGroupConstraint, player: int) -> Seq<bool> {
    Seq::new(7, |j: int| j != player && g.pflag(j))
}

/// Copies of `card` known held by the participants of `g` among rows `0..n`, `player` left out.
pub open spec fn members_known(g: CompressedGroupConstraint, player: int, inferred: Seq<Seq<Card>>, card: Card, n: int) -> int
    decreases n,
{
    if n <= 0 {
        0
    } else {
        members_known(g, player, inferred, card, n - 1)
            + if n - 1 != player && g.pflag(n - 1) { count_card(inferred[n - 1], card) as int } else { 0int }
    }
}

/// Dead cards of the participants of `g` among rows `0..n`, `player` left out.
pub open spec fn members_dead(g: CompressedGroupConstraint, player: int, public: Seq<Seq<Card>>, n: int) -> int
    decreases n,
{
    if n <= 0 {
        0
    } else {
        members_dead(g, player, public, n - 1) + if n - 1 != player && g.pflag(n - 1) { public[n - 1].len() as int } else { 0int }
    }
}

/// The largest of `init` and the living counts of the groups of `s` whose participants are
/// among `flags`.
pub open spec fn list_max_within(s: Seq<CompressedGroupConstraint>, flags: Seq<bool>, init: int) -> int
    decreases s.len(),
{
    if s.len() == 0 {
        init
    } else {
        let m = list_max_within(s.drop_last(), flags, init);
        let h = s.last();
        if crate::group::subset_flags(h.plist(), flags) && h.alive_spec() > m { h.alive_spec() as int } else { m }
    }
}

/// For card number `x`: the most living copies shown among the participants of `g` but
/// `player` (none for `c` itself).
pub open spec fn shown_among(g: CompressedGroupConstraint, player: int, c: int, x: int, inferred: Seq<Seq<Card>>,
    groups: Seq<Seq<CompressedGroupConstraint>>) -> int
{
    if x == c {
        0
    } else {
        list_max_within(groups[x], others_of(g, player), members_known(g, player, inferred, card_at(x), 7))
    }
}

/// The slots of the participants of `g` but `player`, less their dead cards and the living
/// cards of other kinds shown among them.
pub open spec fn spaces_left(g: CompressedGroupConstraint, player: int, c: int, public: Seq<Seq<Card>>,
    inferred: Seq<Seq<Card>>, groups: Seq<Seq<CompressedGroupConstraint>>) -> int
{
    let flags = others_of(g, player);
    let slots = 2 * count_flags(flags, 6) + if flags[6] { 3int } else { 0int };
    slots - members_dead(g, player, public, 7)
        - (shown_among(g, player, c, 0, inferred, groups) + shown_among(g, player, c, 1, inferred, groups)
            + shown_among(g, player, c, 2, inferred, groups) + shown_among(g, player, c, 3, inferred, groups)
            + shown_among(g, player, c, 4, inferred, groups))
}

/// Copies of `card` known held by rows `0..n` other than `player`.
pub open spec fn known_outside(inferred: Seq<Seq<Card>>, card: Card, player: int, n: int) -> int
    decreases n,
{
    if n <= 0 {
        0
    } else {
        known_outside(inferred, card, player, n - 1)
            + if n - 1 == player { 0int } else { count_card(inferred[n - 1], card) as int }
    }
}

/// The largest of `init` and the living counts of the groups of `s` for card number `x`
/// that leave `player` out.
pub open spec fn list_max_outside(s: Seq<CompressedGroupConstraint>, player: int, x: int, init: int) -> int
    decreases s.len(),
{
    if s.len() == 0 {
        init
    } else {
        let m = list_max_outside(s.drop_last(), player, x, init);
        let g = s.last();
        if !g.pflag(player) && card_index(g.card_spec()) == x && g.alive_spec() > m { g.alive_spec() as int } else { m }
    }
}

/// `list_max_outside` over the lists `0..c` whose card still has copies in `remaining`.
pub open spec fn lists_max_outside(lists: Seq<Seq<CompressedGroupConstraint>>, remaining: Seq<u8>, player: int, x: int,
    c: int, init: int) -> int
    decreases c,
{
    if c <= 0 {
        init
    } else {
        let m = lists_max_outside(lists, remaining, player, x, c - 1, init);
        if remaining[c - 1] != 0 { list_max_outside(lists[c - 1], player, x, m) } else { m }
    }
}

/// The living copies of each card: three less the dead ones (in wrapping 8-bit arithmetic).
pub open spec fn remaining_seq(public: Seq<Seq<Card>>) -> Seq<u8> {
    Seq::new(5, |c: int| ((3 - table_count(public, card_at(c))) % 256) as u8)
}

/// For each card, the copies that can only be with `q` (see `remaining_for`).
pub open spec fn rem_of(s: PathDependentCollectiveConstraint, q: int) -> Seq<u8> {
    let remaining = remaining_seq(s.public_view());
    Seq::new(5, |x: int| ((remaining[x] as int - lists_max_outside(s.groups_view(), remaining, q, x, 5,
        known_outside(s.inferred_view(), card_at(x), q, 7))) % 256) as u8)
}

/// The sum of the five counts of `rem` (in wrapping 8-bit arithmetic).
pub open spec fn rem_total(rem: Seq<u8>) -> int {
    (rem[0] + rem[1] + rem[2] + rem[3] + rem[4]) % 256
}

/// `row` with copies of `card` pushed until it holds `target` of them, never past three cards.
pub open spec fn filled_row(row: Seq<Card>, card: Card, target: int) -> Seq<Card> {
    row + Seq::new(filled_copies(row, card, target), |i: int| card)
}

/// One card of the complement reasoning: two copies that can only be with the player are
/// known there (a lone known copy gets its twin); one copy is known there unless it is.
pub open spec fn complement_step(row: Seq<Card>, c: int, rc: u8) -> Seq<Card> {
    let card = card_at(c);
    if rc == 2 {
        if row.contains(card) {
            if row.len() == 1 { filled_row(row, card, 2) } else { row }
        } else {
            filled_row(row, card, count_card(row, card) as int + 2)
        }
    } else if rc == 1 {
        if !row.contains(card) { filled_row(row, card, 1) } else { row }
    } else {
        row
    }
}

/// `complement_step` over cards `0..n`.
pub open spec fn complement_fold(row: Seq<Card>, rem: Seq<u8>, n: int) -> Seq<Card>
    decreases n,
{
    if n <= 0 { row } else { complement_step(complement_fold(row, rem, n - 1), n - 1, rem[n - 1]) }
}

/// The known cards of `q` after the complement reasoning on `s`: when `q` has cards left
/// unknown and the copies that can only be with it fit its lives, they are known there.
pub open spec fn complement_row(s: PathDependentCollectiveConstraint, q: int) -> Seq<Card> {
    let rem = rem_of(s, q);
    if s.public_view()[q].len() + s.inferred_view()[q].len() < 2 && 2 - s.public_view()[q].len() >= rem_total(rem) {
        complement_fold(s.inferred_view()[q], rem, 5)
    } else {
        s.inferred_view()[q]
    }
}

/// How many copies of `card` are pushed to `row` to reach `target` of them, never past
/// three cards.
pub open spec fn filled_copies(row: Seq<Card>, card: Card, target: int) -> nat {
    let have = count_card(row, card) as int;
    if have >= target || row.len() >= 3 {
        0
    } else if target - have <= 3 - row.len() {
        (target - have) as nat
    } else {
        (3 - row.len()) as nat
    }
}

/// The reasoning of `add_inferred_except_player` applies to participant `p` of group `g`
/// (of card number `c`): `g` has more than two participants and more than one living copy,
/// `p` has cards left unknown, and the living copies exceed the spaces the other participants
/// have for them (`spaces_left`, in wrapping 8-bit arithmetic) by more than `p` is known to
/// hold.
pub open spec fn except_applies(public: Seq<Seq<Card>>, inferred: Seq<Seq<Card>>,
    groups: Seq<Seq<CompressedGroupConstraint>>, c: int, g: CompressedGroupConstraint, p: int) -> bool
{
    let alive = g.alive_spec() as int;
    let free = spaces_left(g, p, c, public, inferred, groups) % 256;
    &&& count_flags(g.plist(), 7) > 2
    &&& alive > 1
    &&& g.pflag(p)
    &&& public[p].len() + inferred[p].len() < 2
    &&& alive > free
    &&& alive - free > count_card(inferred[p], card_at(c)) as int
}

/// Every row of known cards of `before` is kept, in order, at the front of the same row of
/// `after`: no known card is forgotten.
pub open spec fn known_kept(after: Seq<Seq<Card>>, before: Seq<Seq<Card>>) -> bool {
    forall|q: int| 0 <= q < 7 ==> (#[trigger] before[q]).is_prefix_of(after[q])
}

/// Some row of known cards of `after` is longer than in `before`.
pub open spec fn some_row_grew(after: Seq<Seq<Card>>, before: Seq<Seq<Card>>) -> bool {
    exists|q: int| 0 <= q < 7 && #[trigger] after[q].len() > before[q].len()
}

proof fn lemma_grew_step(new: Seq<Seq<Card>>, mid: Seq<Seq<Card>>, old: Seq<Seq<Card>>, p: int, pushed: bool, changed: bool)
    requires
        0 <= p < 7,
        known_kept(mid, old),
        known_kept(new, mid),
        changed ==> some_row_grew(mid, old),
        pushed ==> new[p].len() > mid[p].len(),
    ensures
        (pushed || changed) ==> some_row_grew(new, old),
{
    if pushed {
        assert(old[p].is_prefix_of(mid[p]));
        assert(new[p].len() > old[p].len());
    } else if changed {
        let q = choose|q: int| 0 <= q < 7 && #[trigger] mid[q].len() > old[q].len();
        assert(mid[q].is_prefix_of(new[q]));
        assert(new[q].len() > old[q].len());
    }
}

/// Keeping known cards composes.
proof fn lemma_known_kept_trans(c: Seq<Seq<Card>>, b: Seq<Seq<Card>>, a: Seq<Seq<Card>>)
    requires
        known_kept(b, a),
        known_kept(c, b),
    ensures
        known_kept(c, a),
{
    assert forall|q: int| 0 <= q < 7 implies (#[trigger] a[q]).is_prefix_of(c[q]) by {
        assert(a[q].is_prefix_of(b[q]));
        assert(b[q].is_prefix_of(c[q]));
        assert forall|i: int| 0 <= i < a[q].len() implies a[q][i] == c[q][i] by {
            assert(a[q][i] == b[q].subrange(0, a[q].len() as int)[i]);
            assert(b[q][i] == c[q].subrange(0, b[q].len() as int)[i]);
        }
        assert(a[q] =~= c[q].subrange(0, a[q].len() as int));
    }
}

impl PathDependentCollectiveConstraint {
    /// Pushes copies of `card` to the known cards of `player` until it holds `target` of them,
    /// never past three cards; says whether any was pushed.
    pub(crate) fn fill_known_copies(&mut self, player: usize, card: Card, target: u8) -> (r: bool)
        requires
            old(self).wf(),
            player < 7,
        ensures
            final(self).wf(),
            final(self).public_view() == old(self).public_view(),
            final(self).groups_view() == old(self).groups_view(),
            final(self).impossible_view() == old(self).impossible_view(),
            final(self).history_view() == old(self).history_view(),
            final(self).move_no_spec() == old(self).move_no_spec(),
            forall|q: int| 0 <= q < 7 && q != player ==> #[trigger] final(self).inferred_view()[q] == old(self).inferred_view()[q],
            !r ==> final(self).inferred_view() == old(self).inferred_view(),
            old(self).inferred_view()[player as int].is_prefix_of(final(self).inferred_view()[player as int]),
            final(self).inferred_view()[player as int] == old(self).inferred_view()[player as int]
                + Seq::new(filled_copies(old(self).inferred_view()[player as int], card, target as int), |i: int| card),
            r == (filled_copies(old(self).inferred_view()[player as int], card, target as int) > 0),
    {
        let mut pushed = false;
        let ghost row0 = self.inferred_view()[player as int];
        let ghost mut k: nat = 0;
        proof {
            self.lemma_wf_rows();
            crate::card::lemma_count_card_le_len(row0, card);
        }
        loop
            invariant
                self.wf(),
                player < 7,
                row0 == old(self).inferred_view()[player as int],
                self.public_view() == old(self).public_view(),
                self.groups_view() == old(self).groups_view(),
                self.impossible_view() == old(self).impossible_view(),
                self.history_view() == old(self).history_view(),
                self.move_no_spec() == old(self).move_no_spec(),
                forall|q: int| 0 <= q < 7 && q != player ==> #[trigger] self.inferred_view()[q] == old(self).inferred_view()[q],
                !pushed ==> self.inferred_view() == old(self).inferred_view(),
                pushed == (k > 0),
                old(self).inferred_view()[player as int].is_prefix_of(self.inferred_view()[player as int]),
                self.inferred_view()[player as int] == row0 + Seq::new(k, |i: int| card),
                count_card(self.inferred_view()[player as int], card) == count_card(row0, card) + k,
                count_card(row0, card) + k <= target || k == 0,
                row0.len() + k <= 3,
                count_card(row0, card) <= row0.len(),
                k <= filled_copies(row0, card, target as int),
            ensures
                count_card(row0, card) + k >= target || row0.len() + k >= 3,
                self.inferred_view()[player as int] == row0 + Seq::new(k, |i: int| card),
                pushed == (k > 0),
                k <= filled_copies(row0, card, target as int),
            decreases 3 - self.inferred_view()[player as int].len(),
        {
            proof { self.lemma_wf_rows(); }
            let known = count_in(&self.inferred_constraints[player], card);
            if known >= target || self.inferred_constraints[player].len() >= 3 {
                break;
            }
            let ghost inf0 = self.inferred_view();
            self.inferred_constraints[player].push(card);
            pushed = true;
            proof {
                assert(self.inferred_view() =~= inf0.update(player as int, inf0[player as int].push(card)));
                crate::card::lemma_count_card_push(inf0[player as int], card, card);
                assert(row0 + Seq::new(k + 1, |i: int| card) =~= (row0 + Seq::new(k, |i: int| card)).push(card));
                k = k + 1;
            }
        }
        pushed
    }

    /// The spaces left for the copies of card number `c` among the participants of `g` but
    /// `player`: their slots minus their dead cards and minus the most living cards of other
    /// kinds they can be shown to hold (`spaces_left`, computed in wrapping 8-bit arithmetic).
    #[verifier::rlimit(100)]
    #[verifier::spinoff_prover]
    fn free_spaces_without(&self, g: &CompressedGroupConstraint, player: usize, c: usize) -> (r: u8)
        requires
            self.wf(),
            player < 7,
            c < 5,
        ensures
            r as int == spaces_left(*g, player as int, c as int, self.public_view(), self.inferred_view(),
                self.groups_view()) % 256,
    {
        proof { self.lemma_wf_rows(); }
        let mut excl = g.get_blank_part_list();
        excl.set_player_flag(player, false);
        let ghost flags = others_of(*g, player as int);
        assert(excl.plist() =~= flags);
        let mut maximal: [u8; 5] = [0; 5];
        let mut m: usize = 0;
        while m < 7
            invariant
                self.wf(),
                m <= 7,
                player < 7,
                c < 5,
                forall|j: int| #[trigger] excl.pflag(j) == (j != player && g.pflag(j)),
                forall|k: int| 0 <= k < 5 ==> #[trigger] maximal@[k] <= 3 * m,
                forall|x: int| 0 <= x < 5 ==> #[trigger] maximal@[x] == if x == c { 0int } else {
                    members_known(*g, player as int, self.inferred_view(), card_at(x), m as int) },
            decreases 7 - m,
        {
            proof { self.lemma_wf_rows(); }
            if excl.get_player_flag(m) {
                let row = &self.inferred_constraints[m];
                let ghost mx0 = maximal;
                let mut k: usize = 0;
                while k < row.len()
                    invariant
                        k <= row@.len(),
                        row@.len() <= 3,
                        m < 7,
                        c < 5,
                        forall|x: int| 0 <= x < 5 ==> #[trigger] maximal@[x] <= 3 * m + k,
                        forall|x: int| 0 <= x < 5 ==> #[trigger] maximal@[x] == mx0@[x]
                            + if x == c { 0int } else { count_card(row@.take(k as int), card_at(x)) as int },
                    decreases row@.len() - k,
                {
                    let n = row[k].num();
                    let ghost s1 = maximal;
                    if n != c {
                        maximal[n] = maximal[n] + 1;
                    }
                    proof {
                        crate::card::lemma_card_index_roundtrip(row@[k as int]);
                        assert(row@.take(k as int + 1).drop_last() =~= row@.take(k as int));
                        assert forall|x: int| 0 <= x < 5 implies #[trigger] maximal@[x] == mx0@[x]
                            + if x == c { 0int } else { count_card(row@.take(k as int + 1), card_at(x)) as int } by {
                            if x != n && row@[k as int] == card_at(x) {
                                crate::card::lemma_card_index_roundtrip(card_at(x));
                            }
                        }
                    }
                    k += 1;
                }
                proof {
                    assert(row@.take(k as int) =~= row@);
                    assert(row@ == self.inferred_view()[m as int]);
                }
            }
            m += 1;
        }
        let ghost base = maximal;
        let mut ci: usize = 0;
        while ci < 5
            invariant
                self.wf(),
                ci <= 5,
                c < 5,
                player < 7,
                forall|j: int| #[trigger] excl.pflag(j) == (j != player && g.pflag(j)),
                excl.plist() == flags,
                forall|k: int| 0 <= k < 5 ==> #[trigger] maximal@[k] <= 21,
                forall|k: int| 0 <= k < 5 ==> #[trigger] base@[k] <= 21,
                forall|x: int| 0 <= x < 5 ==> #[trigger] maximal@[x] == if x < ci && x != c {
                    list_max_within(self.groups_view()[x], flags, base@[x] as int) } else { base@[x] as int },
            decreases 5 - ci,
        {
            proof { lemma_group_rows(self.group_constraints@, ci as int); }
            if ci != c {
                let list = &self.group_constraints[ci];
                let mut j: usize = 0;
                while j < list.len()
                    invariant
                        j <= list@.len(),
                        ci < 5,
                        ci != c,
                        excl.plist() == flags,
                        forall|k: int| 0 <= k < 5 ==> #[trigger] maximal@[k] <= 21,
                        forall|x: int| 0 <= x < 5 && x != ci ==> #[trigger] maximal@[x] == if x < ci && x != c {
                            list_max_within(self.groups_view()[x], flags, base@[x] as int) } else { base@[x] as int },
                        maximal@[ci as int] == list_max_within(list@.take(j as int), flags, base@[ci as int] as int),
                        forall|k: int| 0 <= k < 5 ==> #[trigger] base@[k] <= 21,
                    decreases list@.len() - j,
                {
                    if list[j].part_list_is_subset_of(&excl) {
                        let a = list[j].count_alive();
                        if a > maximal[ci] {
                            maximal[ci] = a;
                        }
                    }
                    proof { assert(list@.take(j as int + 1).drop_last() =~= list@.take(j as int)); }
                    j += 1;
                }
                proof { assert(list@.take(j as int) =~= list@); }
            }
            ci += 1;
        }
        let mut dead_sum: u8 = 0;
        let mut i: usize = 0;
        while i < 7
            invariant
                self.wf(),
                i <= 7,
                player < 7,
                dead_sum <= 2 * i,
                dead_sum == members_dead(*g, player as int, self.public_view(), i as int),
            decreases 7 - i,
        {
            proof { self.lemma_wf_rows(); }
            if g.get_player_flag(i) && i != player {
                dead_sum = dead_sum + self.public_constraints[i].len() as u8;
            }
            i += 1;
        }
        let alive_sum: u8 = maximal[0] + maximal[1] + maximal[2] + maximal[3] + maximal[4];
        let spaces = excl.max_spaces();
        proof {
            assert forall|x: int| 0 <= x < 5 implies #[trigger] maximal@[x] as int
                == shown_among(*g, player as int, c as int, x, self.inferred_view(), self.groups_view()) by {}
            assert(spaces == 2 * count_flags(flags, 6) + if flags[6] { 3int } else { 0int });
        }
        spaces.wrapping_sub(dead_sum).wrapping_sub(alive_sum)
    }

    /// Players (and the pile) whose two (three) cards are not all known yet, in order.
    fn open_players(&self) -> (r: Vec<usize>)
        requires
            self.wf(),
        ensures
            forall|k: int| 0 <= k < r@.len() ==> #[trigger] r@[k] < 7,
            r@.len() <= 7,
            forall|k: int| 0 <= k < r@.len() ==> self.public_view()[#[trigger] r@[k] as int].len()
                + self.inferred_view()[r@[k] as int].len() < 2,
            forall|q: int| 0 <= q < 7 && self.public_view()[q].len() + self.inferred_view()[q].len() < 2
                ==> r@.contains(q as usize),
            forall|a: int, b: int| 0 <= a < b < r@.len() ==> r@[a] < r@[b],
    {
        let mut players: Vec<usize> = Vec::new();
        let mut i: usize = 0;
        while i < 7
            invariant
                self.wf(),
                i <= 7,
                players@.len() <= i,
                forall|k: int| 0 <= k < players@.len() ==> #[trigger] players@[k] < i,
                forall|k: int| 0 <= k < players@.len() ==> self.public_view()[#[trigger] players@[k] as int].len()
                    + self.inferred_view()[players@[k] as int].len() < 2,
                forall|q: int| 0 <= q < i && self.public_view()[q].len() + self.inferred_view()[q].len() < 2
                    ==> players@.contains(q as usize),
                forall|a: int, b: int| 0 <= a < b < players@.len() ==> players@[a] < players@[b],
            decreases 7 - i,
        {
            proof { self.lemma_wf_rows(); }
            if self.public_constraints[i].len() + self.inferred_constraints[i].len() < 2 {
                let ghost p0 = players@;
                players.push(i);
                proof {
                    assert forall|q: int| 0 <= q < i + 1 && self.public_view()[q].len() + self.inferred_view()[q].len() < 2
                        implies players@.contains(q as usize) by {
                        if q < i {
                            let k = choose|k: int| 0 <= k < p0.len() && p0[k] == q as usize;
                            assert(players@[k] == q as usize);
                        } else {
                            assert(players@[p0.len() as int] == q as usize);
                        }
                    }
                }
            }
            i += 1;
        }
        players
    }

    /// For every group of more than two participants and more than one living copy, and each
    /// participant whose cards are not all known: when the other participants cannot hold all
    /// the living copies (`free_spaces_without`), that participant holds the rest, and the
    /// missing copies join its known cards (never past three cards); a participant whose cards
    /// are then all known is not considered again. Returns whether any known card was added.
    pub fn add_inferred_except_player(&mut self) -> (r: bool)
        requires
            old(self).wf(),
        ensures
            final(self).wf(),
            final(self).public_view() == old(self).public_view(),
            final(self).groups_view() == old(self).groups_view(),
            final(self).impossible_view() == old(self).impossible_view(),
            final(self).history_view() == old(self).history_view(),
            final(self).move_no_spec() == old(self).move_no_spec(),
            !r ==> final(self).inferred_view() == old(self).inferred_view(),
            known_kept(final(self).inferred_view(), old(self).inferred_view()),
            r == (final(self).inferred_view() != old(self).inferred_view()),
            !r ==> forall|c: int, k: int, p: int| 0 <= c < 5 && 0 <= k < old(self).groups_view()[c].len() && 0 <= p < 7
                ==> !#[trigger] except_applies(old(self).public_view(), old(self).inferred_view(), old(self).groups_view(),
                    c, old(self).groups_view()[c][k], p),
            forall|q: int| 0 <= q < 7 && old(self).public_view()[q].len() + old(self).inferred_view()[q].len() >= 2
                ==> #[trigger] final(self).inferred_view()[q] == old(self).inferred_view()[q],
    {
        let mut players = self.open_players();
        let ghost pl0 = players@;
        let mut changed = false;
        let mut c: usize = 0;
        while c < 5
            invariant
                self.wf(),
                c <= 5,
                players@.len() <= 7,
                forall|k: int| 0 <= k < players@.len() ==> #[trigger] players@[k] < 7,
                forall|k: int| 0 <= k < players@.len() ==> pl0.contains(#[trigger] players@[k]),
                forall|q: int| 0 <= q < 7 && !pl0.contains(q as usize) ==> #[trigger] self.inferred_view()[q] == old(self).inferred_view()[q],
                self.public_view() == old(self).public_view(),
                self.groups_view() == old(self).groups_view(),
                self.impossible_view() == old(self).impossible_view(),
                self.history_view() == old(self).history_view(),
                self.move_no_spec() == old(self).move_no_spec(),
                !changed ==> self.inferred_view() == old(self).inferred_view(),
                known_kept(self.inferred_view(), old(self).inferred_view()),
                changed ==> some_row_grew(self.inferred_view(), old(self).inferred_view()),
                !changed ==> players@ == pl0,
                forall|q: int| 0 <= q < 7 && old(self).public_view()[q].len() + old(self).inferred_view()[q].len() < 2
                    ==> pl0.contains(q as usize),
                forall|k: int| 0 <= k < pl0.len() ==> old(self).public_view()[#[trigger] pl0[k] as int].len()
                    + old(self).inferred_view()[pl0[k] as int].len() < 2,
                !changed ==> forall|cc: int, k: int, p: int| 0 <= cc < c && 0 <= k < old(self).groups_view()[cc].len() && 0 <= p < 7
                    ==> !#[trigger] except_applies(old(self).public_view(), old(self).inferred_view(), old(self).groups_view(),
                        cc, old(self).groups_view()[cc][k], p),
            decreases 5 - c,
        {
            let card = Card::from_num(c);
            proof { lemma_group_rows(self.group_constraints@, c as int); }
            let list = copy_groups(&self.group_constraints[c]);
            let mut gi: usize = 0;
            while gi < list.len()
                invariant
                    self.wf(),
                    c < 5,
                    gi <= list@.len(),
                    players@.len() <= 7,
                    card == card_at(c as int),
                    forall|k: int| 0 <= k < players@.len() ==> #[trigger] players@[k] < 7,
                    forall|k: int| 0 <= k < players@.len() ==> pl0.contains(#[trigger] players@[k]),
                    forall|q: int| 0 <= q < 7 && !pl0.contains(q as usize) ==> #[trigger] self.inferred_view()[q] == old(self).inferred_view()[q],
                    self.public_view() == old(self).public_view(),
                    self.groups_view() == old(self).groups_view(),
                    self.impossible_view() == old(self).impossible_view(),
                    self.history_view() == old(self).history_view(),
                    self.move_no_spec() == old(self).move_no_spec(),
                    !changed ==> self.inferred_view() == old(self).inferred_view(),
                    known_kept(self.inferred_view(), old(self).inferred_view()),
                    changed ==> some_row_grew(self.inferred_view(), old(self).inferred_view()),
                    list@ == old(self).groups_view()[c as int],
                    !changed ==> players@ == pl0,
                    forall|q: int| 0 <= q < 7 && old(self).public_view()[q].len() + old(self).inferred_view()[q].len() < 2
                        ==> pl0.contains(q as usize),
                    forall|k: int| 0 <= k < pl0.len() ==> old(self).public_view()[#[trigger] pl0[k] as int].len()
                        + old(self).inferred_view()[pl0[k] as int].len() < 2,
                    !changed ==> forall|cc: int, k: int, p: int| 0 <= cc < c && 0 <= k < old(self).groups_view()[cc].len() && 0 <= p < 7
                        ==> !#[trigger] except_applies(old(self).public_view(), old(self).inferred_view(), old(self).groups_view(),
                            cc, old(self).groups_view()[cc][k], p),
                    !changed ==> forall|k: int, p: int| 0 <= k < gi && 0 <= p < 7
                        ==> !#[trigger] except_applies(old(self).public_view(), old(self).inferred_view(), old(self).groups_view(),
                            c as int, list@[k], p),
                decreases list@.len() - gi,
            {
                let g = list[gi];
                let alive = g.count_alive();
                if g.part_list_count() > 2 && alive > 1 {
                    let mut idx: usize = 0;
                    while idx < players.len()
                        invariant
                            self.wf(),
                            c < 5,
                            card == card_at(c as int),
                            idx <= 7,
                            players@.len() <= 7,
                            forall|k: int| 0 <= k < players@.len() ==> #[trigger] players@[k] < 7,
                            forall|k: int| 0 <= k < players@.len() ==> pl0.contains(#[trigger] players@[k]),
                            forall|q: int| 0 <= q < 7 && !pl0.contains(q as usize) ==> #[trigger] self.inferred_view()[q] == old(self).inferred_view()[q],
                            self.public_view() == old(self).public_view(),
                            self.groups_view() == old(self).groups_view(),
                            self.impossible_view() == old(self).impossible_view(),
                            self.history_view() == old(self).history_view(),
                            self.move_no_spec() == old(self).move_no_spec(),
                            !changed ==> self.inferred_view() == old(self).inferred_view(),
                            known_kept(self.inferred_view(), old(self).inferred_view()),
                            changed ==> some_row_grew(self.inferred_view(), old(self).inferred_view()),
                            gi < list@.len(),
                            g == list@[gi as int],
                            alive == g.alive_spec(),
                            !changed ==> players@ == pl0,
                            !changed ==> forall|m: int| 0 <= m < idx && m < players@.len()
                                ==> !#[trigger] except_applies(old(self).public_view(), old(self).inferred_view(), old(self).groups_view(),
                                    c as int, g, players@[m] as int),
                            forall|k: int| 0 <= k < pl0.len() ==> old(self).public_view()[#[trigger] pl0[k] as int].len()
                                + old(self).inferred_view()[pl0[k] as int].len() < 2,
                            forall|q: int| 0 <= q < 7 && old(self).public_view()[q].len() + old(self).inferred_view()[q].len() < 2
                                ==> pl0.contains(q as usize),
                            list@ == old(self).groups_view()[c as int],
                            !changed ==> forall|cc: int, k: int, p: int| 0 <= cc < c && 0 <= k < old(self).groups_view()[cc].len() && 0 <= p < 7
                                ==> !#[trigger] except_applies(old(self).public_view(), old(self).inferred_view(), old(self).groups_view(),
                                    cc, old(self).groups_view()[cc][k], p),
                            !changed ==> forall|k: int, p: int| 0 <= k < gi && 0 <= p < 7
                                ==> !#[trigger] except_applies(old(self).public_view(), old(self).inferred_view(), old(self).groups_view(),
                                    c as int, list@[k], p),
                        decreases 7 - idx,
                    {
                        let player = players[idx];
                        let ghost changed_before = changed;
                        if g.get_player_flag(player) {
                            let free = self.free_spaces_without(&g, player, c);
                            if alive > free {
                                let needed = alive - free;
                                proof { self.lemma_wf_rows(); }
                                let known = count_in(&self.inferred_constraints[player], card);
                                if needed > known {
                                    let ghost inf_before = self.inferred_view();
                                    proof {
                                        if !changed {
                                            assert(old(self).public_view()[pl0[idx as int] as int].len()
                                                + old(self).inferred_view()[pl0[idx as int] as int].len() < 2);
                                        }
                                    }
                                    let pushed = self.fill_known_copies(player, card, needed);
                                    proof {
                                        if !changed {
                                            assert(pushed);
                                        }
                                    }
                                    proof {
                                        assert(known_kept(self.inferred_view(), inf_before)) by {
                                            assert forall|q: int| 0 <= q < 7 implies (#[trigger] inf_before[q]).is_prefix_of(self.inferred_view()[q]) by {
                                                if q != player { assert(inf_before[q] =~= self.inferred_view()[q].subrange(0, inf_before[q].len() as int)); }
                                            }
                                        }
                                        lemma_known_kept_trans(self.inferred_view(), inf_before, old(self).inferred_view());
                                        lemma_grew_step(self.inferred_view(), inf_before, old(self).inferred_view(), player as int, pushed, changed);
                                    }
                                    changed = pushed || changed;
                                    proof { self.lemma_wf_rows(); }
                                    let full = if player < 6 {
                                        self.public_constraints[player].len() + self.inferred_constraints[player].len() == 2
                                    } else {
                                        self.inferred_constraints[player].len() == 3
                                    };
                                    if full {
                                        let mut pos: usize = 0;
                                        while pos < players.len() && players[pos] != player
                                            invariant
                                                pos <= players@.len(),
                                            decreases players@.len() - pos,
                                        {
                                            pos += 1;
                                        }
                                        if pos < players.len() {
                                            let ghost pl_prev = players@;
                                            players.swap_remove(pos);
                                            proof {
                                                assert forall|k: int| 0 <= k < players@.len() implies #[trigger] players@[k] < 7
                                                    && pl0.contains(players@[k]) by {
                                                    if k == pos { assert(players@[k] == pl_prev[pl_prev.len() - 1]); }
                                                    else { assert(players@[k] == pl_prev[k]); }
                                                }
                                            }
                                        }
                                    }
                                }
                            }
                        }
                        proof {
                            if !changed {
                                assert(!changed_before);
                                assert(players@ == pl0);
                                assert(!except_applies(old(self).public_view(), old(self).inferred_view(), old(self).groups_view(),
                                    c as int, g, player as int));
                            }
                        }
                        idx += 1;
                    }
                    proof {
                        if !changed {
                            assert forall|p: int| 0 <= p < 7 implies !#[trigger] except_applies(old(self).public_view(),
                                old(self).inferred_view(), old(self).groups_view(), c as int, list@[gi as int], p) by {
                                if old(self).public_view()[p].len() + old(self).inferred_view()[p].len() < 2 {
                                    assert(pl0.contains(p as usize));
                                    let m = choose|m: int| 0 <= m < pl0.len() && pl0[m] == p as usize;
                                    assert(!except_applies(old(self).public_view(), old(self).inferred_view(), old(self).groups_view(),
                                        c as int, g, players@[m] as int));
                                }
                            }
                        }
                    }
                }
                proof {
                    if !changed {
                        assert forall|k: int, p: int| 0 <= k < gi + 1 && 0 <= p < 7 implies !#[trigger] except_applies(
                            old(self).public_view(), old(self).inferred_view(), old(self).groups_view(), c as int, list@[k], p) by {
                            if k == gi && !(count_flags(g.plist(), 7) > 2 && alive > 1) {
                                assert(!except_applies(old(self).public_view(), old(self).inferred_view(), old(self).groups_view(),
                                    c as int, g, p));
                            }
                        }
                    }
                }
                gi += 1;
            }
            c += 1;
        }
        proof {
            assert forall|q: int| 0 <= q < 7 && old(self).public_view()[q].len() + old(self).inferred_view()[q].len() >= 2
                implies #[trigger] self.inferred_view()[q] == old(self).inferred_view()[q] by {
                if pl0.contains(q as usize) {
                    let m = choose|m: int| 0 <= m < pl0.len() && pl0[m] == q as usize;
                    assert(old(self).public_view()[pl0[m] as int].len() + old(self).inferred_view()[pl0[m] as int].len() < 2);
                }
            }
        }
        changed
    }

    /// What remains of the living copies of each card once everything known outside `player`
    /// is taken away: the copies not dead, minus the copies known held by others, minus, for
    /// each card with copies left, the most living copies of a group without `player`
    /// (computed in wrapping 8-bit arithmetic).
    #[verifier::spinoff_prover]
    fn remaining_for(&self, player: usize, remaining: [u8; 5]) -> (r: [u8; 5])
        requires
            self.wf(),
            player < 7,
        ensures
            forall|x: int| 0 <= x < 5 ==> #[trigger] r@[x] as int == (remaining@[x] as int - lists_max_outside(
                self.groups_view(), remaining@, player as int, x, 5,
                known_outside(self.inferred_view(), card_at(x), player as int, 7))) % 256,
    {
        proof { self.lemma_wf_rows(); }
        let mut sub: [u8; 5] = [0; 5];
        let mut i: usize = 0;
        while i < 7
            invariant
                self.wf(),
                i <= 7,
                player < 7,
                forall|k: int| 0 <= k < 5 ==> #[trigger] sub@[k] <= 3 * i,
                forall|x: int| 0 <= x < 5 ==> #[trigger] sub@[x] == known_outside(self.inferred_view(), card_at(x), player as int, i as int),
            decreases 7 - i,
        {
            proof { self.lemma_wf_rows(); }
            if i != player {
                let row = &self.inferred_constraints[i];
                let ghost sub0 = sub;
                let mut k: usize = 0;
                while k < row.len()
                    invariant
                        k <= row@.len(),
                        row@.len() <= 3,
                        i < 7,
                        forall|x: int| 0 <= x < 5 ==> #[trigger] sub@[x] <= 3 * i + k,
                        forall|x: int| 0 <= x < 5 ==> #[trigger] sub@[x] == sub0@[x] + count_card(row@.take(k as int), card_at(x)),
                    decreases row@.len() - k,
                {
                    let n = row[k].num();
                    let ghost s1 = sub;
                    sub[n] = sub[n] + 1;
                    proof {
                        crate::card::lemma_card_index_roundtrip(row@[k as int]);
                        assert(row@.take(k as int + 1).drop_last() =~= row@.take(k as int));
                        assert forall|x: int| 0 <= x < 5 implies #[trigger] sub@[x] == sub0@[x] + count_card(row@.take(k as int + 1), card_at(x)) by {
                            if x != n {
                                assert(sub@[x] == s1@[x]);
                                if row@[k as int] == card_at(x) {
                                    crate::card::lemma_card_index_roundtrip(card_at(x));
                                    assert(card_index(card_at(x)) == x) by {
                                        assert(0 <= x < 5);
                                    }
                                }
                            }
                        }
                    }
                    k += 1;
                }
                proof {
                    assert(row@.take(k as int) =~= row@);
                    assert(row@ == self.inferred_view()[i as int]);
                }
            }
            i += 1;
        }
        let ghost base = sub;
        let mut c: usize = 0;
        while c < 5
            invariant
                self.wf(),
                player < 7,
                c <= 5,
                forall|k: int| 0 <= k < 5 ==> #[trigger] sub@[k] <= 21,
                forall|x: int| 0 <= x < 5 ==> #[trigger] sub@[x] == lists_max_outside(self.groups_view(), remaining@,
                    player as int, x, c as int, base@[x] as int),
                forall|x: int| 0 <= x < 5 ==> #[trigger] base@[x] <= 21,
            decreases 5 - c,
        {
            proof { lemma_group_rows(self.group_constraints@, c as int); }
            if remaining[c] != 0 {
                let list = &self.group_constraints[c];
                let ghost sub0 = sub;
                let mut j: usize = 0;
                while j < list.len()
                    invariant
                        j <= list@.len(),
                        player < 7,
                        c < 5,
                        forall|k: int| 0 <= k < 5 ==> #[trigger] sub@[k] <= 21,
                        forall|x: int| 0 <= x < 5 ==> #[trigger] sub@[x] == list_max_outside(list@.take(j as int),
                            player as int, x, sub0@[x] as int),
                    decreases list@.len() - j,
                {
                    let ghost s1 = sub;
                    if !list[j].get_player_flag(player) {
                        let n = list[j].card_num();
                        let a = list[j].count_alive();
                        if a > sub[n] {
                            sub[n] = a;
                        }
                    }
                    proof {
                        assert(list@.take(j as int + 1).drop_last() =~= list@.take(j as int));
                        assert forall|x: int| 0 <= x < 5 implies #[trigger] sub@[x] == list_max_outside(list@.take(j as int + 1),
                            player as int, x, sub0@[x] as int) by {
                            assert(list@.take(j as int + 1).last() == list@[j as int]);
                        }
                    }
                    j += 1;
                }
                proof { assert(list@.take(j as int) =~= list@); }
            }
            c += 1;
        }
        proof {
            assert forall|x: int| 0 <= x < 5 implies #[trigger] base@[x] as int
                == known_outside(self.inferred_view(), card_at(x), player as int, 7) by {}
        }
        [remaining[0].wrapping_sub(sub[0]), remaining[1].wrapping_sub(sub[1]), remaining[2].wrapping_sub(sub[2]),
            remaining[3].wrapping_sub(sub[3]), remaining[4].wrapping_sub(sub[4])]
    }

    /// For each player (and the pile) whose cards are not all known: when the copies that can
    /// only be with it (`remaining_for`) fill its remaining lives, it is known to hold them
    /// (one or two copies per card, never past three known cards). Returns whether any known
    /// card was added.
    #[verifier::rlimit(100)]
    #[verifier::spinoff_prover]
    pub fn add_inferred_complement_of_player(&mut self) -> (r: bool)
        requires
            old(self).wf(),
        ensures
            final(self).wf(),
            final(self).public_view() == old(self).public_view(),
            final(self).groups_view() == old(self).groups_view(),
            final(self).impossible_view() == old(self).impossible_view(),
            final(self).history_view() == old(self).history_view(),
            final(self).move_no_spec() == old(self).move_no_spec(),
            !r ==> final(self).inferred_view() == old(self).inferred_view(),
            known_kept(final(self).inferred_view(), old(self).inferred_view()),
            r == (final(self).inferred_view() != old(self).inferred_view()),
            forall|q: int| 0 <= q < 7 ==> #[trigger] final(self).inferred_view()[q] == complement_row(*old(self), q),
    {
        let players = self.open_players();
        let dead = self.dead_card_count();
        let remaining: [u8; 5] = [3u8.wrapping_sub(dead[0]), 3u8.wrapping_sub(dead[1]), 3u8.wrapping_sub(dead[2]),
            3u8.wrapping_sub(dead[3]), 3u8.wrapping_sub(dead[4])];
        let ghost s0 = *self;
        proof {
            assert(remaining@ =~= remaining_seq(s0.public_view())) by {
                assert forall|c: int| 0 <= c < 5 implies remaining@[c] == remaining_seq(s0.public_view())[c] by {}
            }
        }
        let mut rems: Vec<[u8; 5]> = Vec::new();
        let mut idx: usize = 0;
        while idx < players.len()
            invariant
                self.wf(),
                *self == s0,
                s0 == *old(self),
                remaining@ == remaining_seq(s0.public_view()),
                idx <= players@.len(),
                rems@.len() == idx,
                forall|k: int| 0 <= k < players@.len() ==> #[trigger] players@[k] < 7,
                forall|k: int| 0 <= k < idx ==> #[trigger] rems@[k]@ == rem_of(s0, players@[k] as int),
            decreases players@.len() - idx,
        {
            let r = self.remaining_for(players[idx], remaining);
            proof {
                assert(r@ =~= rem_of(s0, players@[idx as int] as int)) by {
                    assert forall|x: int| 0 <= x < 5 implies r@[x] == rem_of(s0, players@[idx as int] as int)[x] by {}
                }
            }
            let ghost rs0 = rems@;
            rems.push(r);
            proof {
                assert forall|k: int| 0 <= k < idx + 1 implies #[trigger] rems@[k]@ == rem_of(s0, players@[k] as int) by {
                    if k < idx { assert(rems@[k] == rs0[k]); }
                }
            }
            idx += 1;
        }
        let mut changed = false;
        let mut idx: usize = 0;
        while idx < players.len()
            invariant
                self.wf(),
                idx <= players@.len(),
                rems@.len() == players@.len(),
                forall|k: int| 0 <= k < players@.len() ==> #[trigger] players@[k] < 7,
                self.public_view() == old(self).public_view(),
                self.groups_view() == old(self).groups_view(),
                self.impossible_view() == old(self).impossible_view(),
                self.history_view() == old(self).history_view(),
                self.move_no_spec() == old(self).move_no_spec(),
                !changed ==> self.inferred_view() == old(self).inferred_view(),
                known_kept(self.inferred_view(), old(self).inferred_view()),
                changed ==> some_row_grew(self.inferred_view(), old(self).inferred_view()),
                s0 == *old(self),
                forall|k: int| 0 <= k < players@.len() ==> #[trigger] rems@[k]@ == rem_of(s0, players@[k] as int),
                forall|a: int, b: int| 0 <= a < b < players@.len() ==> players@[a] < players@[b],
                forall|k: int| 0 <= k < players@.len() ==> s0.public_view()[#[trigger] players@[k] as int].len()
                    + s0.inferred_view()[players@[k] as int].len() < 2,
                forall|q: int| 0 <= q < 7 && s0.public_view()[q].len() + s0.inferred_view()[q].len() < 2
                    ==> players@.contains(q as usize),
                forall|q: int| 0 <= q < 7 ==> #[trigger] self.inferred_view()[q] ==
                    if (exists|k: int| 0 <= k < idx && players@[k] == q) { complement_row(s0, q) } else { s0.inferred_view()[q] },
            decreases players@.len() - idx,
        {
            let player = players[idx];
            let rem = rems[idx];
            proof {
                self.lemma_wf_rows();
                assert(!(exists|k: int| 0 <= k < idx && players@[k] == player)) by {
                    if exists|k: int| 0 <= k < idx && players@[k] == player {
                        let k = choose|k: int| 0 <= k < idx && players@[k] == player;
                        assert(players@[k] < players@[idx as int]);
                    }
                }
                assert(self.inferred_view()[player as int] == s0.inferred_view()[player as int]);
            }
            let ghost mid = self.inferred_view();
            let lives: u8 = 2 - self.public_constraints[player].len() as u8;
            let total = rem[0].wrapping_add(rem[1]).wrapping_add(rem[2]).wrapping_add(rem[3]).wrapping_add(rem[4]);
            proof {
                assert(total as int == rem_total(rem@));
                assert(lives as int == 2 - s0.public_view()[player as int].len());
            }
            if lives >= total {
                let mut c: usize = 0;
                while c < 5
                    invariant
                        self.wf(),
                        player < 7,
                        c <= 5,
                        self.public_view() == old(self).public_view(),
                        self.groups_view() == old(self).groups_view(),
                        self.impossible_view() == old(self).impossible_view(),
                        self.history_view() == old(self).history_view(),
                        self.move_no_spec() == old(self).move_no_spec(),
                        !changed ==> self.inferred_view() == old(self).inferred_view(),
                        known_kept(self.inferred_view(), old(self).inferred_view()),
                        changed ==> some_row_grew(self.inferred_view(), old(self).inferred_view()),
                        forall|q: int| 0 <= q < 7 && q != player ==> #[trigger] self.inferred_view()[q] == mid[q],
                        self.inferred_view()[player as int] == complement_fold(mid[player as int], rem@, c as int),
                    decreases 5 - c,
                {
                    let card = Card::from_num(c);
                    proof { self.lemma_wf_rows(); }
                    if rem[c] == 2 {
                        if contains_card(&self.inferred_constraints[player], card) {
                            if self.inferred_constraints[player].len() == 1 {
                                let ghost inf_before = self.inferred_view();
                                let pushed = self.fill_known_copies(player, card, 2);
                                proof {
                                    assert(known_kept(self.inferred_view(), inf_before)) by {
                                        assert forall|q: int| 0 <= q < 7 implies (#[trigger] inf_before[q]).is_prefix_of(self.inferred_view()[q]) by {
                                            if q != player { assert(inf_before[q] =~= self.inferred_view()[q].subrange(0, inf_before[q].len() as int)); }
                                        }
                                    }
                                    lemma_known_kept_trans(self.inferred_view(), inf_before, old(self).inferred_view());
                                    lemma_grew_step(self.inferred_view(), inf_before, old(self).inferred_view(), player as int, pushed, changed);
                                }
                                changed = pushed || changed;
                            }
                        } else {
                            let current = count_in(&self.inferred_constraints[player], card);
                            proof { crate::card::lemma_count_card_le_len(self.inferred_view()[player as int], card); }
                            let ghost inf_before = self.inferred_view();
                            let pushed = self.fill_known_copies(player, card, current + 2);
                            proof {
                                assert(known_kept(self.inferred_view(), inf_before)) by {
                                    assert forall|q: int| 0 <= q < 7 implies (#[trigger] inf_before[q]).is_prefix_of(self.inferred_view()[q]) by {
                                        if q != player { assert(inf_before[q] =~= self.inferred_view()[q].subrange(0, inf_before[q].len() as int)); }
                                    }
                                }
                                lemma_known_kept_trans(self.inferred_view(), inf_before, old(self).inferred_view());
                                lemma_grew_step(self.inferred_view(), inf_before, old(self).inferred_view(), player as int, pushed, changed);
                            }
                            changed = pushed || changed;
                        }
                    } else if rem[c] == 1 {
                        if !contains_card(&self.inferred_constraints[player], card) {
                            let ghost inf_before = self.inferred_view();
                            let pushed = self.fill_known_copies(player, card, 1);
                            proof {
                                assert(known_kept(self.inferred_view(), inf_before)) by {
                                    assert forall|q: int| 0 <= q < 7 implies (#[trigger] inf_before[q]).is_prefix_of(self.inferred_view()[q]) by {
                                        if q != player { assert(inf_before[q] =~= self.inferred_view()[q].subrange(0, inf_before[q].len() as int)); }
                                    }
                                }
                                lemma_known_kept_trans(self.inferred_view(), inf_before, old(self).inferred_view());
                                lemma_grew_step(self.inferred_view(), inf_before, old(self).inferred_view(), player as int, pushed, changed);
                            }
                            changed = pushed || changed;
                        }
                    }
                    c += 1;
                }
            }
            proof {
                assert forall|q: int| 0 <= q < 7 implies #[trigger] self.inferred_view()[q] ==
                    if (exists|k: int| 0 <= k < idx + 1 && players@[k] == q) { complement_row(s0, q) } else { s0.inferred_view()[q] } by {
                    if q == player {
                        assert(players@[idx as int] == q);
                        assert(s0.public_view()[q].len() + s0.inferred_view()[q].len() < 2);
                    } else {
                        if exists|k: int| 0 <= k < idx + 1 && players@[k] == q {
                            let k = choose|k: int| 0 <= k < idx + 1 && players@[k] == q;
                            assert(k < idx);
                        }
                    }
                }
            }
            idx += 1;
        }
        proof {
            assert forall|q: int| 0 <= q < 7 implies #[trigger] self.inferred_view()[q] == complement_row(s0, q) by {
                if s0.public_view()[q].len() + s0.inferred_view()[q].len() < 2 {
                    assert(players@.contains(q as usize));
                    let k = choose|k: int| 0 <= k < players@.len() && players@[k] == q as usize;
                    assert(players@[k] == q);
                } else {
                    if exists|k: int| 0 <= k < idx && players@[k] == q {
                        let k = choose|k: int| 0 <= k < idx && players@[k] == q;
                        assert(s0.public_view()[players@[k] as int].len() + s0.inferred_view()[players@[k] as int].len() < 2);
                    }
                }
            }
        }
        changed
    }
}

/// The most rounds of inference `add_inferred_information` runs: as many as a counter can
/// count, so that in practice it runs until nothing changes.
pub const INFERENCE_ROUNDS: usize = usize::MAX;

/// None of the three kinds of card inference has anything to add to `s`: every row is its
/// own complement (`complement_row`), no group lets a player's cards be inferred
/// (`except_applies`), and the negation scan finds nothing (`neg_scan`).
pub open spec fn inference_settled(s: PathDependentCollectiveConstraint) -> bool {
    &&& forall|q: int| 0 <= q < 7 ==> #[trigger] s.inferred_view()[q] == complement_row(s, q)
    &&& forall|c: int, k: int, p: int| 0 <= c < 5 && 0 <= k < s.groups_view()[c].len() && 0 <= p < 7
        ==> !#[trigger] except_applies(s.public_view(), s.inferred_view(), s.groups_view(), c, s.groups_view()[c][k], p)
    &&& super::negation::neg_scan(s.public_view(), s.inferred_view(), s.groups_view(), 0, 0, Set::empty()) is None
}

impl PathDependentCollectiveConstraint {
    /// Draws every conclusion the group constraints allow: after dropping redundant
    /// three-copy groups, repeats the subset derivation, the unions, and the three kinds of
    /// card inference until none of the last four changes anything (at most
    /// `INFERENCE_ROUNDS` rounds, see `inference_rounds`).
    pub fn add_inferred_information(&mut self)
        requires
            old(self).wf(),
        ensures
            final(self).wf(),
            final(self).public_view() == old(self).public_view(),
            final(self).impossible_view() == old(self).impossible_view(),
            final(self).history_view() == old(self).history_view(),
            final(self).move_no_spec() == old(self).move_no_spec(),
    {
        self.temp_remove_redundant_three_groups();
        self.inference_rounds(INFERENCE_ROUNDS);
    }

    /// Runs at most `max_rounds` rounds of the subset derivation, the unions and the three
    /// kinds of card inference, stopping after the first round in which none of the last four
    /// changes anything; returns whether it stopped so, in which case no card inference has
    /// anything more to add (`inference_settled`).
    fn inference_rounds(&mut self, max_rounds: usize) -> (settled: bool)
        requires
            old(self).wf(),
        ensures
            final(self).wf(),
            final(self).public_view() == old(self).public_view(),
            final(self).impossible_view() == old(self).impossible_view(),
            final(self).history_view() == old(self).history_view(),
            final(self).move_no_spec() == old(self).move_no_spec(),
            settled ==> inference_settled(*final(self)),
            max_rounds == 0 ==> !settled && *final(self) == *old(self),
    {
        let mut rounds: usize = 0;
        while rounds < max_rounds
            invariant
                self.wf(),
                self.public_view() == old(self).public_view(),
                self.impossible_view() == old(self).impossible_view(),
                self.history_view() == old(self).history_view(),
                self.move_no_spec() == old(self).move_no_spec(),
                rounds == 0 ==> *self == *old(self),
                rounds <= max_rounds,
            decreases max_rounds - rounds,
        {
            rounds += 1;
            self.add_subset_groups_unopt();
            let unions = self.add_mutually_exclusive_unions();
            let ghost s2 = *self;
            let complement = self.add_inferred_complement_of_player();
            let ghost s3 = *self;
            let except = self.add_inferred_except_player();
            let ghost s4 = *self;
            let negation = self.add_inferred_remaining_negation();
            if !(unions || complement || except || negation) {
                proof {
                    assert(self.inferred_view() == s2.inferred_view());
                    assert(self.groups_view() == s2.groups_view());
                    assert forall|q: int| 0 <= q < 7 implies #[trigger] self.inferred_view()[q] == complement_row(*self, q) by {
                        assert(s3.inferred_view()[q] == complement_row(s2, q));
                    }
                }
                return true;
            }
        }
        false
    }
}

/// The public rows of `s` are a table of at most two cards per row.
pub open spec fn table_ok_public_of(s: &PathDependentCollectiveConstraint) -> bool {
    super::table_ok(s.public_view(), 2)
}

} // verus!
