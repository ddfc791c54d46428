use vstd::prelude::*;
use crate::card::{Card, card_at, count_card, count_in, contains_card};
use crate::group::CompressedGroupConstraint;
use super::{PathDependentCollectiveConstraint, PathDependentMetaData, table_count, lemma_group_rows, clone_table,
    full_start_group};
use super::queries::table_card_counts;

verus! {

/// For a row whose cards are all known: only its known cards are possible.
pub open spec fn full_row(impossible: Seq<bool>, inferred: Seq<Card>) -> bool {
    forall|c: int| 0 <= c < 5 ==> #[trigger] impossible[c] == !inferred.contains(card_at(c))
}

/// Some group of the list places all three copies of its card.
pub open spec fn keeps_three(groups: Seq<CompressedGroupConstraint>) -> bool {
    exists|k: int| 0 <= k < groups.len() && #[trigger] groups[k].alive_spec() + groups[k].dead_spec() == 3
}

/// Copies of `c` dead or known held in rows `0..n` outside the participants of `g`.
pub open spec fn outside_copies(g: CompressedGroupConstraint, public: Seq<Seq<Card>>, inferred: Seq<Seq<Card>>,
    c: Card, n: int) -> int
    decreases n,
{
    if n <= 0 {
        0
    } else {
        outside_copies(g, public, inferred, c, n - 1)
            + if g.pflag(n - 1) { 0int } else { (count_card(public[n - 1], c) + count_card(inferred[n - 1], c)) as int }
    }
}

/// The group `g` of card `c` rules `c` out for `p`, which it leaves out: the group places
/// all three copies; or its living copies and all dead copies make three; or the copies it
/// places and those dead or known held outside it make three and `p` is not known to hold
/// `c`.
pub open spec fn group_rules_out(g: CompressedGroupConstraint, public: Seq<Seq<Card>>, inferred: Seq<Seq<Card>>,
    c: Card, p: int) -> bool
{
    let placed = g.alive_spec() + g.dead_spec();
    &&& !g.pflag(p)
    &&& {
        ||| placed == 3
        ||| g.alive_spec() + table_count(public, c) == 3
        ||| placed + outside_copies(g, public, inferred, c, 7) == 3 && !inferred[p].contains(c)
    }
}

/// Whether card number `c` is impossible for `p` (a player, or 6 for the pile): for a row
/// whose cards are all known, exactly the cards it is not known to hold; otherwise when a
/// group rules it out, all three copies are dead, or all three are dead or known held and
/// `p` is not known to hold one.
pub open spec fn impossible_entry(public: Seq<Seq<Card>>, inferred: Seq<Seq<Card>>,
    groups: Seq<Seq<CompressedGroupConstraint>>, p: int, c: int) -> bool
{
    let card = card_at(c);
    if (p < 6 && public[p].len() + inferred[p].len() == 2) || (p == 6 && inferred[6].len() == 3) {
        !inferred[p].contains(card)
    } else {
        ||| exists|k: int| 0 <= k < groups[c].len() && #[trigger] group_rules_out(groups[c][k], public, inferred, card, p)
        ||| table_count(public, card) == 3
        ||| table_count(public, card) + table_count(inferred, card) == 3 && !inferred[p].contains(card)
    }
}

/// The impossibility table of `s` is the one its facts give (`impossible_entry`).
pub open spec fn impossible_consistent(s: PathDependentCollectiveConstraint) -> bool {
    forall|p: int, c: int| 0 <= p < 7 && 0 <= c < 5 ==> #[trigger] s.impossible_view()@[p]@[c]
        == impossible_entry(s.public_view(), s.inferred_view(), s.groups_view(), p, c)
}

/// At the start of a game nothing is impossible, as the facts give.
pub proof fn lemma_start_impossible_consistent(s: PathDependentCollectiveConstraint)
    requires
        s.at_game_start(),
    ensures
        impossible_consistent(s),
{
    assert forall|p: int, c: int| 0 <= p < 7 && 0 <= c < 5 implies #[trigger] s.impossible_view()@[p]@[c]
        == impossible_entry(s.public_view(), s.inferred_view(), s.groups_view(), p, c) by {
        let card = card_at(c);
        assert(s.groups_view()[c].len() == 1);
        assert(s.public_view()[p].len() == 0);
        assert(s.inferred_view()[p].len() == 0);
        assert(!s.inferred_view()[p].contains(card));
        assert(s.groups_view()[c].len() == 1 && full_start_group(s.groups_view()[c][0], card_at(c)));
        assert(!group_rules_out(s.groups_view()[c][0], s.public_view(), s.inferred_view(), card, p));
        lemma_table_count_empty(s.public_view(), card, 7);
        lemma_table_count_empty(s.inferred_view(), card, 7);
        assert(s.public_view().take(7) =~= s.public_view());
        assert(s.inferred_view().take(7) =~= s.inferred_view());
    }
}

proof fn lemma_table_count_empty(t: Seq<Seq<Card>>, c: Card, n: int)
    requires
        0 <= n <= t.len(),
        forall|i: int| 0 <= i < t.len() ==> (#[trigger] t[i]).len() == 0,
    ensures
        table_count(t.take(n), c) == 0,
    decreases n,
{
    if n > 0 {
        lemma_table_count_empty(t, c, n - 1);
        assert(t.take(n).drop_last() =~= t.take(n - 1));
    }
}

impl PathDependentCollectiveConstraint {
    /// Copies of `card` dead or known held outside the participants of `g`.
    fn outside_count(&self, g: &CompressedGroupConstraint, card: Card) -> (r: u8)
        requires
            self.wf(),
        ensures
            r == outside_copies(*g, self.public_view(), self.inferred_view(), card, 7),
    {
        proof { self.lemma_wf_rows(); }
        let mut n: u8 = 0;
        let mut p: usize = 0;
        while p < 7
            invariant
                self.wf(),
                p <= 7,
                n == outside_copies(*g, self.public_view(), self.inferred_view(), card, p as int),
                n <= 5 * p,
            decreases 7 - p,
        {
            proof {
                self.lemma_wf_rows();
                crate::card::lemma_count_card_le_len(self.public_view()[p as int], card);
                crate::card::lemma_count_card_le_len(self.inferred_view()[p as int], card);
            }
            if !g.get_player_flag(p) {
                n = n + count_in(&self.public_constraints[p], card) + count_in(&self.inferred_constraints[p], card);
            }
            p += 1;
        }
        n
    }

    /// Whether some group of card number `c` rules the card out for `p` (`group_rules_out`).
    fn some_group_rules_out(&self, c: usize, p: usize, dead: u8) -> (r: bool)
        requires
            self.wf(),
            c < 5,
            p < 7,
            dead == table_count(self.public_view(), card_at(c as int)),
        ensures
            r == exists|k: int| 0 <= k < self.groups_view()[c as int].len()
                && #[trigger] group_rules_out(self.groups_view()[c as int][k], self.public_view(), self.inferred_view(),
                    card_at(c as int), p as int),
    {
        proof {
            self.lemma_wf_rows();
            lemma_group_rows(self.group_constraints@, c as int);
        }
        let card = Card::from_num(c);
        let list = &self.group_constraints[c];
        let mut i: usize = 0;
        while i < list.len()
            invariant
                self.wf(),
                c < 5,
                p < 7,
                card == card_at(c as int),
                dead == table_count(self.public_view(), card),
                list@ == self.groups_view()[c as int],
                i <= list@.len(),
                forall|k: int| 0 <= k < i ==> !#[trigger] group_rules_out(list@[k], self.public_view(),
                    self.inferred_view(), card, p as int),
            decreases list@.len() - i,
        {
            proof { self.lemma_wf_rows(); }
            let g = list[i];
            if !g.get_player_flag(p) {
                let placed = g.count();
                if placed == 3 || (g.count_alive() as u16) + (dead as u16) == 3 {
                    assert(group_rules_out(list@[i as int], self.public_view(), self.inferred_view(), card, p as int));
                    return true;
                }
                let outside = self.outside_count(&g, card);
                if (outside as u16) + (placed as u16) == 3 && !contains_card(&self.inferred_constraints[p], card) {
                    assert(group_rules_out(list@[i as int], self.public_view(), self.inferred_view(), card, p as int));
                    return true;
                }
            }
            i += 1;
        }
        false
    }

    /// Recomputes, for every player and the pile, which cards they cannot hold
    /// (`impossible_entry`): from the dead and known cards and the group constraints.
    pub(crate) fn generate_impossible_constraints(&mut self)
        requires old(self).wf(),
        ensures
            final(self).wf(),
            final(self).public_view() == old(self).public_view(),
            final(self).inferred_view() == old(self).inferred_view(),
            final(self).groups_view() == old(self).groups_view(),
            final(self).history_view() == old(self).history_view(),
            final(self).move_no_spec() == old(self).move_no_spec(),
            forall|p: int, c: int| 0 <= p < 7 && 0 <= c < 5 ==> #[trigger] final(self).impossible_view()@[p]@[c]
                == impossible_entry(old(self).public_view(), old(self).inferred_view(), old(self).groups_view(), p, c),
            forall|p: int| 0 <= p < 6 && #[trigger] old(self).public_view()[p].len() + old(self).inferred_view()[p].len() == 2
                ==> full_row(final(self).impossible_view()@[p]@, old(self).inferred_view()[p]),
            old(self).inferred_view()[6].len() == 3 ==> full_row(final(self).impossible_view()@[6]@, old(self).inferred_view()[6]),
            impossible_consistent(*final(self)),
    {
        proof { self.lemma_wf_rows(); }
        let dead_cards = table_card_counts(&self.public_constraints);
        let inferred_cards = table_card_counts(&self.inferred_constraints);
        let mut imp: [[bool; 5]; 7] = [[false; 5]; 7];
        let mut p: usize = 0;
        while p < 7
            invariant
                self.wf(),
                *self == *old(self),
                p <= 7,
                forall|c: int| 0 <= c < 5 ==> #[trigger] dead_cards@[c] == table_count(self.public_view(), card_at(c)),
                forall|c: int| 0 <= c < 5 ==> #[trigger] inferred_cards@[c] == table_count(self.inferred_view(), card_at(c)),
                forall|c: int| 0 <= c < 5 ==> #[trigger] dead_cards@[c] <= 21,
                forall|c: int| 0 <= c < 5 ==> #[trigger] inferred_cards@[c] <= 21,
                forall|q: int, c: int| 0 <= q < p && 0 <= c < 5 ==> #[trigger] imp@[q]@[c]
                    == impossible_entry(self.public_view(), self.inferred_view(), self.groups_view(), q, c),
            decreases 7 - p,
        {
            proof { self.lemma_wf_rows(); }
            let full = if p < 6 {
                self.public_constraints[p].len() + self.inferred_constraints[p].len() == 2
            } else {
                self.inferred_constraints[p].len() == 3
            };
            let row: [bool; 5] = if full {
                Self::row_of_known(&self.inferred_constraints[p])
            } else {
                let mut row: [bool; 5] = [false; 5];
                let mut c: usize = 0;
                while c < 5
                    invariant
                        self.wf(),
                        p < 7,
                        c <= 5,
                        !full,
                        full == ((p < 6 && self.public_view()[p as int].len() + self.inferred_view()[p as int].len() == 2)
                            || (p == 6 && self.inferred_view()[6].len() == 3)),
                        forall|k: int| 0 <= k < 5 ==> #[trigger] dead_cards@[k] == table_count(self.public_view(), card_at(k)),
                        forall|k: int| 0 <= k < 5 ==> #[trigger] inferred_cards@[k] == table_count(self.inferred_view(), card_at(k)),
                        forall|k: int| 0 <= k < 5 ==> #[trigger] dead_cards@[k] <= 21,
                        forall|k: int| 0 <= k < 5 ==> #[trigger] inferred_cards@[k] <= 21,
                        forall|k: int| 0 <= k < c ==> #[trigger] row@[k]
                            == impossible_entry(self.public_view(), self.inferred_view(), self.groups_view(), p as int, k),
                    decreases 5 - c,
                {
                    proof { self.lemma_wf_rows(); }
                    let card = Card::from_num(c);
                    let by_group = self.some_group_rules_out(c, p, dead_cards[c]);
                    let all_dead = dead_cards[c] == 3;
                    let all_placed = dead_cards[c] + inferred_cards[c] == 3 && !contains_card(&self.inferred_constraints[p], card);
                    let ghost r0 = row;
                    row[c] = by_group || all_dead || all_placed;
                    proof {
                        assert forall|k: int| 0 <= k < c + 1 implies #[trigger] row@[k]
                            == impossible_entry(self.public_view(), self.inferred_view(), self.groups_view(), p as int, k) by {
                            if k < c { assert(row@[k] == r0@[k]); }
                        }
                    }
                    c += 1;
                }
                row
            };
            proof {
                if full {
                    assert forall|c: int| 0 <= c < 5 implies #[trigger] row@[c]
                        == impossible_entry(self.public_view(), self.inferred_view(), self.groups_view(), p as int, c) by {
                        assert(full_row(row@, self.inferred_view()[p as int]));
                    }
                }
            }
            let ghost imp0 = imp;
            imp[p] = row;
            proof {
                assert forall|q: int, c: int| 0 <= q < p + 1 && 0 <= c < 5 implies #[trigger] imp@[q]@[c]
                    == impossible_entry(self.public_view(), self.inferred_view(), self.groups_view(), q, c) by {
                    if q < p { assert(imp@[q] == imp0@[q]); }
                }
            }
            p += 1;
        }
        self.impossible_constraints = imp;
        proof {
            assert forall|q: int| 0 <= q < 6 && #[trigger] old(self).public_view()[q].len() + old(self).inferred_view()[q].len() == 2
                implies full_row(self.impossible_view()@[q]@, old(self).inferred_view()[q]) by {
                assert forall|c: int| 0 <= c < 5 implies #[trigger] self.impossible_view()@[q]@[c]
                    == !old(self).inferred_view()[q].contains(card_at(c)) by {
                    assert(imp@[q]@[c] == impossible_entry(old(self).public_view(), old(self).inferred_view(),
                        old(self).groups_view(), q, c));
                }
            }
            if old(self).inferred_view()[6].len() == 3 {
                assert forall|c: int| 0 <= c < 5 implies #[trigger] self.impossible_view()@[6]@[c]
                    == !old(self).inferred_view()[6].contains(card_at(c)) by {
                    assert(imp@[6]@[c] == impossible_entry(old(self).public_view(), old(self).inferred_view(),
                        old(self).groups_view(), 6, c));
                }
            }
        }
    }

    /// The impossibility row of a row whose cards are all known: only those are possible.
    fn row_of_known(inferred: &Vec<Card>) -> (r: [bool; 5])
        ensures full_row(r@, inferred@),
    {
        let mut r: [bool; 5] = [true; 5];
        let mut k: usize = 0;
        while k < inferred.len()
            invariant
                k <= inferred@.len(),
                forall|c: int| 0 <= c < 5 ==> #[trigger] r@[c] == !inferred@.subrange(0, k as int).contains(card_at(c)),
            decreases inferred@.len() - k,
        {
            let n = inferred[k].num();
            r[n] = false;
            proof {
                assert forall|c: int| 0 <= c < 5 implies #[trigger] r@[c] == !inferred@.subrange(0, k as int + 1).contains(card_at(c)) by {
                    let s0 = inferred@.subrange(0, k as int);
                    let s1 = inferred@.subrange(0, k as int + 1);
                    crate::card::lemma_card_index_roundtrip(inferred@[k as int]);
                    if c == n {
                        assert(s1[k as int] == card_at(c));
                    } else {
                        if s1.contains(card_at(c)) {
                            let m = choose|m: int| 0 <= m < s1.len() && s1[m] == card_at(c);
                            if m == k {
                                crate::card::lemma_card_index_roundtrip(card_at(c));
                            } else {
                                assert(s0[m] == card_at(c));
                            }
                        }
                        if s0.contains(card_at(c)) {
                            let m = choose|m: int| 0 <= m < s0.len() && s0[m] == card_at(c);
                            assert(s1[m] == card_at(c));
                        }
                    }
                }
            }
            k += 1;
        }
        assert(inferred@.subrange(0, k as int) =~= inferred@);
        r
    }

    /// The stored table of impossibilities (player or pile, card).
    pub fn generate_one_card_impossibilities_player_card_indexing(&self) -> (r: [[bool; 5]; 7])
        ensures r == self.impossible_view(),
    {
        self.impossible_constraints
    }

    /// The facts of the current state, to be stored with a move.
    pub fn to_meta_data(&mut self) -> (r: PathDependentMetaData)
        requires old(self).wf(),
        ensures
            *final(self) == *old(self),
            r.public_view() == old(self).public_view(),
            r.inferred_view() == old(self).inferred_view(),
            r.impossible_view() == old(self).impossible_view(),
            r.wf(),
    {
        PathDependentMetaData {
            public_constraints: clone_table(&self.public_constraints),
            inferred_constraints: clone_table(&self.inferred_constraints),
            impossible_constraints: self.impossible_constraints,
        }
    }

    /// The bounds every reachable state keeps: at most two dead or known cards per player,
    /// none dead for the pile, at most three known for it, and at most three copies of each
    /// card dead or known.
    pub fn debug_panicker(&self)
        requires
            self.wf(),
            forall|p: int| 0 <= p < 6 ==> #[trigger] self.public_view()[p].len() + self.inferred_view()[p].len() <= 2,
            self.public_view()[6].len() == 0,
            self.inferred_view()[6].len() <= 3,
            forall|c: Card| #[trigger] table_count(self.public_view(), c) + table_count(self.inferred_view(), c) <= 3,
    {
    }

    /// Every card keeps a group of total count three.
    pub fn check_three(&self)
        requires
            self.wf(),
            forall|c: int| 0 <= c < 5 ==> keeps_three(#[trigger] self.groups_view()[c]),
    {
    }
}

} // verus!
