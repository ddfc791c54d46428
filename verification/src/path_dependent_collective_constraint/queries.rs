use vstd::prelude::*;
use crate::card::{Card, card_index, card_at, count_card, count_in, contains_card,
    lemma_count_card_le_len, lemma_count_card_push};
use crate::group::CompressedGroupConstraint;
use super::{PathDependentCollectiveConstraint, rows, table_ok, lemma_rows, table_count,
    table_count_exec, all_equal, all_full_spec, group_rows, lemma_group_rows};

verus! {

/// The number of copies of each card in a vector, indexed by card position.
pub fn card_counts(v: &Vec<Card>) -> (r: [u8; 5])
    requires
        v@.len() <= 3,
    ensures
        forall|c: int| 0 <= c < 5 ==> #[trigger] r@[c] == count_card(v@, card_at(c)),
        forall|c: int| 0 <= c < 5 ==> #[trigger] r@[c] <= 3,
{
    let mut r: [u8; 5] = [0; 5];
    let mut i: usize = 0;
    while i < v.len()
        invariant
            i <= v@.len(),
            v@.len() <= 3,
            forall|c: int| 0 <= c < 5 ==> #[trigger] r@[c] == count_card(v@.subrange(0, i as int), card_at(c)),
            forall|c: int| 0 <= c < 5 ==> #[trigger] r@[c] <= i,
        decreases v@.len() - i,
    {
        let n = v[i].num();
        proof {
            assert(v@.subrange(0, i as int + 1) =~= v@.subrange(0, i as int).push(v@[i as int]));
            assert forall|c: int| 0 <= c < 5 implies count_card(v@.subrange(0, i as int + 1), #[trigger] card_at(c))
                == count_card(v@.subrange(0, i as int), card_at(c)) + if c == n { 1nat } else { 0nat } by {
                lemma_count_card_push(v@.subrange(0, i as int), v@[i as int], card_at(c));
                crate::card::lemma_card_index_roundtrip(v@[i as int]);
            }
        }
        r[n] = r[n] + 1;
        i += 1;
    }
    assert(v@.subrange(0, i as int) =~= v@);
    r
}

/// Copies of each card over all rows of a table of at most seven rows of at most three cards.
pub fn table_card_counts(t: &Vec<Vec<Card>>) -> (r: [u8; 5])
    requires
        t@.len() <= 7,
        forall|i: int| 0 <= i < t@.len() ==> #[trigger] t@[i]@.len() <= 3,
    ensures
        forall|c: int| 0 <= c < 5 ==> #[trigger] r@[c] == table_count(rows(t@), card_at(c)),
        forall|c: int| 0 <= c < 5 ==> #[trigger] r@[c] <= 21,
{
    let mut r: [u8; 5] = [0; 5];
    let mut c: usize = 0;
    while c < 5
        invariant
            c <= 5,
            t@.len() <= 7,
            forall|i: int| 0 <= i < t@.len() ==> #[trigger] t@[i]@.len() <= 3,
            forall|k: int| 0 <= k < c ==> #[trigger] r@[k] == table_count(rows(t@), card_at(k)),
            forall|k: int| 0 <= k < 5 ==> #[trigger] r@[k] <= 21,
        decreases 5 - c,
    {
        r[c] = table_count_exec(t, Card::from_num(c));
        c += 1;
    }
    r
}

/// The cards of `s` in the order Ambassador, Assassin, Captain, Duke, Contessa.
pub open spec fn sorted_cards(s: Seq<Card>) -> bool {
    forall|a: int, b: int| 0 <= a < b < s.len() ==> card_index(s[a]) <= card_index(s[b])
}

/// `s` and `t` hold the same number of copies of every card.
pub open spec fn same_cards(s: Seq<Card>, t: Seq<Card>) -> bool {
    forall|c: Card| #[trigger] count_card(s, c) == count_card(t, c)
}

proof fn lemma_count_card_other(s: Seq<Card>, x: Card, c: Card)
    requires x != c,
    ensures count_card(s.push(x), c) == count_card(s, c),
{
    lemma_count_card_push(s, x, c);
}

/// The cards of `v` sorted by their position in the fixed order.
pub fn sort_cards(v: &Vec<Card>) -> (r: Vec<Card>)
    requires
        v@.len() <= 3,
    ensures
        sorted_cards(r@),
        same_cards(r@, v@),
        r@.len() == v@.len(),
{
    let counts = card_counts(v);
    let mut r: Vec<Card> = Vec::new();
    let mut c: usize = 0;
    while c < 5
        invariant
            c <= 5,
            sorted_cards(r@),
            forall|k: int| 0 <= k < r@.len() ==> card_index(#[trigger] r@[k]) < c,
            forall|k: int| 0 <= k < 5 ==> #[trigger] counts@[k] == count_card(v@, card_at(k)),
            forall|d: Card| card_index(d) < c ==> #[trigger] count_card(r@, d) == count_card(v@, d),
            forall|d: Card| card_index(d) >= c ==> #[trigger] count_card(r@, d) == 0,
        decreases 5 - c,
    {
        let card = Card::from_num(c);
        let n = counts[c];
        let mut k: u8 = 0;
        let ghost start = r@;
        while k < n
            invariant
                k <= n,
                card_index(card) == c,
                c < 5,
                sorted_cards(r@),
                forall|j: int| 0 <= j < r@.len() ==> card_index(#[trigger] r@[j]) <= c,
                forall|d: Card| d != card ==> #[trigger] count_card(r@, d) == count_card(start, d),
                count_card(r@, card) == count_card(start, card) + k,
            decreases n - k,
        {
            let ghost before = r@;
            r.push(card);
            proof {
                assert forall|d: Card| d != card implies #[trigger] count_card(r@, d) == count_card(start, d) by {
                    lemma_count_card_other(before, card, d);
                }
                lemma_count_card_push(before, card, card);
            }
            k += 1;
        }
        proof {
            assert forall|d: Card| card_index(d) < c + 1 implies #[trigger] count_card(r@, d) == count_card(v@, d) by {
                if d == card {
                    assert(card_at(c as int) == card);
                } else {
                    assert(card_index(d) < c);
                }
            }
            assert forall|d: Card| card_index(d) >= c + 1 implies #[trigger] count_card(r@, d) == 0 by {
                assert(d != card);
            }
        }
        c += 1;
    }
    proof {
        assert forall|d: Card| #[trigger] count_card(r@, d) == count_card(v@, d) by {
            crate::card::lemma_card_index_roundtrip(d);
        }
        lemma_len_from_counts(r@, v@);
    }
    r
}

/// Total length from per-card counts.
pub open spec fn sum_counts(s: Seq<Card>) -> nat {
    count_card(s, Card::Ambassador) + count_card(s, Card::Assassin) + count_card(s, Card::Captain)
        + count_card(s, Card::Duke) + count_card(s, Card::Contessa)
}

proof fn lemma_sum_counts_len(s: Seq<Card>)
    ensures sum_counts(s) == s.len(),
    decreases s.len(),
{
    if s.len() > 0 {
        lemma_sum_counts_len(s.drop_last());
    }
}

proof fn lemma_len_from_counts(s: Seq<Card>, t: Seq<Card>)
    requires forall|d: Card| #[trigger] count_card(s, d) == count_card(t, d),
    ensures s.len() == t.len(),
{
    lemma_sum_counts_len(s);
    lemma_sum_counts_len(t);
    assert(count_card(s, Card::Ambassador) == count_card(t, Card::Ambassador));
    assert(count_card(s, Card::Assassin) == count_card(t, Card::Assassin));
    assert(count_card(s, Card::Captain) == count_card(t, Card::Captain));
    assert(count_card(s, Card::Duke) == count_card(t, Card::Duke));
    assert(count_card(s, Card::Contessa) == count_card(t, Card::Contessa));
}

/// Each row of `r` is the corresponding row of `t` sorted.
pub open spec fn sorted_table_of(r: Seq<Seq<Card>>, t: Seq<Seq<Card>>) -> bool {
    &&& r.len() == t.len()
    &&& forall|i: int| 0 <= i < t.len() ==> sorted_cards(#[trigger] r[i]) && same_cards(r[i], t[i])
}

fn sort_table(t: &Vec<Vec<Card>>) -> (r: Vec<Vec<Card>>)
    requires
        forall|i: int| 0 <= i < t@.len() ==> #[trigger] t@[i]@.len() <= 3,
    ensures
        sorted_table_of(rows(r@), rows(t@)),
{
    let mut r: Vec<Vec<Card>> = Vec::new();
    let mut i: usize = 0;
    while i < t.len()
        invariant
            i <= t@.len(),
            forall|k: int| 0 <= k < t@.len() ==> #[trigger] t@[k]@.len() <= 3,
            r@.len() == i,
            forall|k: int| 0 <= k < i ==> sorted_cards(#[trigger] r@[k]@) && same_cards(r@[k]@, t@[k]@),
        decreases t@.len() - i,
    {
        let row = sort_cards(&t[i]);
        r.push(row);
        i += 1;
    }
    proof {
        assert forall|k: int| 0 <= k < t@.len() implies sorted_cards(#[trigger] rows(r@)[k]) && same_cards(rows(r@)[k], rows(t@)[k]) by {
            lemma_rows(r@, k);
            lemma_rows(t@, k);
        }
    }
    r
}

impl PathDependentCollectiveConstraint {
    /// The dead cards of every row, sorted.
    pub fn sorted_public_constraints(&self) -> (r: Vec<Vec<Card>>)
        requires self.wf(),
        ensures sorted_table_of(rows(r@), self.public_view()),
    {
        proof { self.lemma_wf_rows(); }
        sort_table(&self.public_constraints)
    }

    /// The known held cards of every row, sorted.
    pub fn sorted_inferred_constraints(&self) -> (r: Vec<Vec<Card>>)
        requires self.wf(),
        ensures sorted_table_of(rows(r@), self.inferred_view()),
    {
        proof { self.lemma_wf_rows(); }
        sort_table(&self.inferred_constraints)
    }

    /// A player is alive while fewer than two of their cards are dead.
    pub fn player_is_alive(&self, player_id: usize) -> (r: bool)
        requires
            self.wf(),
            player_id < 7,
        ensures
            r == (self.public_view()[player_id as int].len() < 2),
    {
        proof { self.lemma_wf_rows(); }
        self.public_constraints[player_id].len() < 2
    }

    /// Both cards of the player are known and each of them is `card`.
    pub fn player_constraints_all_full(&self, player_id: usize, card: Card) -> (r: bool)
        requires
            self.wf(),
            player_id < 7,
        ensures
            r == all_full_spec(self.public_view()[player_id as int], self.inferred_view()[player_id as int], card),
    {
        proof { self.lemma_wf_rows(); }
        self.player_cards_known(player_id) == 2
            && all_equal(&self.inferred_constraints[player_id], card)
            && all_equal(&self.public_constraints[player_id], card)
    }

    /// Nothing is known and no group constraint is stored.
    pub fn is_empty(&self) -> (r: bool)
        requires self.wf(),
        ensures
            r == ((forall|i: int| 0 <= i < 7 ==> #[trigger] self.public_view()[i].len() == 0)
                && (forall|i: int| 0 <= i < 7 ==> #[trigger] self.inferred_view()[i].len() == 0)
                && (forall|c: int| 0 <= c < 5 ==> #[trigger] self.groups_view()[c].len() == 0)),
    {
        proof { self.lemma_wf_rows(); }
        let mut i: usize = 0;
        while i < 7
            invariant
                self.wf(),
                i <= 7,
                forall|k: int| 0 <= k < i ==> #[trigger] self.public_view()[k].len() == 0,
                forall|k: int| 0 <= k < i ==> #[trigger] self.inferred_view()[k].len() == 0,
            decreases 7 - i,
        {
            proof { self.lemma_wf_rows(); }
            if self.public_constraints[i].len() != 0 || self.inferred_constraints[i].len() != 0 {
                assert(self.public_view()[i as int].len() != 0 || self.inferred_view()[i as int].len() != 0);
                return false;
            }
            i += 1;
        }
        let mut c: usize = 0;
        while c < 5
            invariant
                self.wf(),
                c <= 5,
                forall|k: int| 0 <= k < 7 ==> #[trigger] self.public_view()[k].len() == 0,
                forall|k: int| 0 <= k < 7 ==> #[trigger] self.inferred_view()[k].len() == 0,
                forall|k: int| 0 <= k < c ==> #[trigger] self.groups_view()[k].len() == 0,
            decreases 5 - c,
        {
            proof { lemma_group_rows(self.group_constraints@, c as int); }
            if self.group_constraints[c].len() != 0 {
                assert(self.groups_view()[c as int].len() != 0);
                return false;
            }
            c += 1;
        }
        true
    }

    /// Copies of each card known to be held by the player (or pile).
    pub fn get_inferred_card_counts(&self, player_id: usize) -> (r: [u8; 5])
        requires self.wf(), player_id < 7,
        ensures forall|c: int| 0 <= c < 5 ==> #[trigger] r@[c] == count_card(self.inferred_view()[player_id as int], card_at(c)),
    {
        proof { self.lemma_wf_rows(); }
        card_counts(&self.inferred_constraints[player_id])
    }

    /// Copies of each card dead for the player; all zero for the pile.
    pub fn get_public_card_counts(&self, player_id: usize) -> (r: [u8; 5])
        requires self.wf(), player_id < 7,
        ensures forall|c: int| 0 <= c < 5 ==> #[trigger] r@[c] ==
            if player_id < 6 { count_card(self.public_view()[player_id as int], card_at(c)) } else { 0 },
    {
        proof { self.lemma_wf_rows(); }
        if player_id < 6 {
            card_counts(&self.public_constraints[player_id])
        } else {
            [0; 5]
        }
    }

    /// The group adds nothing: every living player outside it is excluded and the pile is in it.
    pub fn is_known_information(&self, group: &CompressedGroupConstraint) -> (r: bool)
        requires self.wf(),
        ensures
            r == (group.pflag(6) && forall|p: int| 0 <= p < 6 ==>
                (!#[trigger] group.pflag(p) ==> self.public_view()[p].len() >= 2)),
    {
        let participation_list: [bool; 7] = group.get_list();
        let mut player_id: usize = 0;
        while player_id < 6
            invariant
                self.wf(),
                player_id <= 6,
                forall|j: int| 0 <= j < 7 ==> #[trigger] participation_list@[j] == group.pflag(j),
                forall|p: int| 0 <= p < player_id ==> (!#[trigger] group.pflag(p) ==> self.public_view()[p].len() >= 2),
            decreases 6 - player_id,
        {
            if !participation_list[player_id] && self.player_is_alive(player_id) {
                return false;
            }
            player_id += 1;
        }
        participation_list[6]
    }

    /// Dead copies of `card` of the player.
    pub fn player_dead_card_count(&self, player_id: usize, card: Card) -> (r: u8)
        requires self.wf(), player_id < 7,
        ensures r == count_card(self.public_view()[player_id as int], card),
    {
        proof { self.lemma_wf_rows(); }
        count_in(&self.public_constraints[player_id], card)
    }

    /// Cards of the player not yet dead.
    pub fn player_lives(&self, player_id: usize) -> (r: u8)
        requires self.wf(), player_id < 7,
        ensures r == 2 - self.public_view()[player_id as int].len(),
    {
        proof { self.lemma_wf_rows(); }
        2 - self.public_constraints[player_id].len() as u8
    }

    /// Dead copies of each card of the player.
    pub fn player_dead_card_counts(&self, player_id: usize) -> (r: [u8; 5])
        requires self.wf(), player_id < 7,
        ensures forall|c: int| 0 <= c < 5 ==> #[trigger] r@[c] == count_card(self.public_view()[player_id as int], card_at(c)),
    {
        proof { self.lemma_wf_rows(); }
        card_counts(&self.public_constraints[player_id])
    }

    /// Known held copies of `card` of the player.
    pub fn player_inferred_card_count(&self, player_id: usize, card: Card) -> (r: u8)
        requires self.wf(), player_id < 7,
        ensures r == count_card(self.inferred_view()[player_id as int], card),
    {
        proof { self.lemma_wf_rows(); }
        count_in(&self.inferred_constraints[player_id], card)
    }

    /// Known held copies of each card of the player.
    pub fn player_inferred_card_counts(&self, player_id: usize) -> (r: [u8; 5])
        requires self.wf(), player_id < 7,
        ensures forall|c: int| 0 <= c < 5 ==> #[trigger] r@[c] == count_card(self.inferred_view()[player_id as int], card_at(c)),
    {
        proof { self.lemma_wf_rows(); }
        card_counts(&self.inferred_constraints[player_id])
    }

    /// Dead copies of each card over all players.
    pub fn dead_card_count(&self) -> (r: [u8; 5])
        requires self.wf(),
        ensures forall|c: int| 0 <= c < 5 ==> #[trigger] r@[c] == table_count(self.public_view(), card_at(c)),
    {
        proof { self.lemma_wf_rows(); }
        table_card_counts(&self.public_constraints)
    }

    /// Number of known cards of the player, dead or alive.
    pub fn player_cards_known(&self, player_id: usize) -> (r: u8)
        requires self.wf(), player_id < 7,
        ensures r == self.public_view()[player_id as int].len() + self.inferred_view()[player_id as int].len(),
    {
        proof { self.lemma_wf_rows(); }
        (self.public_constraints[player_id].len() + self.inferred_constraints[player_id].len()) as u8
    }

    /// Whether the player (or pile) is known to hold `card`.
    pub fn inferred_player_constraint_contains(&self, player_id: usize, card: Card) -> (r: bool)
        requires self.wf(), player_id < 7,
        ensures r == self.inferred_view()[player_id as int].contains(card),
    {
        proof { self.lemma_wf_rows(); }
        contains_card(&self.inferred_constraints[player_id], card)
    }
}

} // verus!
