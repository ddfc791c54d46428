use vstd::prelude::*;
use crate::card::{Card, card_index};

verus! {

/// A constraint saying that, among the players whose participation flag is set
/// (indices 0..6 are players, 6 is the pile), there are `alive` living and `dead`
/// dead copies of `card`, out of `total` copies tracked by the group.
/// The single-card flags mark participants known to hold at most one copy.
/// Every count lies in 0..=3, since there are only three copies of each card.
#[derive(Clone, Copy, Debug, PartialEq, Eq, Structural, Hash)]
pub struct CompressedGroupConstraint {
    p0: bool,
    p1: bool,
    p2: bool,
    p3: bool,
    p4: bool,
    p5: bool,
    p6: bool,
    s0: bool,
    s1: bool,
    s2: bool,
    s3: bool,
    s4: bool,
    s5: bool,
    s6: bool,
    card: Card,
    alive: u8,
    dead: u8,
    total: u8,
}

/// Clamps a count to the three copies that exist.
pub open spec fn clamp3(n: int) -> int {
    if n > 3 { 3 } else if n < 0 { 0 } else { n }
}

fn clamp_u8(n: u8) -> (r: u8)
    ensures r == clamp3(n as int),
{
    if n > 3 { 3 } else { n }
}

fn add_clamped(a: u8, b: u8) -> (r: u8)
    requires a <= 3,
    ensures r == clamp3(a + b),
{
    if b >= 3 - a { 3 } else { a + b }
}

fn sub_floor(a: u8, b: u8) -> (r: u8)
    requires a <= 3,
    ensures r == clamp3(a - b),
{
    if b >= a { 0 } else { a - b }
}

impl CompressedGroupConstraint {
    #[verifier::type_invariant]
    spec fn counts_in_range(self) -> bool {
        self.alive <= 3 && self.dead <= 3 && self.total <= 3
    }

    /// Participation flag of player `i` (6 is the pile).
    pub closed spec fn pflag(self, i: int) -> bool {
        if i == 0 { self.p0 } else if i == 1 { self.p1 } else if i == 2 { self.p2 }
        else if i == 3 { self.p3 } else if i == 4 { self.p4 } else if i == 5 { self.p5 }
        else if i == 6 { self.p6 } else { false }
    }

    /// Single-card flag of player `i`.
    pub closed spec fn sflag(self, i: int) -> bool {
        if i == 0 { self.s0 } else if i == 1 { self.s1 } else if i == 2 { self.s2 }
        else if i == 3 { self.s3 } else if i == 4 { self.s4 } else if i == 5 { self.s5 }
        else if i == 6 { self.s6 } else { false }
    }

    pub closed spec fn card_spec(self) -> Card { self.card }
    pub closed spec fn alive_spec(self) -> nat { self.alive as nat }
    pub closed spec fn dead_spec(self) -> nat { self.dead as nat }
    pub closed spec fn total_spec(self) -> nat { self.total as nat }

    /// The participation list as a sequence of seven flags.
    pub open spec fn plist(self) -> Seq<bool> {
        Seq::new(7, |i: int| self.pflag(i))
    }

    /// The single-card flags as a sequence of seven flags.
    pub open spec fn slist(self) -> Seq<bool> {
        Seq::new(7, |i: int| self.sflag(i))
    }

    /// Everything but the participation flags agrees.
    pub open spec fn same_but_pflags(self, o: Self) -> bool {
        &&& forall|i: int| #[trigger] self.sflag(i) == o.sflag(i)
        &&& self.card_spec() == o.card_spec()
        &&& self.alive_spec() == o.alive_spec()
        &&& self.dead_spec() == o.dead_spec()
        &&& self.total_spec() == o.total_spec()
    }

    /// Everything but the card agrees.
    pub open spec fn same_flags_counts(self, o: Self) -> bool {
        &&& forall|i: int| #[trigger] self.pflag(i) == o.pflag(i)
        &&& forall|i: int| #[trigger] self.sflag(i) == o.sflag(i)
        &&& self.alive_spec() == o.alive_spec()
        &&& self.dead_spec() == o.dead_spec()
        &&& self.total_spec() == o.total_spec()
    }

    /// Everything but the counts agrees.
    pub open spec fn same_flags_and_card(self, o: Self) -> bool {
        &&& forall|i: int| #[trigger] self.pflag(i) == o.pflag(i)
        &&& forall|i: int| #[trigger] self.sflag(i) == o.sflag(i)
        &&& self.card_spec() == o.card_spec()
    }
}

/// Two groups that agree on every flag, the card and every count are the same group.
pub proof fn lemma_group_ext(a: CompressedGroupConstraint, b: CompressedGroupConstraint)
    requires
        forall|i: int| 0 <= i < 7 ==> #[trigger] a.pflag(i) == b.pflag(i),
        forall|i: int| 0 <= i < 7 ==> #[trigger] a.sflag(i) == b.sflag(i),
        a.card_spec() == b.card_spec(),
        a.alive_spec() == b.alive_spec(),
        a.dead_spec() == b.dead_spec(),
        a.total_spec() == b.total_spec(),
    ensures
        a == b,
{
    assert(a.pflag(0) == b.pflag(0) && a.pflag(1) == b.pflag(1) && a.pflag(2) == b.pflag(2) && a.pflag(3) == b.pflag(3)
        && a.pflag(4) == b.pflag(4) && a.pflag(5) == b.pflag(5) && a.pflag(6) == b.pflag(6));
    assert(a.sflag(0) == b.sflag(0) && a.sflag(1) == b.sflag(1) && a.sflag(2) == b.sflag(2) && a.sflag(3) == b.sflag(3)
        && a.sflag(4) == b.sflag(4) && a.sflag(5) == b.sflag(5) && a.sflag(6) == b.sflag(6));
}

/// The indices below `n` whose flag is set in `f`, in increasing order.
pub open spec fn flag_list(f: Seq<bool>, n: int) -> Seq<usize>
    decreases n,
{
    if n <= 0 {
        Seq::empty()
    } else if f[n - 1] {
        flag_list(f, n - 1).push((n - 1) as usize)
    } else {
        flag_list(f, n - 1)
    }
}

/// Every flag set in `a` is set in `b`.
pub open spec fn subset_flags(a: Seq<bool>, b: Seq<bool>) -> bool {
    forall|i: int| 0 <= i < 7 && #[trigger] a[i] ==> b[i]
}

/// No flag is set in both.
pub open spec fn disjoint_flags(a: Seq<bool>, b: Seq<bool>) -> bool {
    forall|i: int| 0 <= i < 7 ==> !(#[trigger] a[i] && b[i])
}

/// Number of flags set among the first `n`.
pub open spec fn count_flags(a: Seq<bool>, n: int) -> int
    decreases n,
{
    if n <= 0 { 0 } else { count_flags(a, n - 1) + if a[n - 1] { 1int } else { 0int } }
}

} // verus!

verus! {

impl CompressedGroupConstraint {
    /// The group with no participant, no single-card flag, card Ambassador and zero counts.
    pub fn zero() -> (r: Self)
        ensures
            forall|i: int| !r.pflag(i) && !r.sflag(i),
            r.card_spec() == Card::Ambassador,
            r.alive_spec() == 0 && r.dead_spec() == 0 && r.total_spec() == 0,
    {
        CompressedGroupConstraint {
            p0: false, p1: false, p2: false, p3: false, p4: false, p5: false, p6: false,
            s0: false, s1: false, s2: false, s3: false, s4: false, s5: false, s6: false,
            card: Card::Ambassador, alive: 0, dead: 0, total: 0,
        }
    }

    pub fn get_player_flag(&self, i: usize) -> (r: bool)
        requires i < 7,
        ensures r == self.pflag(i as int),
    {
        match i {
            0 => self.p0, 1 => self.p1, 2 => self.p2, 3 => self.p3,
            4 => self.p4, 5 => self.p5, _ => self.p6,
        }
    }

    pub fn get_single_card_flag(&self, i: usize) -> (r: bool)
        requires i < 7,
        ensures r == self.sflag(i as int),
    {
        match i {
            0 => self.s0, 1 => self.s1, 2 => self.s2, 3 => self.s3,
            4 => self.s4, 5 => self.s5, _ => self.s6,
        }
    }

    #[verifier::rlimit(100)]
    pub fn set_player_flag(&mut self, i: usize, b: bool)
        requires i < 7,
        ensures
            forall|j: int| #[trigger] final(self).pflag(j) == if j == i { b } else { old(self).pflag(j) },
            final(self).same_but_pflags(*old(self)),
    {
        proof { use_type_invariant(&*self); }
        if i == 0 { self.p0 = b; } else if i == 1 { self.p1 = b; } else if i == 2 { self.p2 = b; }
        else if i == 3 { self.p3 = b; } else if i == 4 { self.p4 = b; } else if i == 5 { self.p5 = b; }
        else { self.p6 = b; }
    }

    #[verifier::rlimit(100)]
    pub fn set_single_card_flag(&mut self, i: usize, b: bool)
        requires i < 7,
        ensures
            forall|j: int| #[trigger] final(self).sflag(j) == if j == i { b } else { old(self).sflag(j) },
            forall|j: int| #[trigger] final(self).pflag(j) == old(self).pflag(j),
            final(self).card_spec() == old(self).card_spec(),
            final(self).alive_spec() == old(self).alive_spec(),
            final(self).dead_spec() == old(self).dead_spec(),
            final(self).total_spec() == old(self).total_spec(),
    {
        proof { use_type_invariant(&*self); }
        if i == 0 { self.s0 = b; } else if i == 1 { self.s1 = b; } else if i == 2 { self.s2 = b; }
        else if i == 3 { self.s3 = b; } else if i == 4 { self.s4 = b; } else if i == 5 { self.s5 = b; }
        else { self.s6 = b; }
    }

    pub fn card(&self) -> (r: Card)
        ensures r == self.card_spec(),
    {
        self.card
    }

    pub fn card_num(&self) -> (r: usize)
        ensures r == card_index(self.card_spec()), r < 5,
    {
        self.card.num()
    }

    pub fn set_card(&mut self, card: Card)
        ensures
            final(self).card_spec() == card,
            final(self).same_flags_counts(*old(self)),
    {
        proof { use_type_invariant(&*self); }
        self.card = card;
    }

    pub fn count_alive(&self) -> (r: u8)
        ensures r == self.alive_spec(), r <= 3,
    {
        proof { use_type_invariant(self); }
        self.alive
    }

    pub fn count_dead(&self) -> (r: u8)
        ensures r == self.dead_spec(), r <= 3,
    {
        proof { use_type_invariant(self); }
        self.dead
    }

    /// Living and dead copies together.
    pub fn count(&self) -> (r: u8)
        ensures r == self.alive_spec() + self.dead_spec(), r <= 6,
    {
        proof { use_type_invariant(self); }
        self.alive + self.dead
    }

    pub fn get_total_count(&self) -> (r: u8)
        ensures r == self.total_spec(), r <= 3,
    {
        proof { use_type_invariant(self); }
        self.total
    }

    pub fn set_alive_count(&mut self, n: u8)
        ensures
            final(self).alive_spec() == clamp3(n as int),
            final(self).same_flags_and_card(*old(self)),
            final(self).dead_spec() == old(self).dead_spec(),
            final(self).total_spec() == old(self).total_spec(),
    {
        proof { use_type_invariant(&*self); }
        self.alive = clamp_u8(n);
    }

    pub fn set_dead_count(&mut self, n: u8)
        ensures
            final(self).dead_spec() == clamp3(n as int),
            final(self).same_flags_and_card(*old(self)),
            final(self).alive_spec() == old(self).alive_spec(),
            final(self).total_spec() == old(self).total_spec(),
    {
        proof { use_type_invariant(&*self); }
        self.dead = clamp_u8(n);
    }

    pub fn set_total_count(&mut self, n: u8)
        ensures
            final(self).total_spec() == clamp3(n as int),
            final(self).same_flags_and_card(*old(self)),
            final(self).alive_spec() == old(self).alive_spec(),
            final(self).dead_spec() == old(self).dead_spec(),
    {
        proof { use_type_invariant(&*self); }
        self.total = clamp_u8(n);
    }

    pub fn add_alive_count(&mut self, n: u8)
        ensures
            final(self).alive_spec() == clamp3(old(self).alive_spec() + n),
            final(self).same_flags_and_card(*old(self)),
            final(self).dead_spec() == old(self).dead_spec(),
            final(self).total_spec() == old(self).total_spec(),
    {
        proof { use_type_invariant(&*self); }
        self.alive = add_clamped(self.alive, n);
    }

    pub fn sub_alive_count(&mut self, n: u8)
        ensures
            final(self).alive_spec() == clamp3(old(self).alive_spec() - n),
            final(self).same_flags_and_card(*old(self)),
            final(self).dead_spec() == old(self).dead_spec(),
            final(self).total_spec() == old(self).total_spec(),
    {
        proof { use_type_invariant(&*self); }
        self.alive = sub_floor(self.alive, n);
    }

    pub fn add_dead_count(&mut self, n: u8)
        ensures
            final(self).dead_spec() == clamp3(old(self).dead_spec() + n),
            final(self).same_flags_and_card(*old(self)),
            final(self).alive_spec() == old(self).alive_spec(),
            final(self).total_spec() == old(self).total_spec(),
    {
        proof { use_type_invariant(&*self); }
        self.dead = add_clamped(self.dead, n);
    }

    pub fn sub_dead_count(&mut self, n: u8)
        ensures
            final(self).dead_spec() == clamp3(old(self).dead_spec() - n),
            final(self).same_flags_and_card(*old(self)),
            final(self).alive_spec() == old(self).alive_spec(),
            final(self).total_spec() == old(self).total_spec(),
    {
        proof { use_type_invariant(&*self); }
        self.dead = sub_floor(self.dead, n);
    }

    pub fn add_total_count(&mut self, n: u8)
        ensures
            final(self).total_spec() == clamp3(old(self).total_spec() + n),
            final(self).same_flags_and_card(*old(self)),
            final(self).alive_spec() == old(self).alive_spec(),
            final(self).dead_spec() == old(self).dead_spec(),
    {
        proof { use_type_invariant(&*self); }
        self.total = add_clamped(self.total, n);
    }

    pub fn sub_total_count(&mut self, n: u8)
        ensures
            final(self).total_spec() == clamp3(old(self).total_spec() - n),
            final(self).same_flags_and_card(*old(self)),
            final(self).alive_spec() == old(self).alive_spec(),
            final(self).dead_spec() == old(self).dead_spec(),
    {
        proof { use_type_invariant(&*self); }
        self.total = sub_floor(self.total, n);
    }
}


impl CompressedGroupConstraint {
    /// Every participant of `self` participates in `other`.
    pub fn part_list_is_subset_of(&self, other: &Self) -> (r: bool)
        ensures r == subset_flags(self.plist(), other.plist()),
    {
        let mut i: usize = 0;
        while i < 7
            invariant
                i <= 7,
                forall|j: int| 0 <= j < i ==> (self.pflag(j) ==> other.pflag(j)),
            decreases 7 - i,
        {
            if self.get_player_flag(i) && !other.get_player_flag(i) {
                assert(self.plist()[i as int] && !other.plist()[i as int]);
                return false;
            }
            i += 1;
        }
        true
    }

    /// Every participant is `player_id` or the pile.
    pub fn part_list_is_subset_of_player_and_pile(&self, player_id: usize) -> (r: bool)
        ensures r == forall|j: int| 0 <= j < 7 && #[trigger] self.pflag(j) ==> (j == player_id || j == 6),
    {
        let mut i: usize = 0;
        while i < 7
            invariant
                i <= 7,
                forall|j: int| 0 <= j < i && #[trigger] self.pflag(j) ==> (j == player_id || j == 6),
            decreases 7 - i,
        {
            if self.get_player_flag(i) && i != player_id && i != 6 {
                return false;
            }
            i += 1;
        }
        true
    }

    /// No participant is shared with `other`.
    pub fn part_list_is_mut_excl(&self, other: &Self) -> (r: bool)
        ensures r == disjoint_flags(self.plist(), other.plist()),
    {
        let mut i: usize = 0;
        while i < 7
            invariant
                i <= 7,
                forall|j: int| 0 <= j < i ==> !(self.pflag(j) && other.pflag(j)),
            decreases 7 - i,
        {
            if self.get_player_flag(i) && other.get_player_flag(i) {
                assert(self.plist()[i as int] && other.plist()[i as int]);
                return false;
            }
            i += 1;
        }
        true
    }

    /// The single-card flags agree.
    pub fn single_card_flags_equal(&self, other: &Self) -> (r: bool)
        ensures r == (forall|j: int| 0 <= j < 7 ==> #[trigger] self.sflag(j) == other.sflag(j)),
    {
        let mut i: usize = 0;
        while i < 7
            invariant
                i <= 7,
                forall|j: int| 0 <= j < i ==> #[trigger] self.sflag(j) == other.sflag(j),
            decreases 7 - i,
        {
            if self.get_single_card_flag(i) != other.get_single_card_flag(i) {
                return false;
            }
            i += 1;
        }
        true
    }

    /// Every single-card flag of `self` is set in `other`.
    pub fn single_card_flags_is_subset_of(&self, other: &Self) -> (r: bool)
        ensures r == subset_flags(self.slist(), other.slist()),
    {
        let mut i: usize = 0;
        while i < 7
            invariant
                i <= 7,
                forall|j: int| 0 <= j < i ==> (self.sflag(j) ==> other.sflag(j)),
            decreases 7 - i,
        {
            if self.get_single_card_flag(i) && !other.get_single_card_flag(i) {
                assert(self.slist()[i as int] && !other.slist()[i as int]);
                return false;
            }
            i += 1;
        }
        true
    }

    /// Nobody participates.
    pub fn none_in(&self) -> (r: bool)
        ensures r == (forall|j: int| 0 <= j < 7 ==> !#[trigger] self.pflag(j)),
    {
        let mut i: usize = 0;
        while i < 7
            invariant
                i <= 7,
                forall|j: int| 0 <= j < i ==> !#[trigger] self.pflag(j),
            decreases 7 - i,
        {
            if self.get_player_flag(i) {
                return false;
            }
            i += 1;
        }
        true
    }

    /// Number of participants.
    pub fn part_list_count(&self) -> (r: u8)
        ensures r == count_flags(self.plist(), 7), r <= 7,
    {
        let mut n: u8 = 0;
        let mut i: usize = 0;
        while i < 7
            invariant
                i <= 7,
                n == count_flags(self.plist(), i as int),
                n <= i,
            decreases 7 - i,
        {
            if self.get_player_flag(i) {
                n += 1;
            }
            i += 1;
        }
        n
    }

    /// Number of single-card flags set.
    pub fn single_card_flag_counts(&self) -> (r: u8)
        ensures r == count_flags(self.slist(), 7), r <= 7,
    {
        let mut n: u8 = 0;
        let mut i: usize = 0;
        while i < 7
            invariant
                i <= 7,
                n == count_flags(self.slist(), i as int),
                n <= i,
            decreases 7 - i,
        {
            if self.get_single_card_flag(i) {
                n += 1;
            }
            i += 1;
        }
        n
    }

    /// Exactly one participant.
    pub fn is_single_player_part_list(&self) -> (r: bool)
        ensures r == (count_flags(self.plist(), 7) == 1),
    {
        self.part_list_count() == 1
    }

    /// The participation list as an array.
    pub fn get_list(&self) -> (r: [bool; 7])
        ensures forall|j: int| 0 <= j < 7 ==> #[trigger] r@[j] == self.pflag(j),
    {
        [self.get_player_flag(0), self.get_player_flag(1), self.get_player_flag(2),
         self.get_player_flag(3), self.get_player_flag(4), self.get_player_flag(5),
         self.get_player_flag(6)]
    }

    /// The participants, as an array of flags.
    pub fn get_set_players(&self) -> (r: [bool; 7])
        ensures forall|j: int| 0 <= j < 7 ==> #[trigger] r@[j] == self.pflag(j),
    {
        self.get_list()
    }

    /// The participants in increasing order.
    pub fn iter_true_player_flags(&self) -> (r: Vec<usize>)
        ensures
            forall|k: int| 0 <= k < r@.len() ==> r@[k] < 7 && self.pflag(r@[k] as int),
            forall|j: int| 0 <= j < 7 && #[trigger] self.pflag(j) ==> r@.contains(j as usize),
            forall|a: int, b: int| 0 <= a < b < r@.len() ==> r@[a] < r@[b],
            r@.len() <= 7,
            r@ == flag_list(self.plist(), 7),
    {
        let mut v: Vec<usize> = Vec::new();
        let mut i: usize = 0;
        while i < 7
            invariant
                i <= 7,
                v@ == flag_list(self.plist(), i as int),
                forall|k: int| 0 <= k < v@.len() ==> v@[k] < i && self.pflag(v@[k] as int),
                forall|j: int| 0 <= j < i && #[trigger] self.pflag(j) ==> v@.contains(j as usize),
                forall|a: int, b: int| 0 <= a < b < v@.len() ==> v@[a] < v@[b],
                v@.len() <= i,
            decreases 7 - i,
        {
            if self.get_player_flag(i) {
                let ghost old_v = v@;
                v.push(i);
                assert forall|j: int| 0 <= j < i + 1 && #[trigger] self.pflag(j) implies v@.contains(j as usize) by {
                    if j < i {
                        let k = choose|k: int| 0 <= k < old_v.len() && old_v[k] == j as usize;
                        assert(v@[k] == j as usize);
                    } else {
                        assert(v@[v@.len() - 1] == i);
                    }
                }
            }
            i += 1;
        }
        v
    }

    /// The players and pile not participating, in increasing order.
    pub fn iter_false_player_flags(&self) -> (r: Vec<usize>)
        ensures
            forall|k: int| 0 <= k < r@.len() ==> r@[k] < 7 && !self.pflag(r@[k] as int),
            forall|j: int| 0 <= j < 7 && !#[trigger] self.pflag(j) ==> r@.contains(j as usize),
            forall|a: int, b: int| 0 <= a < b < r@.len() ==> r@[a] < r@[b],
            r@.len() <= 7,
    {
        let mut v: Vec<usize> = Vec::new();
        let mut i: usize = 0;
        while i < 7
            invariant
                i <= 7,
                forall|k: int| 0 <= k < v@.len() ==> v@[k] < i && !self.pflag(v@[k] as int),
                forall|j: int| 0 <= j < i && !#[trigger] self.pflag(j) ==> v@.contains(j as usize),
                forall|a: int, b: int| 0 <= a < b < v@.len() ==> v@[a] < v@[b],
                v@.len() <= i,
            decreases 7 - i,
        {
            if !self.get_player_flag(i) {
                let ghost old_v = v@;
                v.push(i);
                assert forall|j: int| 0 <= j < i + 1 && !#[trigger] self.pflag(j) implies v@.contains(j as usize) by {
                    if j < i {
                        let k = choose|k: int| 0 <= k < old_v.len() && old_v[k] == j as usize;
                        assert(v@[k] == j as usize);
                    } else {
                        assert(v@[v@.len() - 1] == i);
                    }
                }
            }
            i += 1;
        }
        v
    }

    /// A blank group with the same participants: no single-card flags, card Ambassador, zero counts.
    pub fn get_blank_part_list(&self) -> (r: Self)
        ensures
            forall|j: int| #[trigger] r.pflag(j) == self.pflag(j),
            forall|j: int| !#[trigger] r.sflag(j),
            r.card_spec() == Card::Ambassador,
            r.alive_spec() == 0 && r.dead_spec() == 0 && r.total_spec() == 0,
    {
        CompressedGroupConstraint {
            p0: self.p0, p1: self.p1, p2: self.p2, p3: self.p3, p4: self.p4, p5: self.p5, p6: self.p6,
            s0: false, s1: false, s2: false, s3: false, s4: false, s5: false, s6: false,
            card: Card::Ambassador, alive: 0, dead: 0, total: 0,
        }
    }

    /// A blank group with the same participants and single-card flags.
    pub fn get_blank_part_list_and_single_card_flags(&self) -> (r: Self)
        ensures
            forall|j: int| #[trigger] r.pflag(j) == self.pflag(j),
            forall|j: int| #[trigger] r.sflag(j) == self.sflag(j),
            r.card_spec() == Card::Ambassador,
            r.alive_spec() == 0 && r.dead_spec() == 0 && r.total_spec() == 0,
    {
        CompressedGroupConstraint {
            p0: self.p0, p1: self.p1, p2: self.p2, p3: self.p3, p4: self.p4, p5: self.p5, p6: self.p6,
            s0: self.s0, s1: self.s1, s2: self.s2, s3: self.s3, s4: self.s4, s5: self.s5, s6: self.s6,
            card: Card::Ambassador, alive: 0, dead: 0, total: 0,
        }
    }
}


impl CompressedGroupConstraint {
    /// The group holding `player_id` and the pile, for `card`, with `dead_count` dead and
    /// `alive_count` living copies; its total is their sum, at most three.
    pub fn new_with_pile(player_id: usize, card: Card, dead_count: u8, alive_count: u8) -> (r: Self)
        requires player_id < 7,
        ensures
            forall|j: int| #[trigger] r.pflag(j) == (j == player_id || j == 6),
            forall|j: int| !#[trigger] r.sflag(j),
            r.card_spec() == card,
            r.dead_spec() == clamp3(dead_count as int),
            r.alive_spec() == clamp3(alive_count as int),
            r.total_spec() == clamp3(clamp3(dead_count as int) + clamp3(alive_count as int)),
    {
        let d = clamp_u8(dead_count);
        let a = clamp_u8(alive_count);
        CompressedGroupConstraint {
            p0: player_id == 0, p1: player_id == 1, p2: player_id == 2, p3: player_id == 3,
            p4: player_id == 4, p5: player_id == 5, p6: true,
            s0: false, s1: false, s2: false, s3: false, s4: false, s5: false, s6: false,
            card, alive: a, dead: d, total: add_clamped(d, a),
        }
    }

    /// The union of two groups of disjoint participants: flags are joined and counts added
    /// (each at most three); the card is the first group's.
    pub fn mutually_exclusive_union(a: Self, b: Self) -> (r: Self)
        ensures
            forall|j: int| #[trigger] r.pflag(j) == (a.pflag(j) || b.pflag(j)),
            forall|j: int| #[trigger] r.sflag(j) == (a.sflag(j) || b.sflag(j)),
            r.card_spec() == a.card_spec(),
            r.alive_spec() == clamp3((a.alive_spec() + b.alive_spec()) as int),
            r.dead_spec() == clamp3((a.dead_spec() + b.dead_spec()) as int),
            r.total_spec() == clamp3((a.total_spec() + b.total_spec()) as int),
    {
        proof { use_type_invariant(&a); use_type_invariant(&b); }
        CompressedGroupConstraint {
            p0: a.p0 || b.p0, p1: a.p1 || b.p1, p2: a.p2 || b.p2, p3: a.p3 || b.p3,
            p4: a.p4 || b.p4, p5: a.p5 || b.p5, p6: a.p6 || b.p6,
            s0: a.s0 || b.s0, s1: a.s1 || b.s1, s2: a.s2 || b.s2, s3: a.s3 || b.s3,
            s4: a.s4 || b.s4, s5: a.s5 || b.s5, s6: a.s6 || b.s6,
            card: a.card,
            alive: add_clamped(a.alive, b.alive),
            dead: add_clamped(a.dead, b.dead),
            total: add_clamped(a.total, b.total),
        }
    }

    /// Card slots held by the participants: two per player, three for the pile.
    pub fn max_spaces(&self) -> (r: u8)
        ensures r == 2 * count_flags(self.plist(), 6) + (if self.pflag(6) { 3int } else { 0int }), r <= 15,
    {
        let mut n: u8 = 0;
        let mut i: usize = 0;
        while i < 6
            invariant
                i <= 6,
                n == 2 * count_flags(self.plist(), i as int),
                n <= 2 * i,
            decreases 6 - i,
        {
            if self.get_player_flag(i) {
                n += 2;
            }
            i += 1;
        }
        if self.get_player_flag(6) {
            n += 3;
        }
        n
    }

    /// Same as `max_spaces`: the card slots of the participants.
    pub fn get_slots(&self) -> (r: u8)
        ensures r == 2 * count_flags(self.plist(), 6) + (if self.pflag(6) { 3int } else { 0int }), r <= 15,
    {
        self.max_spaces()
    }
}


/// `w` when `b` is set, else zero.
pub open spec fn bit(b: bool, w: int) -> int {
    if b { w } else { 0 }
}

impl CompressedGroupConstraint {
    /// The participation flags as a number, flag `i` worth `2^i`.
    pub closed spec fn pbits(self) -> int {
        bit(self.p0, 1) + bit(self.p1, 2) + bit(self.p2, 4) + bit(self.p3, 8)
            + bit(self.p4, 16) + bit(self.p5, 32) + bit(self.p6, 64)
    }

    /// The single-card flags as a number, flag `i` worth `2^i`.
    pub closed spec fn sbits(self) -> int {
        bit(self.s0, 1) + bit(self.s1, 2) + bit(self.s2, 4) + bit(self.s3, 8)
            + bit(self.s4, 16) + bit(self.s5, 32) + bit(self.s6, 64)
    }

    /// The numeric key of the group: participation flags in bits 0..7, single-card flags in
    /// bits 7..14, then the card (from bit 14), the living (from bit 17), dead (from bit 19)
    /// and total (from bit 21) counts.
    pub closed spec fn key(self) -> int {
        self.pbits() + self.sbits() * 128 + card_index(self.card) * 16384 + self.alive * 131072
            + self.dead * 524288 + self.total * 2097152
    }

    fn pnum(&self) -> (r: u64)
        ensures r == self.pbits(), r < 128,
    {
        let a: u64 = if self.p0 { 1 } else { 0 };
        let b: u64 = if self.p1 { 2 } else { 0 };
        let c: u64 = if self.p2 { 4 } else { 0 };
        let d: u64 = if self.p3 { 8 } else { 0 };
        let e: u64 = if self.p4 { 16 } else { 0 };
        let f: u64 = if self.p5 { 32 } else { 0 };
        let g: u64 = if self.p6 { 64 } else { 0 };
        a + b + c + d + e + f + g
    }

    fn snum(&self) -> (r: u64)
        ensures r == self.sbits(), r < 128,
    {
        let a: u64 = if self.s0 { 1 } else { 0 };
        let b: u64 = if self.s1 { 2 } else { 0 };
        let c: u64 = if self.s2 { 4 } else { 0 };
        let d: u64 = if self.s3 { 8 } else { 0 };
        let e: u64 = if self.s4 { 16 } else { 0 };
        let f: u64 = if self.s5 { 32 } else { 0 };
        let g: u64 = if self.s6 { 64 } else { 0 };
        a + b + c + d + e + f + g
    }

    /// The numeric key by which groups are ordered before they are processed.
    pub(crate) fn num(&self) -> (r: u64)
        ensures r == self.key(),
    {
        proof { use_type_invariant(self); }
        let p = self.pnum();
        let s = self.snum();
        let c = self.card.num() as u64;
        let alive = self.alive as u64;
        let dead = self.dead as u64;
        let total = self.total as u64;
        p + s * 128 + c * 16384 + alive * 131072 + dead * 524288 + total * 2097152
    }
}

} // verus!
