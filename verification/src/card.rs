use vstd::prelude::*;

verus! {

/// One of the five character cards of the game; three copies of each exist.
#[derive(Clone, Copy, Debug, PartialEq, Eq, Structural, Hash)]
pub enum Card {
    Ambassador,
    Assassin,
    Captain,
    Duke,
    Contessa,
}

/// Number of copies of every card in the deck.
pub const CARD_COPIES: u8 = 3;

/// Position of a card in the fixed order Ambassador, Assassin, Captain, Duke, Contessa.
pub open spec fn card_index(c: Card) -> int {
    match c {
        Card::Ambassador => 0,
        Card::Assassin => 1,
        Card::Captain => 2,
        Card::Duke => 3,
        Card::Contessa => 4,
    }
}

/// The card at a position of the fixed order.
pub open spec fn card_at(n: int) -> Card {
    if n == 0 {
        Card::Ambassador
    } else if n == 1 {
        Card::Assassin
    } else if n == 2 {
        Card::Captain
    } else if n == 3 {
        Card::Duke
    } else {
        Card::Contessa
    }
}

pub proof fn lemma_card_index_roundtrip(c: Card)
    ensures
        0 <= card_index(c) < 5,
        card_at(card_index(c)) == c,
{
}

impl Card {
    /// The position of the card, used to index per-card arrays.
    pub fn num(self) -> (r: usize)
        ensures
            r == card_index(self),
            r < 5,
    {
        match self {
            Card::Ambassador => 0,
            Card::Assassin => 1,
            Card::Captain => 2,
            Card::Duke => 3,
            Card::Contessa => 4,
        }
    }

    /// The card at position `n`; `None` when `n` is not below five.
    pub fn try_from_num(n: u8) -> (r: Option<Card>)
        ensures
            n < 5 ==> r == Some(card_at(n as int)),
            n >= 5 ==> r is None,
    {
        if n == 0 {
            Some(Card::Ambassador)
        } else if n == 1 {
            Some(Card::Assassin)
        } else if n == 2 {
            Some(Card::Captain)
        } else if n == 3 {
            Some(Card::Duke)
        } else if n == 4 {
            Some(Card::Contessa)
        } else {
            None
        }
    }

    /// The card at position `n` of the fixed order.
    pub fn from_num(n: usize) -> (r: Card)
        requires
            n < 5,
        ensures
            r == card_at(n as int),
            card_index(r) == n,
    {
        if n == 0 {
            Card::Ambassador
        } else if n == 1 {
            Card::Assassin
        } else if n == 2 {
            Card::Captain
        } else if n == 3 {
            Card::Duke
        } else {
            Card::Contessa
        }
    }
}

/// Number of occurrences of `c` in `s`.
pub open spec fn count_card(s: Seq<Card>, c: Card) -> nat
    decreases s.len(),
{
    if s.len() == 0 {
        0
    } else {
        count_card(s.drop_last(), c) + if s.last() == c { 1nat } else { 0nat }
    }
}

pub proof fn lemma_count_card_le_len(s: Seq<Card>, c: Card)
    ensures
        count_card(s, c) <= s.len(),
    decreases s.len(),
{
    if s.len() > 0 {
        lemma_count_card_le_len(s.drop_last(), c);
    }
}

/// A card occurs in a sequence exactly when it is counted there.
pub proof fn lemma_count_card_contains(s: Seq<Card>, c: Card)
    ensures
        (count_card(s, c) > 0) == s.contains(c),
    decreases s.len(),
{
    if s.len() > 0 {
        lemma_count_card_contains(s.drop_last(), c);
        if s.drop_last().contains(c) {
            let k = choose|k: int| 0 <= k < s.drop_last().len() && s.drop_last()[k] == c;
            assert(s[k] == c);
        }
        if s.contains(c) && s.last() != c {
            let k = choose|k: int| 0 <= k < s.len() && s[k] == c;
            assert(s.drop_last()[k] == c);
        }
    }
}

pub proof fn lemma_count_card_push(s: Seq<Card>, x: Card, c: Card)
    ensures
        count_card(s.push(x), c) == count_card(s, c) + if x == c { 1nat } else { 0nat },
{
    assert(s.push(x).drop_last() =~= s);
}

/// Counts occurrences of `card` in a vector of cards.
pub fn count_in(v: &Vec<Card>, card: Card) -> (r: u8)
    requires
        v@.len() <= 255,
    ensures
        r == count_card(v@, card),
{
    let mut n: u8 = 0;
    let mut i: usize = 0;
    while i < v.len()
        invariant
            i <= v@.len(),
            v@.len() <= 255,
            n == count_card(v@.subrange(0, i as int), card),
            n <= i,
        decreases v@.len() - i,
    {
        proof {
            assert(v@.subrange(0, i as int + 1) =~= v@.subrange(0, i as int).push(v@[i as int]));
            lemma_count_card_push(v@.subrange(0, i as int), v@[i as int], card);
        }
        if v[i] == card {
            n = n + 1;
        }
        i = i + 1;
    }
    assert(v@.subrange(0, i as int) =~= v@);
    n
}

/// Whether `card` occurs in `v`.
pub fn contains_card(v: &Vec<Card>, card: Card) -> (r: bool)
    ensures
        r == v@.contains(card),
{
    let mut i: usize = 0;
    while i < v.len()
        invariant
            i <= v@.len(),
            forall|j: int| 0 <= j < i ==> v@[j] != card,
        decreases v@.len() - i,
    {
        if v[i] == card {
            return true;
        }
        i = i + 1;
    }
    false
}

/// First position of `card` in `v`.
pub fn position_of(v: &Vec<Card>, card: Card) -> (r: Option<usize>)
    ensures
        match r {
            Some(k) => k < v@.len() && v@[k as int] == card && forall|j: int| 0 <= j < k ==> v@[j] != card,
            None => !v@.contains(card),
        },
{
    let mut i: usize = 0;
    while i < v.len()
        invariant
            i <= v@.len(),
            forall|j: int| 0 <= j < i ==> v@[j] != card,
        decreases v@.len() - i,
    {
        if v[i] == card {
            return Some(i);
        }
        i = i + 1;
    }
    None
}

/// The first position of `c` in `s` (meaningful when `s` contains `c`).
pub open spec fn first_pos(s: Seq<Card>, c: Card) -> int {
    choose|k: int| 0 <= k < s.len() && s[k] == c && forall|j: int| 0 <= j < k ==> s[j] != c
}

pub proof fn lemma_first_pos(s: Seq<Card>, c: Card, k: int)
    requires
        0 <= k < s.len(),
        s[k] == c,
        forall|j: int| 0 <= j < k ==> s[j] != c,
    ensures
        first_pos(s, c) == k,
{
    let f = first_pos(s, c);
    assert(0 <= f < s.len() && s[f] == c && forall|j: int| 0 <= j < f ==> s[j] != c);
    if f < k {
        assert(s[f] != c);
    } else if f > k {
        assert(s[k] != c);
    }
}

/// `s` with its first `c` replaced by its last element and the last element dropped.
pub open spec fn swap_remove_card(s: Seq<Card>, c: Card) -> Seq<Card> {
    if s.contains(c) {
        s.update(first_pos(s, c), s.last()).drop_last()
    } else {
        s
    }
}

proof fn lemma_min_index(s: Seq<Card>, c: Card, k: int)
    requires
        0 <= k < s.len(),
        s[k] == c,
    ensures
        exists|m: int| 0 <= m < s.len() && s[m] == c && forall|j: int| 0 <= j < m ==> #[trigger] s[j] != c,
    decreases k,
{
    if exists|j: int| 0 <= j < k && s[j] == c {
        let j = choose|j: int| 0 <= j < k && s[j] == c;
        lemma_min_index(s, c, j);
    } else {
        assert(forall|j: int| 0 <= j < k ==> #[trigger] s[j] != c);
    }
}

pub proof fn lemma_first_pos_exists(s: Seq<Card>, c: Card)
    requires
        s.contains(c),
    ensures
        0 <= first_pos(s, c) < s.len(),
        s[first_pos(s, c)] == c,
{
    let k = choose|k: int| 0 <= k < s.len() && s[k] == c;
    lemma_min_index(s, c, k);
}

/// Replacing one card changes the counts by that card and its replacement only.
pub proof fn lemma_count_card_update(s: Seq<Card>, k: int, x: Card, c: Card)
    requires
        0 <= k < s.len(),
    ensures
        count_card(s.update(k, x), c) == count_card(s, c) - (if s[k] == c { 1int } else { 0int })
            + (if x == c { 1int } else { 0int }),
    decreases s.len(),
{
    if k == s.len() - 1 {
        assert(s.update(k, x).drop_last() =~= s.drop_last());
    } else {
        assert(s.update(k, x).drop_last() =~= s.drop_last().update(k, x));
        lemma_count_card_update(s.drop_last(), k, x, c);
    }
}

proof fn lemma_count_card_drop_last(t: Seq<Card>, c: Card)
    requires
        t.len() > 0,
    ensures
        count_card(t.drop_last(), c) == count_card(t, c) - (if t.last() == c { 1int } else { 0int }),
{
}

/// Removing `d` from `s` lowers the count of `d` by one when `s` held it, and no other count.
#[verifier::spinoff_prover]
pub proof fn lemma_count_swap_remove_card(s: Seq<Card>, d: Card, c: Card)
    ensures
        count_card(swap_remove_card(s, d), c) == count_card(s, c)
            - (if d == c && s.contains(d) { 1int } else { 0int }),
{
    if s.contains(d) {
        lemma_first_pos_exists(s, d);
        let k = first_pos(s, d);
        let t = s.update(k, s.last());
        lemma_count_card_update(s, k, s.last(), c);
        assert(t.last() == s.last());
        assert(swap_remove_card(s, d) =~= t.drop_last());
        lemma_count_card_drop_last(t, c);
    }
}

pub proof fn lemma_swap_remove_card_len(s: Seq<Card>, c: Card)
    ensures
        swap_remove_card(s, c).len() == if s.contains(c) { s.len() - 1 } else { s.len() as int },
{
    if s.contains(c) {
        lemma_first_pos_exists(s, c);
    }
}

/// `s` without its first `c`, order kept.
pub open spec fn remove_card(s: Seq<Card>, c: Card) -> Seq<Card> {
    if s.contains(c) {
        s.remove(first_pos(s, c))
    } else {
        s
    }
}

/// Removes the first `card` of `v` by moving the last card into its place.
pub fn swap_remove_card_from(v: &mut Vec<Card>, card: Card)
    ensures
        final(v)@ == swap_remove_card(old(v)@, card),
{
    match position_of(v, card) {
        Some(k) => {
            proof { lemma_first_pos(v@, card, k as int); }
            v.swap_remove(k);
        },
        None => {},
    }
}

/// Removes the first `card` of `v`, keeping the order of the rest.
pub fn remove_card_from(v: &mut Vec<Card>, card: Card)
    ensures
        final(v)@ == remove_card(old(v)@, card),
{
    match position_of(v, card) {
        Some(k) => {
            proof { lemma_first_pos(v@, card, k as int); }
            v.remove(k);
        },
        None => {},
    }
}

} // verus!
