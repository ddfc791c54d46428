use vstd::prelude::*;
use ahash::AHashSet;
use crate::card::{Card, card_index, card_at, count_card, count_in, contains_card};
use crate::group::{CompressedGroupConstraint, subset_flags, flag_list, count_flags};
use super::{PathDependentCollectiveConstraint, lemma_group_rows};
use super::inference::{copy_groups, known_kept};

verus! {

#[verifier::external_type_specification]
#[verifier::external_body]
#[verifier::reject_recursive_types(T)]
#[verifier::reject_recursive_types(S)]
pub struct ExAHashSet<T, S>(AHashSet<T, S>);

#[verifier::external_type_specification]
#[verifier::external_body]
pub struct ExRandomState(ahash::RandomState);

/// The keys held by a set of group keys.
pub uninterp spec fn seen_keys(s: AHashSet<u64>) -> Set<u64>;

/// The most room reserved ahead for the keys of the groups seen.
pub const KEY_SET_ROOM: usize = 65536;

/// `AHashSet::with_capacity`: a new, empty set (the capacity only reserves room; a capacity
/// this small cannot overflow the table size).
#[verifier::external_body]
fn new_key_set(capacity: usize) -> (r: AHashSet<u64>)
    requires
        capacity <= KEY_SET_ROOM,
    ensures
        seen_keys(r) == Set::<u64>::empty(),
{
    AHashSet::with_capacity(capacity)
}

/// `contains` of the standard hash set behind an `AHashSet`: whether `key` is in the set.
#[verifier::external_body]
fn key_set_contains(s: &AHashSet<u64>, key: u64) -> (r: bool)
    ensures
        r == seen_keys(*s).contains(key),
{
    s.contains(&key)
}

/// `insert` of the standard hash set behind an `AHashSet`: afterwards `key` is in the set,
/// beside what was there.
#[verifier::external_body]
fn key_set_insert(s: &mut AHashSet<u64>, key: u64)
    ensures
        seen_keys(*final(s)) == seen_keys(*old(s)).insert(key),
{
    s.insert(key);
}

/// The first card whose count in `freq` is `n`.
fn position_of_count(freq: &[u8; 5], n: u8) -> (r: Option<usize>)
    ensures
        match r {
            Some(c) => c < 5 && freq@[c as int] == n && forall|k: int| 0 <= k < c ==> freq@[k] != n,
            None => forall|c: int| 0 <= c < 5 ==> freq@[c] != n,
        },
{
    let mut c: usize = 0;
    while c < 5
        invariant
            c <= 5,
            forall|k: int| 0 <= k < c ==> freq@[k] != n,
        decreases 5 - c,
    {
        if freq[c] == n {
            return Some(c);
        }
        c += 1;
    }
    None
}

proof fn lemma_wrap_sub_one(v: u8, a: int)
    requires
        v as int == a % 256,
    ensures
        v.wrapping_sub(1) as int == (a - 1) % 256,
{
    assert(v.wrapping_sub(1) == vstd::wrapping::u8_specs::wrapping_sub(v, 1));
}

proof fn lemma_wrap_add_one(v: u8, a: int)
    requires
        v as int == a % 256,
    ensures
        v.wrapping_add(1) as int == (a + 1) % 256,
{
    assert(v.wrapping_add(1) == vstd::wrapping::u8_specs::wrapping_add(v, 1));
}

proof fn lemma_wrap_sub(v: u8, w: u8, a: int)
    requires
        v as int == a % 256,
    ensures
        v.wrapping_sub(w) as int == (a - w) % 256,
{
    assert(v.wrapping_sub(w) == vstd::wrapping::u8_specs::wrapping_sub(v, w));
}

proof fn lemma_wrap_add(v: u8, w: u8, a: int)
    requires
        v as int == a % 256,
    ensures
        v.wrapping_add(w) as int == (a + w) % 256,
{
    assert(v.wrapping_add(w) == vstd::wrapping::u8_specs::wrapping_add(v, w));
}

proof fn lemma_first_with(rs: Seq<int>, rest: Seq<u8>, pc: Option<usize>)
    requires
        rs.len() == 5,
        rest.len() == 5,
        forall|x: int| 0 <= x < 5 ==> #[trigger] rest[x] as int == rs[x],
        match pc {
            Some(c) => c < 5 && rest[c as int] == 1 && forall|k: int| 0 <= k < c ==> rest[k] != 1,
            None => forall|c: int| 0 <= c < 5 ==> rest[c] != 1,
        },
    ensures
        first_with(rs, 1, 0) == match pc { Some(c) => Some(c as int), None => None::<int> },
{
    assert(rs[0] == rest[0] as int && rs[1] == rest[1] as int && rs[2] == rest[2] as int
        && rs[3] == rest[3] as int && rs[4] == rest[4] as int);
    reveal_with_fuel(first_with, 6);
}

proof fn lemma_single_some(inferred: Seq<Seq<Card>>, key: CompressedGroupConstraint, lives: Seq<u8>, open: Seq<usize>, n: int)
    requires
        0 <= n <= open.len(),
    ensures
        (first_single(inferred, key, lives, open, n) is None) == (singles_in(inferred, key, lives, open, n) == 0),
        singles_in(inferred, key, lives, open, n) >= 0,
    decreases n,
{
    if n > 0 {
        lemma_single_some(inferred, key, lives, open, n - 1);
    }
}

proof fn lemma_from_key(public: Seq<Seq<Card>>, inferred: Seq<Seq<Card>>, groups: Seq<Seq<CompressedGroupConstraint>>,
    g_out: CompressedGroupConstraint, key: CompressedGroupConstraint, full: CompressedGroupConstraint, tf: Seq<u8>,
    lives: Seq<u8>, f: Seq<int>, rs: Seq<int>, negation: int, mn: int, alive: int, found: int)
    requires
        f == Seq::new(5, |x: int| key_freq(inferred, groups, g_out, flag_list(key.plist(), 7), x,
            flag_list(key.plist(), 7).len() as int)),
        rs == Seq::new(5, |x: int| (tf[x] - f[x]) % 256),
        found == ((((f[0] + f[1]) % 256 + f[2]) % 256 + f[3]) % 256 + f[4]) % 256,
        negation == ((((rs[0] + rs[1]) % 256 + rs[2]) % 256 + rs[3]) % 256 + rs[4]) % 256,
        mn == max_neg(key, lives, 7),
        alive == key_alive(public, key, flag_list(key.plist(), 7), flag_list(key.plist(), 7).len() as int),
    ensures
        from_key(public, inferred, groups, g_out, key, full, tf, lives) == if negation == 1 {
            if mn == 1 { one_missing(inferred, key, lives, flag_list(full.plist(), 7), rs, 0) } else { None }
        } else if negation == 2 && alive > found && alive - found == 1 {
            two_missing(inferred, key, lives, flag_list(full.plist(), 7), rs, mn, 0)
        } else {
            None
        },
{
    reveal(from_key);
}

proof fn lemma_neg_scan_next(public: Seq<Seq<Card>>, inferred: Seq<Seq<Card>>, groups: Seq<Seq<CompressedGroupConstraint>>,
    c: int, gi: int, seen: Set<u64>)
    requires
        0 <= c < 5,
        total_freq_of(public, inferred, c) == known_freq_of(public, inferred, c) || gi >= groups[c].len(),
    ensures
        neg_scan(public, inferred, groups, c, gi, seen) == neg_scan(public, inferred, groups, c + 1, 0, seen),
{
    reveal_with_fuel(neg_scan, 1);
}

proof fn lemma_neg_scan_step(public: Seq<Seq<Card>>, inferred: Seq<Seq<Card>>, groups: Seq<Seq<CompressedGroupConstraint>>,
    c: int, gi: int, seen: Set<u64>)
    requires
        0 <= c < 5,
        total_freq_of(public, inferred, c) != known_freq_of(public, inferred, c),
        0 <= gi < groups[c].len(),
    ensures
        ({
            let g = groups[c][gi];
            let kn = blank_of(g).key() as u64;
            let full = open_group(public, inferred);
            let unknown = Seq::new(7, |i: int| unknown_of(public, inferred, i) as u8);
            let tf = Seq::new(5, |x: int| total_freq_of(public, inferred, x) as u8);
            let lives = Seq::new(7, |i: int| lives_of(public, i) as u8);
            neg_scan(public, inferred, groups, c, gi, seen) == if subset_flags(g.plist(), full.plist()) && !seen.contains(kn)
                && exists|i: int| 0 <= i < 7 && #[trigger] open_member(g, full, unknown, i) {
                match from_key(public, inferred, groups, g, blank_of(g), full, tf, lives) {
                    Some(s) => Some(s),
                    None => neg_scan(public, inferred, groups, c, gi + 1, seen.insert(kn)),
                }
            } else {
                neg_scan(public, inferred, groups, c, gi + 1, seen)
            }
        }),
{
    reveal_with_fuel(neg_scan, 1);
}

proof fn lemma_neg_scan_end(public: Seq<Seq<Card>>, inferred: Seq<Seq<Card>>, groups: Seq<Seq<CompressedGroupConstraint>>,
    seen: Set<u64>)
    ensures
        neg_scan(public, inferred, groups, 5, 0, seen) is None,
{
    reveal_with_fuel(neg_scan, 1);
}

/// `after` is `before` with `n` copies of `card` appended to row `p`.
pub open spec fn row_extended(after: Seq<Seq<Card>>, before: Seq<Seq<Card>>, p: int, card: Card, n: int) -> bool {
    after == before.update(p, before[p] + Seq::new(n as nat, |x: int| card))
}

/// Member `i` of `full` has cards left unknown that `g` leaves open: outside `g` with any
/// unknown card, or a single-copy member of `g` with two.
pub open spec fn open_member(g: CompressedGroupConstraint, full: CompressedGroupConstraint, unknown: Seq<u8>, i: int) -> bool {
    &&& full.pflag(i)
    &&& if g.pflag(i) { g.sflag(i) && unknown[i] == 2 } else { unknown[i] > 0 }
}

/// Player (or pile) `i` has cards left unknown: fewer than two (three for the pile) dead
/// and known cards.
pub open spec fn open_flag(public: Seq<Seq<Card>>, inferred: Seq<Seq<Card>>, i: int) -> bool {
    if i < 6 { public[i].len() + inferred[i].len() != 2 } else { public[i].len() + inferred[i].len() != 3 }
}

/// `f` is the group of the players with cards left unknown (`open_flag`), nothing else set.
pub open spec fn is_open_group(f: CompressedGroupConstraint, public: Seq<Seq<Card>>, inferred: Seq<Seq<Card>>) -> bool {
    &&& forall|i: int| 0 <= i < 7 ==> #[trigger] f.pflag(i) == open_flag(public, inferred, i)
    &&& forall|i: int| 0 <= i < 7 ==> !#[trigger] f.sflag(i)
    &&& f.card_spec() == Card::Ambassador
    &&& f.alive_spec() == 0 && f.dead_spec() == 0 && f.total_spec() == 0
}

/// The group of the players with cards left unknown.
pub open spec fn open_group(public: Seq<Seq<Card>>, inferred: Seq<Seq<Card>>) -> CompressedGroupConstraint {
    choose|f: CompressedGroupConstraint| is_open_group(f, public, inferred)
}

/// Copies of `c` over rows `0..n` of `t`.
pub open spec fn rows_upto(t: Seq<Seq<Card>>, c: Card, n: int) -> int
    decreases n,
{
    if n <= 0 { 0 } else { rows_upto(t, c, n - 1) + count_card(t[n - 1], c) as int }
}

/// Copies of `c` over the rows `0..n` of `t` whose flag in `fl` is `want`.
pub open spec fn rows_flagged(t: Seq<Seq<Card>>, fl: CompressedGroupConstraint, want: bool, c: Card, n: int) -> int
    decreases n,
{
    if n <= 0 {
        0
    } else {
        rows_flagged(t, fl, want, c, n - 1) + if fl.pflag(n - 1) == want { count_card(t[n - 1], c) as int } else { 0int }
    }
}

/// The cards a player (two) or the pile (three) holds.
pub open spec fn row_base(i: int) -> int {
    if i < 6 { 2 } else { 3 }
}

/// Copies of card number `x` neither dead nor known held by a player without unknown cards,
/// in wrapping 8-bit arithmetic.
pub open spec fn total_freq_of(public: Seq<Seq<Card>>, inferred: Seq<Seq<Card>>, x: int) -> int {
    (3 - rows_upto(public, card_at(x), 6) - rows_flagged(inferred, open_group(public, inferred), false, card_at(x), 7)) % 256
}

/// Copies of card number `x` known held by players with unknown cards, in wrapping 8-bit
/// arithmetic.
pub open spec fn known_freq_of(public: Seq<Seq<Card>>, inferred: Seq<Seq<Card>>, x: int) -> int {
    rows_flagged(inferred, open_group(public, inferred), true, card_at(x), 7) % 256
}

/// Cards of `i` neither dead nor known, in wrapping 8-bit arithmetic.
pub open spec fn unknown_of(public: Seq<Seq<Card>>, inferred: Seq<Seq<Card>>, i: int) -> int {
    (row_base(i) - (if i < 6 { public[i].len() as int } else { 0int }) - inferred[i].len()) % 256
}

/// Living cards of `i`, in wrapping 8-bit arithmetic.
pub open spec fn lives_of(public: Seq<Seq<Card>>, i: int) -> int {
    (row_base(i) - (if i < 6 { public[i].len() as int } else { 0int })) % 256
}

/// The most living copies among the first `j` groups of `list` whose participants are among
/// those of `g_out` and whose single-card flags include those of `g_out` (zero when none).
pub open spec fn grp_max(list: Seq<CompressedGroupConstraint>, g_out: CompressedGroupConstraint, j: int) -> int
    decreases j,
{
    if j <= 0 {
        0
    } else {
        let m = grp_max(list, g_out, j - 1);
        let h = list[j - 1];
        if subset_flags(h.plist(), g_out.plist()) && subset_flags(g_out.slist(), h.slist()) && h.alive_spec() > m {
            h.alive_spec() as int
        } else {
            m
        }
    }
}

/// The most copies of card number `x` found inside the shape: by the groups (`grp_max`) and by
/// the known cards of the first `j` participants `ms`.
pub open spec fn key_freq(inferred: Seq<Seq<Card>>, groups: Seq<Seq<CompressedGroupConstraint>>, g_out: CompressedGroupConstraint,
    ms: Seq<usize>, x: int, j: int) -> int
    decreases j,
{
    if j <= 0 {
        grp_max(groups[x], g_out, groups[x].len() as int)
    } else {
        let f = key_freq(inferred, groups, g_out, ms, x, j - 1);
        let n = count_card(inferred[ms[j - 1] as int], card_at(x)) as int;
        if n > f { n } else { f }
    }
}

/// The living cards of the shape's participants after the first `j` of them `ms`, from its
/// slots (a single-card participant counts one less only when dead twice), in wrapping
/// 8-bit arithmetic.
pub open spec fn key_alive(public: Seq<Seq<Card>>, key: CompressedGroupConstraint, ms: Seq<usize>, j: int) -> int
    decreases j,
{
    if j <= 0 {
        2 * count_flags(key.plist(), 6) + (if key.pflag(6) { 3int } else { 0int })
    } else {
        let prev = key_alive(public, key, ms, j - 1);
        let m = ms[j - 1] as int;
        let d = public[m].len() as int;
        if key.sflag(m) {
            if d == 2 { (prev - 1) % 256 } else { prev }
        } else {
            (prev - d) % 256
        }
    }
}

/// The extra lives of the single-card participants among `0..p`, in wrapping 8-bit arithmetic.
pub open spec fn max_neg(key: CompressedGroupConstraint, lives: Seq<u8>, p: int) -> int
    decreases p,
{
    if p <= 0 {
        0
    } else {
        let prev = max_neg(key, lives, p - 1);
        if key.pflag(p - 1) && key.sflag(p - 1) { (prev + (lives[p - 1] - 1) % 256) % 256 } else { prev }
    }
}

/// The first card number whose entry in `rest` is `n`.
pub open spec fn first_with(rest: Seq<int>, n: int, c: int) -> Option<int>
    decreases 5 - c,
{
    if c >= 5 || c < 0 { None } else if rest[c] == n { Some(c) } else { first_with(rest, n, c + 1) }
}

/// The conclusion when one copy is missing and one extra life is open: the first open
/// player from `k` outside the shape (or a single-card participant with two lives) that can
/// take the first card with one missing copy.
pub open spec fn one_missing(inferred: Seq<Seq<Card>>, key: CompressedGroupConstraint, lives: Seq<u8>, open: Seq<usize>,
    rest: Seq<int>, k: int) -> Option<(int, Card, int)>
    decreases open.len() - k,
{
    if k >= open.len() || k < 0 {
        None
    } else {
        let p = open[k] as int;
        let eligible = !key.pflag(p) || (key.sflag(p) && lives[p] == 2);
        match first_with(rest, 1, 0) {
            Some(cn) => if eligible && !inferred[p].contains(card_at(cn)) && inferred[p].len() < 3 {
                Some((p, card_at(cn), 1int))
            } else {
                one_missing(inferred, key, lives, open, rest, k + 1)
            },
            None => one_missing(inferred, key, lives, open, rest, k + 1),
        }
    }
}

/// The first open player from `k` outside the shape with fewer than two known cards.
pub open spec fn first_outside(inferred: Seq<Seq<Card>>, key: CompressedGroupConstraint, open: Seq<usize>, k: int) -> Option<int>
    decreases open.len() - k,
{
    if k >= open.len() || k < 0 {
        None
    } else if !key.pflag(open[k] as int) && inferred[open[k] as int].len() < 2 {
        Some(open[k] as int)
    } else {
        first_outside(inferred, key, open, k + 1)
    }
}

/// An open single-card participant of the shape with two lives and no known card.
pub open spec fn lone_single(inferred: Seq<Seq<Card>>, key: CompressedGroupConstraint, lives: Seq<u8>, p: int) -> bool {
    key.pflag(p) && key.sflag(p) && lives[p] == 2 && inferred[p].len() == 0
}

/// How many of the first `n` open players are `lone_single`.
pub open spec fn singles_in(inferred: Seq<Seq<Card>>, key: CompressedGroupConstraint, lives: Seq<u8>, open: Seq<usize>, n: int) -> int
    decreases n,
{
    if n <= 0 {
        0
    } else {
        singles_in(inferred, key, lives, open, n - 1) + if lone_single(inferred, key, lives, open[n - 1] as int) { 1int } else { 0int }
    }
}

/// The first of the first `n` open players that is `lone_single`.
pub open spec fn first_single(inferred: Seq<Seq<Card>>, key: CompressedGroupConstraint, lives: Seq<u8>, open: Seq<usize>, n: int)
    -> Option<int>
    decreases n,
{
    if n <= 0 {
        None
    } else {
        match first_single(inferred, key, lives, open, n - 1) {
            Some(p) => Some(p),
            None => if lone_single(inferred, key, lives, open[n - 1] as int) { Some(open[n - 1] as int) } else { None },
        }
    }
}

/// The conclusion with three copies missing and two extra lives: the first open player from
/// `k` outside the shape that can take them (two when it has two lives and no known card).
pub open spec fn three_missing(inferred: Seq<Seq<Card>>, key: CompressedGroupConstraint, lives: Seq<u8>, open: Seq<usize>,
    card: Card, k: int) -> Option<(int, Card, int)>
    decreases open.len() - k,
{
    if k >= open.len() || k < 0 {
        None
    } else {
        let p = open[k] as int;
        let len = inferred[p].len();
        if !key.pflag(p) && lives[p] == 2 && len == 0 {
            Some((p, card, 2int))
        } else if !key.pflag(p) && lives[p] == 2 && len == 1 {
            Some((p, card, 1int))
        } else if !key.pflag(p) && lives[p] != 2 && len < 2 {
            Some((p, card, 1int))
        } else {
            three_missing(inferred, key, lives, open, card, k + 1)
        }
    }
}

/// The conclusion with two copies missing and one slot of the shape open, trying the cards
/// from number `cn`.
pub open spec fn two_missing(inferred: Seq<Seq<Card>>, key: CompressedGroupConstraint, lives: Seq<u8>, open: Seq<usize>,
    rest: Seq<int>, mn: int, cn: int) -> Option<(int, Card, int)>
    decreases 5 - cn,
{
    if cn >= 5 || cn < 0 {
        None
    } else {
        let card = card_at(cn);
        if (rest[cn] == 3 || rest[cn] == 2) && mn == 1 {
            match first_outside(inferred, key, open, 0) {
                Some(p) => Some((p, card, 1int)),
                None => if singles_in(inferred, key, lives, open, open.len() as int) == 1 {
                    let p = first_single(inferred, key, lives, open, open.len() as int).unwrap();
                    if inferred[p].len() < 3 { Some((p, card, 1int)) } else { two_missing(inferred, key, lives, open, rest, mn, cn + 1) }
                } else {
                    two_missing(inferred, key, lives, open, rest, mn, cn + 1)
                },
            }
        } else if rest[cn] == 3 && mn == 2 {
            match three_missing(inferred, key, lives, open, card, 0) {
                Some(s) => Some(s),
                None => two_missing(inferred, key, lives, open, rest, mn, cn + 1),
            }
        } else {
            two_missing(inferred, key, lives, open, rest, mn, cn + 1)
        }
    }
}

/// The conclusion drawn from the shape `key` of group `g_out` (see `negation_from_key`).
#[verifier::opaque]
pub open spec fn from_key(public: Seq<Seq<Card>>, inferred: Seq<Seq<Card>>, groups: Seq<Seq<CompressedGroupConstraint>>,
    g_out: CompressedGroupConstraint, key: CompressedGroupConstraint, full: CompressedGroupConstraint, tf: Seq<u8>,
    lives: Seq<u8>) -> Option<(int, Card, int)>
{
    let ms = flag_list(key.plist(), 7);
    let f = Seq::new(5, |x: int| key_freq(inferred, groups, g_out, ms, x, ms.len() as int));
    let found = ((((f[0] + f[1]) % 256 + f[2]) % 256 + f[3]) % 256 + f[4]) % 256;
    let rest = Seq::new(5, |x: int| (tf[x] - f[x]) % 256);
    let negation = ((((rest[0] + rest[1]) % 256 + rest[2]) % 256 + rest[3]) % 256 + rest[4]) % 256;
    let mn = max_neg(key, lives, 7);
    let alive = key_alive(public, key, ms, ms.len() as int);
    let open = flag_list(full.plist(), 7);
    if negation == 1 {
        if mn == 1 { one_missing(inferred, key, lives, open, rest, 0) } else { None }
    } else if negation == 2 && alive > found && alive - found == 1 {
        two_missing(inferred, key, lives, open, rest, mn, 0)
    } else {
        None
    }
}

/// `k` is `g`'s participants and single-card flags alone.
pub open spec fn is_blank_of(k: CompressedGroupConstraint, g: CompressedGroupConstraint) -> bool {
    &&& forall|i: int| 0 <= i < 7 ==> #[trigger] k.pflag(i) == g.pflag(i)
    &&& forall|i: int| 0 <= i < 7 ==> #[trigger] k.sflag(i) == g.sflag(i)
    &&& k.card_spec() == Card::Ambassador
    &&& k.alive_spec() == 0 && k.dead_spec() == 0 && k.total_spec() == 0
}

/// The shape of `g`: its participants and single-card flags alone.
pub open spec fn blank_of(g: CompressedGroupConstraint) -> CompressedGroupConstraint {
    choose|k: CompressedGroupConstraint| is_blank_of(k, g)
}

/// The first conclusion of the remaining-negation reasoning, scanning the groups of card
/// number `c` from `gi` on and then the later cards, each group shape once (`seen` holds the
/// shapes already tried): a card whose copies are not all accounted for is scanned; a group
/// whose participants all have unknown cards, whose shape is new and which leaves some
/// participant open (`open_member`) is tried (`from_key`).
#[verifier::opaque]
pub open spec fn neg_scan(public: Seq<Seq<Card>>, inferred: Seq<Seq<Card>>, groups: Seq<Seq<CompressedGroupConstraint>>,
    c: int, gi: int, seen: Set<u64>) -> Option<(int, Card, int)>
    decreases 5 - c, groups[c].len() - gi,
{
    if c >= 5 || c < 0 {
        None
    } else if total_freq_of(public, inferred, c) == known_freq_of(public, inferred, c) || gi >= groups[c].len() || gi < 0 {
        neg_scan(public, inferred, groups, c + 1, 0, seen)
    } else {
        let g = groups[c][gi];
        let kn = blank_of(g).key() as u64;
        let full = open_group(public, inferred);
        let unknown = Seq::new(7, |i: int| unknown_of(public, inferred, i) as u8);
        let tf = Seq::new(5, |x: int| total_freq_of(public, inferred, x) as u8);
        let lives = Seq::new(7, |i: int| lives_of(public, i) as u8);
        if subset_flags(g.plist(), full.plist()) && !seen.contains(kn)
            && exists|i: int| 0 <= i < 7 && #[trigger] open_member(g, full, unknown, i) {
            match from_key(public, inferred, groups, g, blank_of(g), full, tf, lives) {
                Some(s) => Some(s),
                None => neg_scan(public, inferred, groups, c, gi + 1, seen.insert(kn)),
            }
        } else {
            neg_scan(public, inferred, groups, c, gi + 1, seen)
        }
    }
}

/// A conclusion as a player, a card and a number of copies.
pub open spec fn step_view(o: Option<NegationStep>) -> Option<(int, Card, int)> {
    match o {
        Some(s) => Some((s.player as int, s.card, s.copies as int)),
        None => None,
    }
}

/// A known card to add: the player (or pile), the card, and one or two copies.
pub struct NegationStep {
    pub player: usize,
    pub card: Card,
    pub copies: u8,
}

impl PathDependentCollectiveConstraint {
    /// The first conclusion of the remaining-negation reasoning, if any: for a group whose
    /// participants all have unknown cards and which leaves room outside it, the copies not
    /// shown to be inside it must be with the other open players; when their count and the
    /// open spaces match one of the handled shapes, one player is known to hold one or two
    /// copies of a card. Each group shape is considered once. Counts are kept in wrapping
    /// 8-bit arithmetic.
    #[verifier::rlimit(100)]
    #[verifier::spinoff_prover]
    fn remaining_negation_step(&self) -> (r: Option<NegationStep>)
        requires
            self.wf(),
        ensures
            match r {
                Some(step) => step.player < 7 && 1 <= step.copies <= 2
                    && self.inferred_view()[step.player as int].len() + step.copies <= 3,
                None => true,
            },
            step_view(r) == neg_scan(self.public_view(), self.inferred_view(), self.groups_view(), 0, 0, Set::empty()),
    {
        let ghost pv = self.public_view();
        let ghost iv = self.inferred_view();
        let ghost gv = self.groups_view();
        let full = self.open_group_exec();
        let (total_freq, known_freq, unknown, lives) = self.negation_counts(&full);
        proof {
            assert(total_freq@ =~= Seq::new(5, |x: int| total_freq_of(pv, iv, x) as u8));
            assert(unknown@ =~= Seq::new(7, |i: int| unknown_of(pv, iv, i) as u8));
            assert(lives@ =~= Seq::new(7, |i: int| lives_of(pv, i) as u8));
        }
        let mut stored: usize = 1;
        let mut c: usize = 0;
        while c < 5
            invariant
                self.wf(),
                c <= 5,
                stored <= KEY_SET_ROOM,
            decreases 5 - c,
        {
            let l = self.group_constraints[c].len();
            stored = if l <= KEY_SET_ROOM - stored { stored + l } else { KEY_SET_ROOM };
            c += 1;
        }
        let mut seen = new_key_set(stored / 2);
        let ghost res = neg_scan(pv, iv, gv, 0, 0, Set::empty());
        let mut c_out: usize = 0;
        while c_out < 5
            invariant
                self.wf(),
                pv == self.public_view(),
                iv == self.inferred_view(),
                gv == self.groups_view(),
                c_out <= 5,
                full == open_group(pv, iv),
                total_freq@ == Seq::new(5, |x: int| total_freq_of(pv, iv, x) as u8),
                unknown@ == Seq::new(7, |i: int| unknown_of(pv, iv, i) as u8),
                lives@ == Seq::new(7, |i: int| lives_of(pv, i) as u8),
                forall|x: int| 0 <= x < 5 ==> #[trigger] known_freq@[x] as int == known_freq_of(pv, iv, x),
                forall|x: int| 0 <= x < 5 ==> #[trigger] total_freq@[x] as int == total_freq_of(pv, iv, x),
                res == neg_scan(pv, iv, gv, c_out as int, 0, seen_keys(seen)),
                res == neg_scan(pv, iv, gv, 0, 0, Set::empty()),
            decreases 5 - c_out,
        {
            proof {
                assert(total_freq[c_out as int].wrapping_sub(known_freq[c_out as int])
                    == vstd::wrapping::u8_specs::wrapping_sub(total_freq[c_out as int], known_freq[c_out as int]));
            }
            if total_freq[c_out].wrapping_sub(known_freq[c_out]) != 0 {
                proof { lemma_group_rows(self.group_constraints@, c_out as int); }
                let outer = copy_groups(&self.group_constraints[c_out]);
                let mut gi: usize = 0;
                while gi < outer.len()
                    invariant
                        self.wf(),
                        pv == self.public_view(),
                        iv == self.inferred_view(),
                        gv == self.groups_view(),
                        c_out < 5,
                        gi <= outer@.len(),
                        outer@ == gv[c_out as int],
                        total_freq_of(pv, iv, c_out as int) != known_freq_of(pv, iv, c_out as int),
                        full == open_group(pv, iv),
                        total_freq@ == Seq::new(5, |x: int| total_freq_of(pv, iv, x) as u8),
                        unknown@ == Seq::new(7, |i: int| unknown_of(pv, iv, i) as u8),
                        lives@ == Seq::new(7, |i: int| lives_of(pv, i) as u8),
                        res == neg_scan(pv, iv, gv, c_out as int, gi as int, seen_keys(seen)),
                        res == neg_scan(pv, iv, gv, 0, 0, Set::empty()),
                    decreases outer@.len() - gi,
                {
                    let g_out = outer[gi];
                    let ghost s0 = seen_keys(seen);
                    proof {
                        lemma_neg_scan_step(pv, iv, gv, c_out as int, gi as int, s0);
                        assert(g_out == gv[c_out as int][gi as int]);
                    }
                    let step = self.try_group(g_out, &full, &total_freq, &unknown, &lives, &mut seen);
                    if step.is_some() {
                        proof {
                            let kn = blank_of(g_out).key() as u64;
                            assert(subset_flags(g_out.plist(), full.plist()) && !s0.contains(kn)
                                && exists|i: int| 0 <= i < 7 && #[trigger] open_member(g_out, full, unknown@, i));
                            assert(step_view(step) == from_key(pv, iv, gv, g_out, blank_of(g_out), full, total_freq@, lives@));
                            assert(res == neg_scan(pv, iv, gv, c_out as int, gi as int, s0));
                        }
                        return step;
                    }
                    gi += 1;
                }
                proof { lemma_neg_scan_next(pv, iv, gv, c_out as int, gi as int, seen_keys(seen)); }
            } else {
                proof { lemma_neg_scan_next(pv, iv, gv, c_out as int, 0, seen_keys(seen)); }
            }
            c_out += 1;
        }
        proof { lemma_neg_scan_end(pv, iv, gv, seen_keys(seen)); }
        None
    }

    /// One group of the scan of `remaining_negation_step`: when its participants all have
    /// unknown cards, its shape is new and it leaves someone open, its shape is tried
    /// (`from_key`) and noted as seen.
    fn try_group(&self, g_out: CompressedGroupConstraint, full: &CompressedGroupConstraint, total_freq: &[u8; 5],
        unknown: &[u8; 7], lives: &[u8; 7], seen: &mut AHashSet<u64>) -> (r: Option<NegationStep>)
        requires
            self.wf(),
            *full == open_group(self.public_view(), self.inferred_view()),
            total_freq@ == Seq::new(5, |x: int| total_freq_of(self.public_view(), self.inferred_view(), x) as u8),
            unknown@ == Seq::new(7, |i: int| unknown_of(self.public_view(), self.inferred_view(), i) as u8),
            lives@ == Seq::new(7, |i: int| lives_of(self.public_view(), i) as u8),
        ensures
            match r {
                Some(step) => step.player < 7 && 1 <= step.copies <= 2
                    && self.inferred_view()[step.player as int].len() + step.copies <= 3,
                None => true,
            },
            ({
                let kn = blank_of(g_out).key() as u64;
                let cond = subset_flags(g_out.plist(), full.plist()) && !seen_keys(*old(seen)).contains(kn)
                    && exists|i: int| 0 <= i < 7 && #[trigger] open_member(g_out, *full, unknown@, i);
                &&& cond ==> step_view(r) == from_key(self.public_view(), self.inferred_view(), self.groups_view(), g_out,
                    blank_of(g_out), *full, total_freq@, lives@)
                    && seen_keys(*final(seen)) == seen_keys(*old(seen)).insert(kn)
                &&& !cond ==> r is None && seen_keys(*final(seen)) == seen_keys(*old(seen))
            }),
    {
        let key = g_out.get_blank_part_list_and_single_card_flags();
        let kn = key.num();
        proof {
            let bk = blank_of(g_out);
            assert(is_blank_of(key, g_out));
            assert(is_blank_of(bk, g_out));
            assert forall|i: int| 0 <= i < 7 implies #[trigger] key.pflag(i) == bk.pflag(i) by {}
            assert forall|i: int| 0 <= i < 7 implies #[trigger] key.sflag(i) == bk.sflag(i) by {}
            crate::group::lemma_group_ext(key, bk);
        }
        if g_out.part_list_is_subset_of(full) && !key_set_contains(seen, kn)
            && self.negation_open(&g_out, full, unknown)
        {
            let step = self.negation_from_key(&g_out, &key, full, total_freq, lives);
            key_set_insert(seen, kn);
            return step;
        }
        None
    }

    /// The group of the players (and the pile) with cards left unknown (`open_group`).
    fn open_group_exec(&self) -> (r: CompressedGroupConstraint)
        requires
            self.wf(),
        ensures
            r == open_group(self.public_view(), self.inferred_view()),
    {
        proof { self.lemma_wf_rows(); }
        let mut full = CompressedGroupConstraint::zero();
        let mut i: usize = 0;
        while i < 7
            invariant
                self.wf(),
                i <= 7,
                forall|j: int| 0 <= j < i ==> #[trigger] full.pflag(j) == open_flag(self.public_view(), self.inferred_view(), j),
                forall|j: int| i <= j < 7 ==> !#[trigger] full.pflag(j),
                forall|j: int| 0 <= j < 7 ==> !#[trigger] full.sflag(j),
                full.card_spec() == Card::Ambassador,
                full.alive_spec() == 0 && full.dead_spec() == 0 && full.total_spec() == 0,
            decreases 7 - i,
        {
            proof { self.lemma_wf_rows(); }
            let n = self.public_constraints[i].len() + self.inferred_constraints[i].len();
            full.set_player_flag(i, if i < 6 { n != 2 } else { n != 3 });
            i += 1;
        }
        proof {
            let f = open_group(self.public_view(), self.inferred_view());
            assert(is_open_group(full, self.public_view(), self.inferred_view()));
            assert(is_open_group(f, self.public_view(), self.inferred_view()));
            assert forall|j: int| 0 <= j < 7 implies #[trigger] full.pflag(j) == f.pflag(j) by {}
            assert forall|j: int| 0 <= j < 7 implies #[trigger] full.sflag(j) == f.sflag(j) by {}
            crate::group::lemma_group_ext(full, f);
        }
        full
    }

    /// The counts of the remaining-negation reasoning: copies of each card not accounted for
    /// (`total_freq_of`), copies known held by open players (`known_freq_of`), and for each
    /// player and the pile the unknown cards (`unknown_of`) and lives (`lives_of`).
    fn negation_counts(&self, full: &CompressedGroupConstraint) -> (r: ([u8; 5], [u8; 5], [u8; 7], [u8; 7]))
        requires
            self.wf(),
            *full == open_group(self.public_view(), self.inferred_view()),
        ensures
            forall|x: int| 0 <= x < 5 ==> #[trigger] r.0@[x] as int == total_freq_of(self.public_view(), self.inferred_view(), x),
            forall|x: int| 0 <= x < 5 ==> #[trigger] r.1@[x] as int == known_freq_of(self.public_view(), self.inferred_view(), x),
            forall|i: int| 0 <= i < 7 ==> #[trigger] r.2@[i] as int == unknown_of(self.public_view(), self.inferred_view(), i),
            forall|i: int| 0 <= i < 7 ==> #[trigger] r.3@[i] as int == lives_of(self.public_view(), i),
    {
        let ghost pv = self.public_view();
        let ghost iv = self.inferred_view();
        proof { self.lemma_wf_rows(); }
        let mut total_freq: [u8; 5] = [3; 5];
        let mut known_freq: [u8; 5] = [0; 5];
        let mut unknown: [u8; 7] = [2, 2, 2, 2, 2, 2, 3];
        let mut lives: [u8; 7] = [2, 2, 2, 2, 2, 2, 3];
        let mut i: usize = 0;
        while i < 6
            invariant
                self.wf(),
                pv == self.public_view(),
                iv == self.inferred_view(),
                i <= 6,
                forall|x: int| 0 <= x < 5 ==> #[trigger] total_freq@[x] as int == (3 - rows_upto(pv, card_at(x), i as int)) % 256,
                forall|x: int| 0 <= x < 5 ==> #[trigger] known_freq@[x] == 0,
                forall|j: int| 0 <= j < 7 ==> #[trigger] unknown@[j] as int
                    == (row_base(j) - (if j < i { pv[j].len() as int } else { 0int })) % 256,
                forall|j: int| 0 <= j < 7 ==> #[trigger] lives@[j] as int
                    == (row_base(j) - (if j < i { pv[j].len() as int } else { 0int })) % 256,
            decreases 6 - i,
        {
            proof { self.lemma_wf_rows(); }
            let row = &self.public_constraints[i];
            let ghost t0 = total_freq@;
            let mut k: usize = 0;
            while k < row.len()
                invariant
                    k <= row@.len(),
                    i < 6,
                    row@ == pv[i as int],
                    forall|x: int| 0 <= x < 5 ==> #[trigger] total_freq@[x] as int
                        == (3 - rows_upto(pv, card_at(x), i as int) - count_card(row@.take(k as int), card_at(x))) % 256,
                    forall|x: int| 0 <= x < 5 ==> #[trigger] known_freq@[x] == 0,
                    forall|j: int| 0 <= j < 7 && j != i ==> #[trigger] unknown@[j] as int
                        == (row_base(j) - (if j < i { pv[j].len() as int } else { 0int })) % 256,
                    forall|j: int| 0 <= j < 7 && j != i ==> #[trigger] lives@[j] as int
                        == (row_base(j) - (if j < i { pv[j].len() as int } else { 0int })) % 256,
                    unknown@[i as int] as int == (row_base(i as int) - k) % 256,
                    lives@[i as int] as int == (row_base(i as int) - k) % 256,
                decreases row@.len() - k,
            {
                let n = row[k].num();
                proof {
                    crate::card::lemma_card_index_roundtrip(row@[k as int]);
                    assert(row@.take(k as int + 1).drop_last() =~= row@.take(k as int));
                    lemma_wrap_sub_one(total_freq[n as int], 3 - rows_upto(pv, card_at(n as int), i as int)
                        - count_card(row@.take(k as int), card_at(n as int)));
                    lemma_wrap_sub_one(unknown[i as int], row_base(i as int) - k);
                    lemma_wrap_sub_one(lives[i as int], row_base(i as int) - k);
                }
                total_freq[n] = total_freq[n].wrapping_sub(1);
                unknown[i] = unknown[i].wrapping_sub(1);
                lives[i] = lives[i].wrapping_sub(1);
                k += 1;
            }
            proof {
                assert(row@.take(k as int) =~= row@);
            }
            i += 1;
        }
        let mut i: usize = 0;
        while i < 7
            invariant
                self.wf(),
                pv == self.public_view(),
                iv == self.inferred_view(),
                *full == open_group(pv, iv),
                i <= 7,
                forall|x: int| 0 <= x < 5 ==> #[trigger] total_freq@[x] as int
                    == (3 - rows_upto(pv, card_at(x), 6) - rows_flagged(iv, *full, false, card_at(x), i as int)) % 256,
                forall|x: int| 0 <= x < 5 ==> #[trigger] known_freq@[x] as int == rows_flagged(iv, *full, true, card_at(x), i as int) % 256,
                forall|j: int| 0 <= j < 7 ==> #[trigger] unknown@[j] as int
                    == (row_base(j) - (if j < 6 { pv[j].len() as int } else { 0int }) - (if j < i { iv[j].len() as int } else { 0int })) % 256,
                forall|j: int| 0 <= j < 7 ==> #[trigger] lives@[j] as int == lives_of(pv, j),
            decreases 7 - i,
        {
            proof { self.lemma_wf_rows(); }
            let row = &self.inferred_constraints[i];
            let flag = full.get_player_flag(i);
            let mut k: usize = 0;
            while k < row.len()
                invariant
                    k <= row@.len(),
                    i < 7,
                    row@ == iv[i as int],
                    flag == full.pflag(i as int),
                    forall|x: int| 0 <= x < 5 ==> #[trigger] total_freq@[x] as int
                        == (3 - rows_upto(pv, card_at(x), 6) - rows_flagged(iv, *full, false, card_at(x), i as int)
                            - if !flag { count_card(row@.take(k as int), card_at(x)) as int } else { 0int }) % 256,
                    forall|x: int| 0 <= x < 5 ==> #[trigger] known_freq@[x] as int
                        == (rows_flagged(iv, *full, true, card_at(x), i as int)
                            + if flag { count_card(row@.take(k as int), card_at(x)) as int } else { 0int }) % 256,
                    forall|j: int| 0 <= j < 7 && j != i ==> #[trigger] unknown@[j] as int
                        == (row_base(j) - (if j < 6 { pv[j].len() as int } else { 0int }) - (if j < i { iv[j].len() as int } else { 0int })) % 256,
                    unknown@[i as int] as int == (row_base(i as int) - (if i < 6 { pv[i as int].len() as int } else { 0int }) - k) % 256,
                    forall|j: int| 0 <= j < 7 ==> #[trigger] lives@[j] as int == lives_of(pv, j),
                decreases row@.len() - k,
            {
                let n = row[k].num();
                proof {
                    crate::card::lemma_card_index_roundtrip(row@[k as int]);
                    assert(row@.take(k as int + 1).drop_last() =~= row@.take(k as int));
                    if !flag {
                        lemma_wrap_sub_one(total_freq[n as int], 3 - rows_upto(pv, card_at(n as int), 6)
                            - rows_flagged(iv, *full, false, card_at(n as int), i as int)
                            - count_card(row@.take(k as int), card_at(n as int)));
                    } else {
                        lemma_wrap_add_one(known_freq[n as int], rows_flagged(iv, *full, true, card_at(n as int), i as int)
                            + count_card(row@.take(k as int), card_at(n as int)));
                    }
                    lemma_wrap_sub_one(unknown[i as int], row_base(i as int) - (if i < 6 { pv[i as int].len() as int } else { 0int }) - k);
                }
                if !flag {
                    total_freq[n] = total_freq[n].wrapping_sub(1);
                } else {
                    known_freq[n] = known_freq[n].wrapping_add(1);
                }
                unknown[i] = unknown[i].wrapping_sub(1);
                k += 1;
            }
            proof {
                assert(row@.take(k as int) =~= row@);
            }
            i += 1;
        }
        (total_freq, known_freq, unknown, lives)
    }

    /// Whether some member of `full` has cards left unknown that `g` leaves open: a member
    /// outside `g` with any, or a single-copy member of `g` with two.
    fn negation_open(&self, g: &CompressedGroupConstraint, full: &CompressedGroupConstraint, unknown: &[u8; 7]) -> (r: bool)
        ensures
            r == exists|i: int| 0 <= i < 7 && #[trigger] open_member(*g, *full, unknown@, i),
    {
        let mut i: usize = 0;
        while i < 7
            invariant
                i <= 7,
                forall|k: int| 0 <= k < i ==> !#[trigger] open_member(*g, *full, unknown@, k),
            decreases 7 - i,
        {
            if full.get_player_flag(i) {
                if g.get_player_flag(i) {
                    if g.get_single_card_flag(i) && unknown[i] == 2 {
                        assert(open_member(*g, *full, unknown@, i as int));
                        return true;
                    }
                } else if unknown[i] > 0 {
                    assert(open_member(*g, *full, unknown@, i as int));
                    return true;
                }
            }
            i += 1;
        }
        false
    }

    /// The copies of each card found inside the shape `key` of `g_out` (`key_freq`) and the
    /// living cards of its participants (`key_alive`).
    #[verifier::rlimit(100)]
    fn shape_counts(&self, g_out: &CompressedGroupConstraint, key: &CompressedGroupConstraint) -> (r: ([u8; 5], u8))
        requires
            self.wf(),
        ensures
            forall|x: int| 0 <= x < 5 ==> #[trigger] r.0@[x] as int == key_freq(self.inferred_view(), self.groups_view(), *g_out,
                flag_list(key.plist(), 7), x, flag_list(key.plist(), 7).len() as int),
            forall|x: int| 0 <= x < 5 ==> #[trigger] r.0@[x] <= 3,
            r.1 as int == key_alive(self.public_view(), *key, flag_list(key.plist(), 7), flag_list(key.plist(), 7).len() as int),
    {
        let ghost pv = self.public_view();
        let ghost iv = self.inferred_view();
        let ghost gv = self.groups_view();
        let ghost ms = flag_list(key.plist(), 7);
        proof { self.lemma_wf_rows(); }
        let mut freq: [u8; 5] = [0; 5];
        let mut c_in: usize = 0;
        while c_in < 5
            invariant
                self.wf(),
                gv == self.groups_view(),
                c_in <= 5,
                forall|x: int| 0 <= x < c_in ==> #[trigger] freq@[x] as int == grp_max(gv[x], *g_out, gv[x].len() as int),
                forall|x: int| c_in <= x < 5 ==> #[trigger] freq@[x] == 0,
                forall|x: int| 0 <= x < 5 ==> #[trigger] freq@[x] <= 3,
            decreases 5 - c_in,
        {
            proof { lemma_group_rows(self.group_constraints@, c_in as int); }
            let list = &self.group_constraints[c_in];
            let mut j: usize = 0;
            while j < list.len()
                invariant
                    j <= list@.len(),
                    c_in < 5,
                    list@ == gv[c_in as int],
                    freq@[c_in as int] as int == grp_max(list@, *g_out, j as int),
                    forall|x: int| 0 <= x < c_in ==> #[trigger] freq@[x] as int == grp_max(gv[x], *g_out, gv[x].len() as int),
                    forall|x: int| c_in < x < 5 ==> #[trigger] freq@[x] == 0,
                    forall|x: int| 0 <= x < 5 ==> #[trigger] freq@[x] <= 3,
                decreases list@.len() - j,
            {
                if list[j].part_list_is_subset_of(g_out) && g_out.single_card_flags_is_subset_of(&list[j]) {
                    let a = list[j].count_alive();
                    if a > freq[c_in] {
                        freq[c_in] = a;
                    }
                }
                j += 1;
            }
            c_in += 1;
        }
        let mut key_max_alive: u8 = key.get_slots();
        let members = key.iter_true_player_flags();
        proof {
            assert(members@ == ms);
            assert forall|x: int| 0 <= x < 5 implies #[trigger] freq@[x] as int == key_freq(iv, gv, *g_out, ms, x, 0) by {}
        }
        let mut m: usize = 0;
        while m < members.len()
            invariant
                self.wf(),
                pv == self.public_view(),
                iv == self.inferred_view(),
                gv == self.groups_view(),
                members@ == ms,
                m <= members@.len(),
                forall|k: int| 0 <= k < members@.len() ==> #[trigger] members@[k] < 7,
                forall|x: int| 0 <= x < 5 ==> #[trigger] freq@[x] as int == key_freq(iv, gv, *g_out, ms, x, m as int),
                forall|x: int| 0 <= x < 5 ==> #[trigger] freq@[x] <= 3,
                key_max_alive as int == key_alive(pv, *key, ms, m as int),
            decreases members@.len() - m,
        {
            let player = members[m];
            proof { self.lemma_wf_rows(); }
            let row = &self.inferred_constraints[player];
            let ghost before = freq@;
            let mut k: usize = 0;
            while k < row.len()
                invariant
                    k <= row@.len(),
                    row@.len() <= 3,
                    row@ == iv[player as int],
                    forall|x: int| 0 <= x < 5 ==> #[trigger] freq@[x] as int == if row@.take(k as int).contains(card_at(x)) {
                        if count_card(row@, card_at(x)) > before[x] { count_card(row@, card_at(x)) as int } else { before[x] as int }
                    } else {
                        before[x] as int
                    },
                    forall|x: int| 0 <= x < 5 ==> #[trigger] before[x] <= 3,
                decreases row@.len() - k,
            {
                let n = row[k].num();
                let cnt = count_in(row, row[k]);
                proof {
                    crate::card::lemma_card_index_roundtrip(row@[k as int]);
                    crate::card::lemma_count_card_le_len(row@, row@[k as int]);
                    assert(row@.take(k as int + 1) =~= row@.take(k as int).push(row@[k as int]));
                    let t0 = row@.take(k as int);
                    let t1 = row@.take(k as int + 1);
                    assert forall|x: int| 0 <= x < 5 implies t1.contains(card_at(x))
                        == (t0.contains(card_at(x)) || row@[k as int] == card_at(x)) by {
                        if t1.contains(card_at(x)) && row@[k as int] != card_at(x) {
                            let w = choose|w: int| 0 <= w < t1.len() && #[trigger] t1[w] == card_at(x);
                            assert(w < k);
                            assert(t0[w] == card_at(x));
                        }
                        if t0.contains(card_at(x)) {
                            let w = choose|w: int| 0 <= w < t0.len() && #[trigger] t0[w] == card_at(x);
                            assert(t1[w] == card_at(x));
                        }
                        if row@[k as int] == card_at(x) {
                            assert(t1[k as int] == card_at(x));
                        }
                    }
                }
                if cnt > freq[n] {
                    freq[n] = cnt;
                }
                k += 1;
            }
            proof {
                assert(row@.take(k as int) =~= row@);
                assert forall|x: int| 0 <= x < 5 implies #[trigger] freq@[x] as int == key_freq(iv, gv, *g_out, ms, x, m as int + 1) by {
                    crate::card::lemma_count_card_contains(row@, card_at(x));
                    crate::card::lemma_count_card_le_len(row@, card_at(x));
                }
                assert forall|x: int| 0 <= x < 5 implies #[trigger] freq@[x] <= 3 by {
                    crate::card::lemma_count_card_le_len(row@, card_at(x));
                }
            }
            let dead_len = self.public_constraints[player].len() as u8;
            proof {
                assert(dead_len as int == pv[player as int].len());
                lemma_wrap_sub(key_max_alive, 1, key_max_alive as int);
                lemma_wrap_sub(key_max_alive, dead_len, key_max_alive as int);
            }
            if key.get_single_card_flag(player) {
                if dead_len == 2 {
                    key_max_alive = key_max_alive.wrapping_sub(1);
                }
            } else {
                key_max_alive = key_max_alive.wrapping_sub(dead_len);
            }
            m += 1;
        }
        (freq, key_max_alive)
    }

    /// The conclusion drawn from one group shape `key` (from `g_out`), if any (`from_key`).
    #[verifier::rlimit(100)]
    #[verifier::spinoff_prover]
    fn negation_from_key(&self, g_out: &CompressedGroupConstraint, key: &CompressedGroupConstraint,
        full: &CompressedGroupConstraint, total_freq: &[u8; 5], lives: &[u8; 7]) -> (r: Option<NegationStep>)
        requires
            self.wf(),
        ensures
            match r {
                Some(step) => step.player < 7 && 1 <= step.copies <= 2
                    && self.inferred_view()[step.player as int].len() + step.copies <= 3,
                None => true,
            },
            step_view(r) == from_key(self.public_view(), self.inferred_view(), self.groups_view(), *g_out, *key, *full,
                total_freq@, lives@),
    {
        let ghost pv = self.public_view();
        let ghost iv = self.inferred_view();
        let ghost gv = self.groups_view();
        let ghost ms = flag_list(key.plist(), 7);
        proof { self.lemma_wf_rows(); }
        let (freq, key_max_alive) = self.shape_counts(g_out, key);
        let ghost f = Seq::new(5, |x: int| key_freq(iv, gv, *g_out, ms, x, ms.len() as int));
        proof {
            assert forall|x: int| 0 <= x < 5 implies #[trigger] freq@[x] as int == f[x] by {}
            lemma_wrap_add(freq[0], freq[1], freq[0] as int);
        }
        let k01 = freq[0].wrapping_add(freq[1]);
        proof { lemma_wrap_add(k01, freq[2], k01 as int); }
        let k02 = k01.wrapping_add(freq[2]);
        proof { lemma_wrap_add(k02, freq[3], k02 as int); }
        let k03 = k02.wrapping_add(freq[3]);
        proof { lemma_wrap_add(k03, freq[4], k03 as int); }
        let key_found: u8 = k03.wrapping_add(freq[4]);
        proof {
            assert forall|x: int| 0 <= x < 5 implies #[trigger] total_freq@[x].wrapping_sub(freq@[x]) as int
                == (total_freq@[x] - f[x]) % 256 by {
                lemma_wrap_sub(total_freq@[x], freq@[x], total_freq@[x] as int);
            }
        }
        let rest: [u8; 5] = [total_freq[0].wrapping_sub(freq[0]), total_freq[1].wrapping_sub(freq[1]),
            total_freq[2].wrapping_sub(freq[2]), total_freq[3].wrapping_sub(freq[3]), total_freq[4].wrapping_sub(freq[4])];
        let ghost rs = Seq::new(5, |x: int| (total_freq@[x] - f[x]) % 256);
        proof {
            assert forall|x: int| 0 <= x < 5 implies #[trigger] rest@[x] as int == rs[x] by {}
            lemma_wrap_add(rest[0], rest[1], rest[0] as int);
        }
        let n01 = rest[0].wrapping_add(rest[1]);
        proof { lemma_wrap_add(n01, rest[2], n01 as int); }
        let n02 = n01.wrapping_add(rest[2]);
        proof { lemma_wrap_add(n02, rest[3], n02 as int); }
        let n03 = n02.wrapping_add(rest[3]);
        proof { lemma_wrap_add(n03, rest[4], n03 as int); }
        let negation: u8 = n03.wrapping_add(rest[4]);
        let mut max_negation: u8 = 0;
        let mut p: usize = 0;
        while p < 7
            invariant
                p <= 7,
                max_negation as int == max_neg(*key, lives@, p as int),
            decreases 7 - p,
        {
            if key.get_player_flag(p) && key.get_single_card_flag(p) {
                proof {
                    lemma_wrap_sub_one(lives[p as int], lives[p as int] as int);
                    lemma_wrap_add(max_negation, lives[p as int].wrapping_sub(1), max_negation as int);
                }
                max_negation = max_negation.wrapping_add(lives[p].wrapping_sub(1));
            }
            p += 1;
        }
        let open = full.iter_true_player_flags();
        let ghost op = flag_list(full.plist(), 7);
        let ghost res = from_key(pv, iv, gv, *g_out, *key, *full, total_freq@, lives@);
        proof {
            assert(open@ == op);
            assert(f =~= Seq::new(5, |x: int| key_freq(iv, gv, *g_out, flag_list(key.plist(), 7), x,
                flag_list(key.plist(), 7).len() as int)));
            assert(rs =~= Seq::new(5, |x: int| (total_freq@[x] - f[x]) % 256));
            lemma_from_key(pv, iv, gv, *g_out, *key, *full, total_freq@, lives@, f, rs, negation as int,
                max_negation as int, key_max_alive as int, key_found as int);
        }
        proof { assert(rs =~= Seq::new(5, |x: int| rest@[x] as int)); }
        if negation == 1 {
            if max_negation == 1 {
                return self.one_missing_exec(key, lives, &open, &rest);
            }
        } else if negation == 2 && key_max_alive > key_found && key_max_alive - key_found == 1 {
            return self.two_missing_exec(key, lives, &open, &rest, max_negation);
        }
        None
    }

    /// With one copy missing and one extra life: `one_missing`.
    fn one_missing_exec(&self, key: &CompressedGroupConstraint, lives: &[u8; 7], open: &Vec<usize>, rest: &[u8; 5])
        -> (r: Option<NegationStep>)
        requires
            self.wf(),
            forall|x: int| 0 <= x < open@.len() ==> #[trigger] open@[x] < 7,
        ensures
            match r {
                Some(step) => step.player < 7 && 1 <= step.copies <= 2
                    && self.inferred_view()[step.player as int].len() + step.copies <= 3,
                None => true,
            },
            step_view(r) == one_missing(self.inferred_view(), *key, lives@, open@, Seq::new(5, |x: int| rest@[x] as int), 0),
    {
        let ghost iv = self.inferred_view();
        let ghost rs = Seq::new(5, |x: int| rest@[x] as int);
        let pc = position_of_count(rest, 1);
        proof { lemma_first_with(rs, rest@, pc); }
        let mut k: usize = 0;
        while k < open.len()
            invariant
                self.wf(),
                iv == self.inferred_view(),
                k <= open@.len(),
                forall|x: int| 0 <= x < open@.len() ==> #[trigger] open@[x] < 7,
                rs == Seq::new(5, |x: int| rest@[x] as int),
                first_with(rs, 1, 0) == match pc { Some(c) => Some(c as int), None => None::<int> },
                match pc { Some(c) => c < 5, None => true },
                one_missing(iv, *key, lives@, open@, rs, 0) == one_missing(iv, *key, lives@, open@, rs, k as int),
            decreases open@.len() - k,
        {
            let player = open[k];
            proof { self.lemma_wf_rows(); }
            let eligible = !key.get_player_flag(player)
                || (key.get_single_card_flag(player) && lives[player] == 2);
            if eligible {
                match pc {
                    Some(cn) => {
                        let card = Card::from_num(cn);
                        if !contains_card(&self.inferred_constraints[player], card)
                            && self.inferred_constraints[player].len() < 3 {
                            return Some(NegationStep { player, card, copies: 1 });
                        }
                    },
                    None => {},
                }
            }
            k += 1;
        }
        None
    }

    /// With two copies missing and one slot of the shape open: `two_missing`.
    fn two_missing_exec(&self, key: &CompressedGroupConstraint, lives: &[u8; 7], open: &Vec<usize>, rest: &[u8; 5],
        max_negation: u8) -> (r: Option<NegationStep>)
        requires
            self.wf(),
            forall|x: int| 0 <= x < open@.len() ==> #[trigger] open@[x] < 7,
            open@.len() <= 7,
        ensures
            match r {
                Some(step) => step.player < 7 && 1 <= step.copies <= 2
                    && self.inferred_view()[step.player as int].len() + step.copies <= 3,
                None => true,
            },
            step_view(r) == two_missing(self.inferred_view(), *key, lives@, open@, Seq::new(5, |x: int| rest@[x] as int),
                max_negation as int, 0),
    {
        let ghost iv = self.inferred_view();
        let ghost rs = Seq::new(5, |x: int| rest@[x] as int);
        let mut cn: usize = 0;
        while cn < 5
            invariant
                self.wf(),
                iv == self.inferred_view(),
                cn <= 5,
                open@.len() <= 7,
                forall|x: int| 0 <= x < open@.len() ==> #[trigger] open@[x] < 7,
                rs == Seq::new(5, |x: int| rest@[x] as int),
                two_missing(iv, *key, lives@, open@, rs, max_negation as int, 0)
                    == two_missing(iv, *key, lives@, open@, rs, max_negation as int, cn as int),
            decreases 5 - cn,
        {
            let card = Card::from_num(cn);
            if (rest[cn] == 3 || rest[cn] == 2) && max_negation == 1 {
                let s = self.outside_or_single(key, lives, open, card);
                if s.is_some() {
                    return s;
                }
            } else if rest[cn] == 3 && max_negation == 2 {
                let s = self.three_outside(key, lives, open, card);
                if s.is_some() {
                    return s;
                }
            }
            cn += 1;
        }
        None
    }

    /// With two copies missing: the first open player outside the shape with fewer than two
    /// known cards, or else the only open single-card participant with two lives and no known
    /// card (`first_outside`, `first_single`), takes one copy of `card`.
    fn outside_or_single(&self, key: &CompressedGroupConstraint, lives: &[u8; 7], open: &Vec<usize>, card: Card)
        -> (r: Option<NegationStep>)
        requires
            self.wf(),
            forall|x: int| 0 <= x < open@.len() ==> #[trigger] open@[x] < 7,
            open@.len() <= 7,
        ensures
            match r {
                Some(step) => step.player < 7 && 1 <= step.copies <= 2
                    && self.inferred_view()[step.player as int].len() + step.copies <= 3,
                None => true,
            },
            step_view(r) == match first_outside(self.inferred_view(), *key, open@, 0) {
                Some(p) => Some((p, card, 1int)),
                None => if singles_in(self.inferred_view(), *key, lives@, open@, open@.len() as int) == 1 {
                    let p = first_single(self.inferred_view(), *key, lives@, open@, open@.len() as int).unwrap();
                    if self.inferred_view()[p].len() < 3 { Some((p, card, 1int)) } else { None }
                } else {
                    None
                },
            },
    {
        let ghost iv = self.inferred_view();
        let ghost op = open@;
        let mut single: Option<usize> = None;
        let mut singles: u8 = 0;
        let mut k: usize = 0;
        while k < open.len()
            invariant
                self.wf(),
                iv == self.inferred_view(),
                op == open@,
                k <= open@.len(),
                open@.len() <= 7,
                forall|x: int| 0 <= x < open@.len() ==> #[trigger] open@[x] < 7,
                first_outside(iv, *key, op, 0) == first_outside(iv, *key, op, k as int),
                singles as int == singles_in(iv, *key, lives@, op, k as int),
                singles <= k,
                match single {
                    Some(q) => q < 7 && first_single(iv, *key, lives@, op, k as int) == Some(q as int),
                    None => first_single(iv, *key, lives@, op, k as int) is None,
                },
            decreases open@.len() - k,
        {
            let player = open[k];
            proof { self.lemma_wf_rows(); }
            let len = self.inferred_constraints[player].len();
            if !key.get_player_flag(player) {
                if len < 2 {
                    return Some(NegationStep { player, card, copies: 1 });
                }
            } else if key.get_single_card_flag(player) && lives[player] == 2 && len == 0 {
                if single.is_none() {
                    single = Some(player);
                }
                singles = singles + 1;
            }
            k += 1;
        }
        proof { lemma_single_some(iv, *key, lives@, op, open@.len() as int); }
        if singles == 1 {
            match single {
                Some(player) => {
                    proof { self.lemma_wf_rows(); }
                    if self.inferred_constraints[player].len() < 3 {
                        return Some(NegationStep { player, card, copies: 1 });
                    }
                },
                None => {},
            }
        }
        None
    }

    /// With three copies missing and two extra lives: the first open player outside the shape
    /// that can take them (`three_missing`).
    fn three_outside(&self, key: &CompressedGroupConstraint, lives: &[u8; 7], open: &Vec<usize>, card: Card)
        -> (r: Option<NegationStep>)
        requires
            self.wf(),
            forall|x: int| 0 <= x < open@.len() ==> #[trigger] open@[x] < 7,
        ensures
            match r {
                Some(step) => step.player < 7 && 1 <= step.copies <= 2
                    && self.inferred_view()[step.player as int].len() + step.copies <= 3,
                None => true,
            },
            step_view(r) == three_missing(self.inferred_view(), *key, lives@, open@, card, 0),
    {
        let ghost iv = self.inferred_view();
        let mut k: usize = 0;
        while k < open.len()
            invariant
                self.wf(),
                iv == self.inferred_view(),
                k <= open@.len(),
                forall|x: int| 0 <= x < open@.len() ==> #[trigger] open@[x] < 7,
                three_missing(iv, *key, lives@, open@, card, 0) == three_missing(iv, *key, lives@, open@, card, k as int),
            decreases open@.len() - k,
        {
            let player = open[k];
            proof { self.lemma_wf_rows(); }
            let len = self.inferred_constraints[player].len();
            if !key.get_player_flag(player) {
                if lives[player] == 2 {
                    if len == 0 {
                        return Some(NegationStep { player, card, copies: 2 });
                    } else if len == 1 {
                        return Some(NegationStep { player, card, copies: 1 });
                    }
                } else if len < 2 {
                    return Some(NegationStep { player, card, copies: 1 });
                }
            }
            k += 1;
        }
        None
    }

    /// One step of reasoning on what must lie outside the groups (`remaining_negation_step`):
    /// when it concludes, the card joins the player's known cards (once or twice) and true is
    /// returned; otherwise nothing changes.
    pub fn add_inferred_remaining_negation(&mut self) -> (r: bool)
        requires
            old(self).wf(),
        ensures
            final(self).wf(),
            final(self).public_view() == old(self).public_view(),
            final(self).groups_view() == old(self).groups_view(),
            final(self).impossible_view() == old(self).impossible_view(),
            final(self).history_view() == old(self).history_view(),
            final(self).move_no_spec() == old(self).move_no_spec(),
            !r ==> final(self).inferred_view() == old(self).inferred_view(),
            r ==> exists|p: int, card: Card, n: int| 0 <= p < 7 && 1 <= n <= 2 &&
                #[trigger] row_extended(final(self).inferred_view(), old(self).inferred_view(), p, card, n),
            known_kept(final(self).inferred_view(), old(self).inferred_view()),
            r == (final(self).inferred_view() != old(self).inferred_view()),
            r == neg_scan(old(self).public_view(), old(self).inferred_view(), old(self).groups_view(), 0, 0, Set::empty()) is Some,
            match neg_scan(old(self).public_view(), old(self).inferred_view(), old(self).groups_view(), 0, 0, Set::empty()) {
                Some(s) => row_extended(final(self).inferred_view(), old(self).inferred_view(), s.0, s.1, s.2),
                None => final(self).inferred_view() == old(self).inferred_view(),
            },
    {
        match self.remaining_negation_step() {
            Some(step) => {
                proof { self.lemma_wf_rows(); }
                let ghost inf0 = self.inferred_view();
                let p = step.player;
                self.inferred_constraints[p].push(step.card);
                if step.copies == 2 {
                    proof { super::lemma_rows(self.inferred_constraints@, p as int); }
                    self.inferred_constraints[p].push(step.card);
                }
                proof {
                    let target = inf0.update(p as int, inf0[p as int] + Seq::new(step.copies as nat, |x: int| step.card));
                    assert(inf0[p as int] + Seq::new(step.copies as nat, |x: int| step.card) =~= self.inferred_constraints@[p as int]@);
                    assert(self.inferred_view() =~= target);
                    assert(row_extended(self.inferred_view(), inf0, p as int, step.card, step.copies as int));
                    assert(self.inferred_view()[p as int].len() > inf0[p as int].len());
                    assert forall|q: int| 0 <= q < 7 implies (#[trigger] inf0[q]).is_prefix_of(self.inferred_view()[q]) by {
                        assert(inf0[q] =~= self.inferred_view()[q].subrange(0, inf0[q].len() as int));
                    }
                }
                true
            },
            None => false,
        }
    }
}

} // verus!
