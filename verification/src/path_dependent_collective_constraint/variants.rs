use vstd::prelude::*;
use crate::card::{Card, contains_card, swap_remove_card_from, swap_remove_card, count_card};
use super::{PathDependentCollectiveConstraint, ActionInfo, clone_table, clone_cards, rows, lemma_rows, empty_table};

verus! {

/// Every table of `variants` has seven rows, and in each the row of `player` holds `reveal`.
pub open spec fn variants_hold(variants: Seq<Vec<Vec<Card>>>, player: int, reveal: Card) -> bool {
    forall|k: int| 0 <= k < variants.len() ==> (#[trigger] variants[k])@.len() == 7
        && variants[k]@[player]@.contains(reveal)
}

/// Every table of `variants` has seven rows, fewer than three cards for the player, fewer
/// than four for the pile, fewer than four copies of `reveal` (counted in wrapping 8-bit
/// arithmetic), and every other row as in `base`.
pub open spec fn variants_fit(variants: Seq<Vec<Vec<Card>>>, player: int, pile: int, reveal: Card, base: Seq<Seq<Card>>) -> bool {
    forall|k: int| 0 <= k < variants.len() ==> {
        let t = rows((#[trigger] variants[k])@);
        &&& variants[k]@.len() == 7
        &&& t[player].len() < 3
        &&& t[pile].len() < 4
        &&& super::table_count(t, reveal) % 256 < 4
        &&& forall|i: int| 0 <= i < 7 && i != player && i != pile ==> #[trigger] t[i] == base[i]
    }
}

/// The player's row with `reveal` added unless it is there.
pub open spec fn with_reveal(row: Seq<Card>, reveal: Card) -> Seq<Card> {
    if row.contains(reveal) { row } else { row.push(reveal) }
}

/// The table `t` with the player's row `row` is a possible one: the player holds fewer than
/// three cards, the pile fewer than four, and there are fewer than four copies of `reveal`.
pub open spec fn table_fits(t: Seq<Seq<Card>>, player: int, pile: int, reveal: Card, row: Seq<Card>) -> bool {
    let t0 = t.update(player, row);
    row.len() < 3 && t0[pile].len() < 4 && super::table_count(t0, reveal) < 4
}

proof fn lemma_copies_rows(t: Seq<Vec<Card>>, card: Card, n: int)
    requires
        0 <= n <= t.len(),
    ensures
        copies_in(t, card, n) == super::table_count(rows(t).take(n), card),
    decreases n,
{
    if n > 0 {
        lemma_copies_rows(t, card, n - 1);
        lemma_rows(t, n - 1);
        assert(rows(t).take(n).drop_last() =~= rows(t).take(n - 1));
    }
}

/// Copies of `card` over rows `0..n` of `t`.
pub open spec fn copies_in(t: Seq<Vec<Card>>, card: Card, n: int) -> int
    decreases n,
{
    if n <= 0 { 0 } else { copies_in(t, card, n - 1) + count_card(t[n - 1]@, card) }
}

/// Copies of `card` over all rows of `t`, in wrapping 8-bit arithmetic.
fn total_copies(t: &Vec<Vec<Card>>, card: Card) -> (r: u8)
    ensures
        r == copies_in(t@, card, t@.len() as int) % 256,
{
    let mut n: u8 = 0;
    let mut p: usize = 0;
    while p < t.len()
        invariant
            p <= t@.len(),
            n == copies_in(t@, card, p as int) % 256,
        decreases t@.len() - p,
    {
        let row = &t[p];
        let mut k: usize = 0;
        while k < row.len()
            invariant
                k <= row@.len(),
                p < t@.len(),
                row == &t@[p as int],
                n == (copies_in(t@, card, p as int) + count_card(row@.take(k as int), card)) % 256,
            decreases row@.len() - k,
        {
            assert(row@.take(k as int + 1).drop_last() =~= row@.take(k as int));
            if row[k] == card {
                n = n.wrapping_add(1);
            }
            k += 1;
        }
        assert(row@.take(k as int) =~= row@);
        p += 1;
    }
    n
}

/// The position of the last `card` in `v`, where `v` holds one.
pub open spec fn last_index(v: Seq<Card>, card: Card) -> int {
    choose|k: int| 0 <= k < v.len() && v[k] == card && forall|j: int| k < j < v.len() ==> v[j] != card
}

/// `v` with its last `card` removed, the last element moved into its place.
pub open spec fn without_last(v: Seq<Card>, card: Card) -> Seq<Card> {
    if v.contains(card) { v.update(last_index(v, card), v.last()).drop_last() } else { v }
}

/// Removes the last `card` of `v`, moving the last element into its place; says whether
/// `v` held `card`.
fn swap_remove_last(v: &mut Vec<Card>, card: Card) -> (r: bool)
    ensures
        r == old(v)@.contains(card),
        r ==> exists|k: int| 0 <= k < old(v)@.len() && old(v)@[k] == card
            && (forall|j: int| k < j < old(v)@.len() ==> old(v)@[j] != card)
            && final(v)@ == old(v)@.update(k, old(v)@.last()).drop_last(),
        !r ==> final(v)@ == old(v)@,
        final(v)@ == without_last(old(v)@, card),
{
    let mut k: usize = v.len();
    while k > 0
        invariant
            k <= v@.len(),
            v@ == old(v)@,
            forall|j: int| k <= j < v@.len() ==> v@[j] != card,
        decreases k,
    {
        k -= 1;
        if v[k] == card {
            let ghost v0 = v@;
            v.swap_remove(k);
            proof {
                assert(v@ =~= v0.update(k as int, v0.last()).drop_last());
                assert(v0.contains(card)) by { assert(v0[k as int] == card); }
                let m = last_index(v0, card);
                assert(0 <= m < v0.len() && v0[m] == card && forall|j: int| m < j < v0.len() ==> v0[j] != card);
                if m < k { assert(v0[k as int] != card); }
                if m > k { assert(v0[m] != card); }
            }
            return true;
        }
    }
    proof {
        assert(!v@.contains(card)) by {
            if v@.contains(card) {
                let j = choose|j: int| 0 <= j < v@.len() && v@[j] == card;
                assert(v@[j] != card);
            }
        }
    }
    false
}

/// `s` with `x` pushed and then its last `x` removed is `s` again.
proof fn lemma_without_pushed(s: Seq<Card>, x: Card)
    ensures
        without_last(s.push(x), x) == s,
{
    let v = s.push(x);
    assert(v[s.len() as int] == x);
    assert(v.contains(x));
    let k = last_index(v, x);
    assert(0 <= k < v.len() && v[k] == x && forall|j: int| k < j < v.len() ==> v[j] != x);
    if k < s.len() {
        assert(v[s.len() as int] != x);
    }
    assert(v.update(k, v.last()).drop_last() =~= s);
}

proof fn lemma_last_index_exists(v: Seq<Card>, d: Card)
    requires
        v.contains(d),
    ensures
        exists|k: int| 0 <= k < v.len() && v[k] == d && forall|j: int| k < j < v.len() ==> v[j] != d,
    decreases v.len(),
{
    if v.last() == d {
        assert(v[v.len() - 1] == d);
    } else {
        let j = choose|j: int| 0 <= j < v.len() && v[j] == d;
        let w = v.drop_last();
        assert(w[j] == d);
        lemma_last_index_exists(w, d);
        let k = choose|k: int| 0 <= k < w.len() && w[k] == d && forall|jj: int| k < jj < w.len() ==> w[jj] != d;
        assert(v[k] == d);
        assert forall|jj: int| k < jj < v.len() implies v[jj] != d by {
            if jj < w.len() { assert(w[jj] == v[jj]); }
        }
    }
}

/// Removing the last `d` from `v` lowers the count of `d` by one when `v` held it, and no
/// other count.
proof fn lemma_count_without_last(v: Seq<Card>, d: Card, x: Card)
    ensures
        count_card(without_last(v, d), x) as int == count_card(v, x) as int - (if x == d && v.contains(d) { 1int } else { 0int }),
{
    if v.contains(d) {
        lemma_last_index_exists(v, d);
        let k = last_index(v, d);
        let t = v.update(k, v.last());
        crate::card::lemma_count_card_update(v, k, v.last(), x);
        assert(t.last() == v.last());
        assert(count_card(t, x) == count_card(t.drop_last(), x) + if t.last() == x { 1nat } else { 0nat });
    }
}

/// In the table where player `p`'s card `i` went to the pile and `reveal` came back, counted
/// per card: the player's row loses that card and gains `reveal`, the pile gains that card and
/// loses a `reveal` when it then held one, and the other rows stay. With the pile then
/// holding `reveal`, every card's copies over the player's row and the pile are conserved.
pub proof fn law_swap_variant_moves_card(t: Seq<Seq<Card>>, p: int, reveal: Card, i: int, x: Card)
    requires
        t.len() == 7,
        0 <= p < 6,
        0 <= i < t[p].len(),
    ensures
        ({
            let b = opt_swap(t, p, reveal, i);
            let c = t[p][i];
            &&& count_card(b[p], x) as int == count_card(t[p], x) as int - (if x == c { 1int } else { 0int })
                + (if x == reveal { 1int } else { 0int })
            &&& count_card(b[6], x) as int == count_card(t[6], x) as int + (if x == c { 1int } else { 0int })
                - (if x == reveal && t[6].push(c).contains(reveal) { 1int } else { 0int })
            &&& forall|q: int| 0 <= q < 7 && q != p && q != 6 ==> #[trigger] b[q] == t[q]
            &&& t[6].push(c).contains(reveal)
                ==> count_card(b[p], x) + count_card(b[6], x) == count_card(t[p], x) + count_card(t[6], x)
        }),
{
    let c = t[p][i];
    assert(t[p].contains(c));
    crate::card::lemma_count_swap_remove_card(t[p], c, x);
    crate::card::lemma_count_card_push(swap_remove_card(t[p], c), reveal, x);
    crate::card::lemma_count_card_push(t[6], c, x);
    lemma_count_without_last(t[6].push(c), reveal, x);
}

/// In the table where player `p`'s cards stay (step `i`), counted per card: the player's row
/// keeps its cards and gains `reveal`, the pile keeps its cards but a `reveal` it held, and the
/// other rows stay.
pub proof fn law_stay_variant_keeps_cards(t: Seq<Seq<Card>>, p: int, reveal: Card, i: int, x: Card)
    requires
        t.len() == 7,
        0 <= p < 6,
        0 <= i <= t[p].len(),
        i > 0 ==> i - 1 < t[p].len(),
    ensures
        ({
            let b = opt_stay(t, p, reveal, i);
            &&& count_card(b[p], x) as int == count_card(t[p], x) as int + (if x == reveal { 1int } else { 0int })
            &&& count_card(b[6], x) as int == count_card(t[6], x) as int
                - (if x == reveal && t[6].contains(reveal) { 1int } else { 0int })
            &&& forall|q: int| 0 <= q < 7 && q != p && q != 6 ==> #[trigger] b[q] == t[q]
        }),
{
    let hand = opt_hand(t, p, i);
    let pile = opt_pile(t, p, reveal, i);
    if i > 0 {
        let c = t[p][i - 1];
        assert(t[p].contains(c));
        crate::card::lemma_count_swap_remove_card(t[p], c, x);
        crate::card::lemma_count_card_push(swap_remove_card(t[p], c), c, x);
        let p0 = t[6].push(c);
        crate::card::lemma_count_card_push(t[6], c, x);
        let p1 = if p0.contains(reveal) { without_last(p0, reveal).push(reveal) } else { p0 };
        if p0.contains(reveal) {
            lemma_count_without_last(p0, reveal, x);
            crate::card::lemma_count_card_push(without_last(p0, reveal), reveal, x);
        }
        assert(p1.contains(c)) by {
            crate::card::lemma_count_card_contains(p0, c);
            crate::card::lemma_count_card_contains(p1, c);
            if p0.contains(reveal) {
                lemma_count_without_last(p0, reveal, c);
                crate::card::lemma_count_card_push(without_last(p0, reveal), reveal, c);
            }
        }
        lemma_count_without_last(p1, c, x);
        assert(count_card(pile, x) == count_card(t[6], x));
        assert(pile.contains(reveal) == t[6].contains(reveal)) by {
            crate::card::lemma_count_card_contains(pile, reveal);
            crate::card::lemma_count_card_contains(t[6], reveal);
            if p0.contains(reveal) {
                lemma_count_without_last(p0, reveal, reveal);
                crate::card::lemma_count_card_push(without_last(p0, reveal), reveal, reveal);
            }
            lemma_count_without_last(p1, c, reveal);
            crate::card::lemma_count_card_push(t[6], c, reveal);
        }
    }
    crate::card::lemma_count_card_push(hand, reveal, x);
    lemma_count_without_last(pile, reveal, x);
}

/// For a player without known cards, the single table gives the player `reveal` alone and
/// takes a `reveal` the pile held out of it; the other rows stay.
pub proof fn law_single_variant(t: Seq<Seq<Card>>, p: int, reveal: Card, x: Card)
    requires
        t.len() == 7,
        0 <= p < 6,
    ensures
        ({
            let b = opt_single(t, p, reveal);
            &&& b[p] == seq![reveal]
            &&& count_card(b[6], x) as int == count_card(t[6], x) as int
                - (if x == reveal && t[6].contains(reveal) { 1int } else { 0int })
            &&& forall|q: int| 0 <= q < 7 && q != p && q != 6 ==> #[trigger] b[q] == t[q]
        }),
{
    lemma_count_without_last(t[6], reveal, x);
}

/// The player's known cards at the start of step `i` of
/// `return_variants_reveal_redraw_none_opt`: its own cards, and after the first step those
/// with card `i - 1` moved to the end.
pub open spec fn opt_hand(t: Seq<Seq<Card>>, player: int, i: int) -> Seq<Card> {
    if i == 0 {
        t[player]
    } else {
        let c = t[player][i - 1];
        swap_remove_card(t[player], c).push(c)
    }
}

/// The pile's known cards at the start of step `i`: its own cards, and after the first step
/// those with card `i - 1` of the player passed through it (and a `reveal` it held moved to
/// the end).
pub open spec fn opt_pile(t: Seq<Seq<Card>>, player: int, reveal: Card, i: int) -> Seq<Card> {
    if i == 0 {
        t[6]
    } else {
        let c = t[player][i - 1];
        let p0 = t[6].push(c);
        let p1 = if p0.contains(reveal) { without_last(p0, reveal).push(reveal) } else { p0 };
        without_last(p1, c)
    }
}

/// The table of step `i` in which the player's cards stay: the player's cards of the step
/// plus `reveal`, the pile's without its last `reveal`.
pub open spec fn opt_stay(t: Seq<Seq<Card>>, player: int, reveal: Card, i: int) -> Seq<Seq<Card>> {
    t.update(player, opt_hand(t, player, i).push(reveal)).update(6, without_last(opt_pile(t, player, reveal, i), reveal))
}

/// The table of step `i` in which the player's card `i` went to the pile: the player's cards
/// without it plus `reveal`, the pile's with it and without its last `reveal`.
pub open spec fn opt_swap(t: Seq<Seq<Card>>, player: int, reveal: Card, i: int) -> Seq<Seq<Card>> {
    let c = t[player][i];
    t.update(player, swap_remove_card(t[player], c).push(reveal)).update(6, without_last(t[6].push(c), reveal))
}

/// A table is kept: fewer than three cards for the player, fewer than four for the pile, and
/// fewer than four copies of `reveal` (counted in wrapping 8-bit arithmetic).
pub open spec fn opt_kept(c: Seq<Seq<Card>>, player: int, reveal: Card) -> bool {
    c[player].len() < 3 && c[6].len() < 4 && super::table_count(c, reveal) % 256 < 4
}

/// The tables kept among steps `0..n`, in order, each step giving its staying table and
/// then its swapped one.
pub open spec fn opt_variants(t: Seq<Seq<Card>>, player: int, reveal: Card, n: int) -> Seq<Seq<Seq<Card>>>
    decreases n,
{
    if n <= 0 {
        Seq::empty()
    } else {
        let prev = opt_variants(t, player, reveal, n - 1);
        let a = opt_stay(t, player, reveal, n - 1);
        let b = opt_swap(t, player, reveal, n - 1);
        let with_a = if opt_kept(a, player, reveal) { prev.push(a) } else { prev };
        if opt_kept(b, player, reveal) { with_a.push(b) } else { with_a }
    }
}

/// The single table for a player without known cards: it holds `reveal`, and the pile loses
/// its last `reveal`.
pub open spec fn opt_single(t: Seq<Seq<Card>>, player: int, reveal: Card) -> Seq<Seq<Card>> {
    t.update(player, seq![reveal]).update(6, without_last(t[6], reveal))
}

/// The tables `return_variants_reveal_redraw_none_opt` gives for a player (not the pile)
/// with known cards `t`: none when the player and the pile hold five cards and no `reveal`;
/// for a player without known cards, the single table if it has fewer than four copies of
/// `reveal`; otherwise `opt_variants`.
pub open spec fn redraw_none_variants(t: Seq<Seq<Card>>, player: int, reveal: Card) -> Seq<Seq<Seq<Card>>> {
    let hand = t[player];
    let single = opt_single(t, player, reveal);
    if hand.len() <= 5 && t[6].len() == 5 - hand.len() && !hand.contains(reveal) && !t[6].contains(reveal) {
        Seq::empty()
    } else if hand.len() == 0 {
        if super::table_count(single, reveal) % 256 < 4 { seq![single] } else { Seq::empty() }
    } else {
        opt_variants(t, player, reveal, hand.len() as int)
    }
}

/// The player's and the pile's cards at the start of step `i` of
/// `return_variants_reveal_relinquish_opt`: each step moves the player's card `i` to the end
/// (in place of where the step took it from) and passes it through the pile.
pub open spec fn rel_state(t: Seq<Seq<Card>>, player: int, reveal: Card, i: int) -> (Seq<Card>, Seq<Card>)
    decreases i,
{
    if i <= 0 {
        (t[player], t[6])
    } else {
        let prev = rel_state(t, player, reveal, i - 1);
        let c = t[player][i - 1];
        let p0 = prev.1.push(c);
        let p1 = if p0.contains(reveal) { without_last(p0, reveal).push(reveal) } else { p0 };
        (super::group_ops::swap_removed(prev.0, i - 1).push(c), without_last(p1, c))
    }
}

/// The table of step `i` of `return_variants_reveal_relinquish_opt`: the player's card `i`
/// went to the pile and `reveal` came from it.
pub open spec fn rel_table(t: Seq<Seq<Card>>, player: int, reveal: Card, i: int) -> Seq<Seq<Card>> {
    let st = rel_state(t, player, reveal, i);
    let c = t[player][i];
    t.update(player, super::group_ops::swap_removed(st.0, i).push(reveal)).update(6, without_last(st.1.push(c), reveal))
}

/// The tables of `v` as rows.
pub open spec fn tables(v: Seq<Vec<Vec<Card>>>) -> Seq<Seq<Seq<Card>>> {
    v.map_values(|x: Vec<Vec<Card>>| rows(x@))
}

/// The cards of `player` then those of the pile, each with its holder.
fn source_cards(inferred: &Vec<Vec<Card>>, player: usize) -> (r: Vec<(usize, Card)>)
    requires
        inferred@.len() == 7,
        player < 7,
    ensures
        forall|k: int| 0 <= k < r@.len() ==> (#[trigger] r@[k]).0 < 7,
        r@.len() == inferred@[player as int]@.len() + inferred@[6]@.len(),
        forall|k: int| 0 <= k < inferred@[player as int]@.len() ==> #[trigger] r@[k] == (player, inferred@[player as int]@[k]),
        forall|k: int| 0 <= k < inferred@[6]@.len() ==>
            #[trigger] r@[inferred@[player as int]@.len() + k] == (6usize, inferred@[6]@[k]),
{
    let mut r: Vec<(usize, Card)> = Vec::new();
    let holders: [usize; 2] = [player, 6];
    let mut h: usize = 0;
    while h < 2
        invariant
            h <= 2,
            player < 7,
            inferred@.len() == 7,
            holders@[0] == player && holders@[1] == 6,
            forall|k: int| 0 <= k < r@.len() ==> (#[trigger] r@[k]).0 < 7,
            h == 0 ==> r@.len() == 0,
            h >= 1 ==> r@.len() == inferred@[player as int]@.len() + if h == 2 { inferred@[6]@.len() } else { 0 },
            h >= 1 ==> forall|k: int| 0 <= k < inferred@[player as int]@.len() ==> #[trigger] r@[k] == (player, inferred@[player as int]@[k]),
            h == 2 ==> forall|k: int| 0 <= k < inferred@[6]@.len() ==>
                #[trigger] r@[inferred@[player as int]@.len() + k] == (6usize, inferred@[6]@[k]),
        decreases 2 - h,
    {
        let who = holders[h];
        let row = &inferred[who];
        let ghost r0 = r@;
        let mut k: usize = 0;
        while k < row.len()
            invariant
                k <= row@.len(),
                who < 7,
                forall|m: int| 0 <= m < r@.len() ==> (#[trigger] r@[m]).0 < 7,
                r@.len() == r0.len() + k,
                forall|m: int| 0 <= m < r0.len() ==> #[trigger] r@[m] == r0[m],
                forall|m: int| 0 <= m < k ==> #[trigger] r@[r0.len() + m] == (who, row@[m]),
            decreases row@.len() - k,
        {
            r.push((who, row[k]));
            k += 1;
        }
        proof {
            if h == 0 {
                assert forall|m: int| 0 <= m < inferred@[player as int]@.len() implies
                    #[trigger] r@[m] == (player, inferred@[player as int]@[m]) by {
                    assert(r@[r0.len() + m] == (who, row@[m]));
                }
            }
            if h == 1 {
                assert forall|m: int| 0 <= m < inferred@[6]@.len() implies
                    #[trigger] r@[inferred@[player as int]@.len() + m] == (6usize, inferred@[6]@[m]) by {
                    assert(r@[r0.len() + m] == (who, row@[m]));
                }
            }
        }
        h += 1;
    }
    r
}

/// The known cards before `p` revealed `reveal` and drew `redraw`, given those after (`t`):
/// `redraw` leaves the player's row, goes back to the pile in place of `reveal`, and
/// `reveal` returns to the player.
pub open spec fn reveal_redraw_before(t: Seq<Seq<Card>>, reveal: Card, redraw: Card, p: int) -> Seq<Seq<Card>> {
    let t1 = t.update(p, swap_remove_card(t[p], redraw));
    let t2 = t1.update(6, swap_remove_card(t1[6].push(redraw), reveal));
    t2.update(p, t2[p].push(reveal))
}

/// Undoing a reveal of `reveal` and a redraw of `redraw` by player `p` moves one `redraw` from
/// the player's row to the pile and one `reveal` from the pile (with that `redraw` in it) to
/// the player: counted per card, the player's row loses the `redraw` it held and gains
/// `reveal`, the pile gains `redraw` and loses the `reveal` it held, and the other rows stay.
/// When the player held `redraw` and the pile (with it) held `reveal`, every card's copies
/// over the player's row and the pile are conserved.
pub proof fn law_undo_reveal_redraw_moves_cards(t: Seq<Seq<Card>>, reveal: Card, redraw: Card, p: int, c: Card)
    requires
        t.len() == 7,
        0 <= p < 6,
    ensures
        ({
            let b = reveal_redraw_before(t, reveal, redraw, p);
            &&& b.len() == 7
            &&& count_card(b[p], c) as int == count_card(t[p], c) as int
                - (if c == redraw && t[p].contains(redraw) { 1int } else { 0int })
                + (if c == reveal { 1int } else { 0int })
            &&& count_card(b[6], c) as int == count_card(t[6], c) as int + (if c == redraw { 1int } else { 0int })
                - (if c == reveal && t[6].push(redraw).contains(reveal) { 1int } else { 0int })
            &&& forall|q: int| 0 <= q < 7 && q != p && q != 6 ==> #[trigger] b[q] == t[q]
            &&& t[p].contains(redraw) && t[6].push(redraw).contains(reveal)
                ==> count_card(b[p], c) + count_card(b[6], c) == count_card(t[p], c) + count_card(t[6], c)
        }),
{
    let t1 = t.update(p, swap_remove_card(t[p], redraw));
    let t2 = t1.update(6, swap_remove_card(t1[6].push(redraw), reveal));
    crate::card::lemma_count_swap_remove_card(t[p], redraw, c);
    crate::card::lemma_count_card_push(t[6], redraw, c);
    crate::card::lemma_count_swap_remove_card(t[6].push(redraw), reveal, c);
    crate::card::lemma_count_card_push(t2[p], reveal, c);
    assert(t1[6] == t[6]);
    assert(t2[p] == t1[p]);
}

/// `t` with row `p` replaced by `row`.
fn with_row(t: &Vec<Vec<Card>>, p: usize, row: &Vec<Card>) -> (r: Vec<Vec<Card>>)
    requires
        p < t@.len(),
    ensures
        r@.len() == t@.len(),
        r@[p as int]@ == row@,
        forall|k: int| 0 <= k < t@.len() && k != p ==> #[trigger] r@[k]@ == t@[k]@,
{
    let mut r = clone_table(t);
    r.set(p, clone_cards(row));
    r
}

impl PathDependentCollectiveConstraint {
    /// When a reveal of `reveal` by `player_loop` was followed by an unknown redraw: the
    /// known cards before it that are consistent with the ones after (`inferred_constraints`),
    /// from `build_variants_reveal_redraw_none_opt`; none when the player and the pile hold
    /// five cards and no `reveal`.
    pub fn return_variants_reveal_redraw_none(reveal: Card, player_loop: usize, inferred_constraints: &Vec<Vec<Card>>)
        -> (r: Vec<Vec<Vec<Card>>>)
        requires
            inferred_constraints@.len() == 7,
            player_loop < 7,
        ensures
            variants_hold(r@, player_loop as int, reveal),
            variants_fit(r@, player_loop as int, 6, reveal, rows(inferred_constraints@)),
            ({
                let t = rows(inferred_constraints@);
                let hand = t[player_loop as int];
                let early = hand.len() <= 5 && t[6].len() == 5 - hand.len() && !hand.contains(reveal) && !t[6].contains(reveal);
                &&& early ==> r@.len() == 0
                &&& !early && table_fits(t, player_loop as int, 6, reveal, with_reveal(hand, reveal)) ==> r@.len() >= 1
            }),
    {
        proof {
            lemma_rows(inferred_constraints@, player_loop as int);
            lemma_rows(inferred_constraints@, 6);
        }
        let mut variants: Vec<Vec<Vec<Card>>> = Vec::new();
        if inferred_constraints[player_loop].len() <= 5 && inferred_constraints[6].len() == 5 - inferred_constraints[player_loop].len()
            && !contains_card(&inferred_constraints[player_loop], reveal)
            && !contains_card(&inferred_constraints[6], reveal) {
            return variants;
        }
        let source = source_cards(inferred_constraints, player_loop);
        proof {
            assert forall|k: int| 0 <= k < source@.len() implies (#[trigger] source@[k]).0 == player_loop || source@[k].0 == 6 by {
                if k < inferred_constraints@[player_loop as int]@.len() {
                    assert(source@[k] == (player_loop, inferred_constraints@[player_loop as int]@[k]));
                } else {
                    let j = k - inferred_constraints@[player_loop as int]@.len();
                    assert(source@[inferred_constraints@[player_loop as int]@.len() + j] == (6usize, inferred_constraints@[6]@[j]));
                }
            }
        }
        Self::build_variants_reveal_redraw_none_opt(reveal, source.as_slice(), 0, player_loop, 6, 0, 0, inferred_constraints,
            &mut variants, inferred_constraints);
        variants
    }

    /// The known cards before a reveal of `reveal` by `player_loop` with unknown redraw, built
    /// card by card: the player held `reveal` first, or in turn each of its known cards while
    /// the pile held `reveal`. Only tables with fewer than three cards for the player, fewer
    /// than four for the pile and fewer than four copies of `reveal` are kept.
    #[verifier::rlimit(100)]
    #[verifier::spinoff_prover]
    pub fn return_variants_reveal_redraw_none_opt(reveal: Card, player_loop: usize, inferred_constraints: &Vec<Vec<Card>>)
        -> (r: Vec<Vec<Vec<Card>>>)
        requires
            inferred_constraints@.len() == 7,
            player_loop < 7,
        ensures
            player_loop != 6 ==> variants_hold(r@, player_loop as int, reveal),
            ({
                let t = rows(inferred_constraints@);
                let hand = t[player_loop as int];
                let early = hand.len() <= 5 && t[6].len() == 5 - hand.len() && !hand.contains(reveal) && !t[6].contains(reveal);
                let single = opt_single(t, player_loop as int, reveal);
                &&& early ==> r@.len() == 0
                &&& !early && hand.len() == 0 && player_loop != 6 ==> tables(r@) ==
                    if super::table_count(single, reveal) % 256 < 4 { seq![single] } else { Seq::empty() }
                &&& !early && hand.len() > 0 && player_loop != 6 ==> tables(r@) == opt_variants(t, player_loop as int, reveal, hand.len() as int)
            }),
            player_loop != 6 ==> tables(r@) == redraw_none_variants(rows(inferred_constraints@), player_loop as int, reveal),
    {
        proof {
            lemma_rows(inferred_constraints@, player_loop as int);
            lemma_rows(inferred_constraints@, 6);
        }
        let mut variants: Vec<Vec<Vec<Card>>> = Vec::new();
        if inferred_constraints[player_loop].len() <= 5 && inferred_constraints[6].len() == 5 - inferred_constraints[player_loop].len()
            && !contains_card(&inferred_constraints[player_loop], reveal)
            && !contains_card(&inferred_constraints[6], reveal) {
            proof { assert(tables(variants@) =~= Seq::<Seq<Seq<Card>>>::empty()); }
            return variants;
        }
        let ghost t = rows(inferred_constraints@);
        let mut player_hand = clone_cards(&inferred_constraints[player_loop]);
        let mut pile_hand = clone_cards(&inferred_constraints[6]);
        if player_hand.len() == 0 {
            swap_remove_last(&mut pile_hand, reveal);
            player_hand.push(reveal);
            let temp = with_row(&with_row(inferred_constraints, player_loop, &player_hand), 6, &pile_hand);
            proof {
                if player_loop != 6 {
                    assert(player_hand@ =~= seq![reveal]);
                    assert(rows(temp@) =~= opt_single(t, player_loop as int, reveal));
                    lemma_copies_rows(temp@, reveal, 7);
                    assert(rows(temp@).take(7) =~= rows(temp@));
                }
            }
            if temp[player_loop].len() < 3 && total_copies(&temp, reveal) < 4 {
                assert(player_hand@.contains(reveal)) by { assert(player_hand@[player_hand@.len() - 1] == reveal); }
                variants.push(temp);
                proof {
                    if player_loop != 6 {
                        assert(tables(variants@) =~= seq![opt_single(t, player_loop as int, reveal)]);
                    }
                }
            } else {
                proof { assert(tables(variants@) =~= Seq::<Seq<Seq<Card>>>::empty()); }
            }
            return variants;
        }
        let n = inferred_constraints[player_loop].len();
        let ghost hand = t[player_loop as int];
        let mut i: usize = 0;
        proof { assert(tables(variants@) =~= opt_variants(t, player_loop as int, reveal, 0)); }
        while i < n
            invariant
                i <= n,
                n == inferred_constraints@[player_loop as int]@.len(),
                inferred_constraints@.len() == 7,
                player_loop < 7,
                player_loop != 6 ==> variants_hold(variants@, player_loop as int, reveal),
                t == rows(inferred_constraints@),
                hand == t[player_loop as int],
                hand == inferred_constraints@[player_loop as int]@,
                t[6] == inferred_constraints@[6]@,
                player_hand@ == opt_hand(t, player_loop as int, i as int),
                pile_hand@ == opt_pile(t, player_loop as int, reveal, i as int),
                player_loop != 6 ==> tables(variants@) == opt_variants(t, player_loop as int, reveal, i as int),
            decreases n - i,
        {
            let card_player = inferred_constraints[player_loop][i];
            let ghost v_start = variants@;
            // the player's cards stay
            let moved = swap_remove_last(&mut pile_hand, reveal);
            player_hand.push(reveal);
            let temp = with_row(&with_row(inferred_constraints, player_loop, &player_hand), 6, &pile_hand);
            proof { assert(player_hand@[player_hand@.len() - 1] == reveal); }
            let ghost cand = rows(temp@);
            proof {
                if player_loop != 6 {
                    assert(cand =~= opt_stay(t, player_loop as int, reveal, i as int));
                    lemma_copies_rows(temp@, reveal, 7);
                    assert(rows(temp@).take(7) =~= rows(temp@));
                }
            }
            swap_remove_last(&mut player_hand, reveal);
            if moved {
                pile_hand.push(reveal);
            }
            if temp[player_loop].len() < 3 && temp[6].len() < 4 && total_copies(&temp, reveal) < 4 {
                variants.push(temp);
                proof {
                    if player_loop != 6 {
                        assert(tables(variants@) =~= tables(v_start).push(cand));
                    }
                }
            }
            let ghost v_mid = variants@;
            // the player's card went to the pile
            player_hand = clone_cards(&inferred_constraints[player_loop]);
            pile_hand = clone_cards(&inferred_constraints[6]);
            swap_remove_card_from(&mut player_hand, card_player);
            let ghost hb = player_hand@;
            pile_hand.push(card_player);
            let ghost pb0 = pile_hand@;
            let moved2 = swap_remove_last(&mut pile_hand, reveal);
            let ghost pb1 = pile_hand@;
            player_hand.push(reveal);
            let temp2 = with_row(&with_row(inferred_constraints, player_loop, &player_hand), 6, &pile_hand);
            proof { assert(player_hand@[player_hand@.len() - 1] == reveal); }
            let ghost cand2 = rows(temp2@);
            proof {
                if player_loop != 6 {
                    assert(cand2 =~= opt_swap(t, player_loop as int, reveal, i as int));
                    lemma_copies_rows(temp2@, reveal, 7);
                    assert(rows(temp2@).take(7) =~= rows(temp2@));
                }
            }
            if temp2[player_loop].len() < 3 && temp2[6].len() < 4 && total_copies(&temp2, reveal) < 4 {
                variants.push(temp2);
                proof {
                    if player_loop != 6 {
                        assert(tables(variants@) =~= tables(v_mid).push(cand2));
                    }
                }
            }
            swap_remove_last(&mut player_hand, reveal);
            proof { lemma_without_pushed(hb, reveal); }
            if moved2 {
                pile_hand.push(reveal);
            }
            swap_remove_last(&mut pile_hand, card_player);
            player_hand.push(card_player);
            proof {
                assert(player_hand@ == opt_hand(t, player_loop as int, i as int + 1));
                assert(pile_hand@ == opt_pile(t, player_loop as int, reveal, i as int + 1));
            }
            i += 1;
        }
        variants
    }

    /// Builds, from `cards[idx..]`, the tables of known cards before a reveal of `reveal` by
    /// `player_loop` with unknown redraw: each card stays, or (at most once each way) moves
    /// between the player and the pile; a known `reveal` of the player ends the choice. The
    /// player is given `reveal` when it lacks it; only tables with fewer than three cards for
    /// the player, fewer than four for the pile and fewer than four copies of `reveal` are
    /// added to `variants`.
    fn build_variants_reveal_redraw_none(reveal: Card, cards: &[(usize, Card)], idx: usize, player_loop: usize,
        pile_index: usize, player_to_pile_count: u8, pile_to_player_count: u8, current: &Vec<Vec<Card>>,
        variants: &mut Vec<Vec<Vec<Card>>>)
        requires
            current@.len() == 7,
            player_loop < 7,
            pile_index < 7,
            idx <= cards@.len(),
            player_to_pile_count <= 1,
            pile_to_player_count <= 1,
            forall|k: int| 0 <= k < cards@.len() ==> (#[trigger] cards@[k]).0 < 7,
            variants_hold(old(variants)@, player_loop as int, reveal),
        ensures
            variants_hold(final(variants)@, player_loop as int, reveal),
            final(variants)@.len() >= old(variants)@.len(),
            table_fits(rows(current@), player_loop as int, pile_index as int, reveal, (if pile_to_player_count != 1 || !current@[player_loop as int]@.contains(reveal) { current@[player_loop as int]@.push(reveal) } else { current@[player_loop as int]@ }))
                ==> final(variants)@.len() > old(variants)@.len(),
        decreases cards@.len() - idx,
    {
        if idx == cards.len() {
            let mut source = clone_table(current);
            if pile_to_player_count != 1 || !contains_card(&source[player_loop], reveal) {
                let mut row = clone_cards(&source[player_loop]);
                row.push(reveal);
                assert(row@[row@.len() - 1] == reveal);
                source.set(player_loop, row);
            }
            proof {
                lemma_rows(current@, player_loop as int);
                assert(rows(source@) =~= rows(current@).update(player_loop as int, (if pile_to_player_count != 1 || !current@[player_loop as int]@.contains(reveal) { current@[player_loop as int]@.push(reveal) } else { current@[player_loop as int]@ })));
                lemma_copies_rows(source@, reveal, 7);
                assert(rows(source@).take(7) =~= rows(source@));
                lemma_rows(source@, player_loop as int);
                lemma_rows(source@, pile_index as int);
            }
            if source[player_loop].len() < 3 && source[pile_index].len() < 4 && total_copies(&source, reveal) < 4 {
                variants.push(source);
            }
            return;
        }
        let (dst, card) = cards[idx];
        if dst == player_loop && card == reveal {
            Self::build_variants_reveal_redraw_none(reveal, cards, cards.len(), player_loop, pile_index, 1, 1, current, variants);
        }
        Self::build_variants_reveal_redraw_none(reveal, cards, idx + 1, player_loop, pile_index, player_to_pile_count,
            pile_to_player_count, current, variants);
        let is_player_card = dst == player_loop;
        let could_have_swapped = if is_player_card { player_to_pile_count < 1 } else { pile_to_player_count < 1 && card == reveal };
        if could_have_swapped {
            let (src, to_pile, to_player) = if is_player_card {
                (pile_index, player_to_pile_count + 1, pile_to_player_count)
            } else {
                (player_loop, player_to_pile_count, pile_to_player_count + 1)
            };
            if contains_card(&current[dst], card) {
                let mut next = clone_table(current);
                let mut from = clone_cards(&next[dst]);
                swap_remove_card_from(&mut from, card);
                next.set(dst, from);
                let mut to = clone_cards(&next[src]);
                to.push(card);
                next.set(src, to);
                Self::build_variants_reveal_redraw_none(reveal, cards, idx + 1, player_loop, pile_index, to_pile, to_player,
                    &next, variants);
            }
        }
    }

    /// As `build_variants_reveal_redraw_none`, but the table with all cards kept is built
    /// first, and a known `reveal` of the player ends the choice at once.
    fn build_variants_reveal_redraw_none_opt(reveal: Card, cards: &[(usize, Card)], idx: usize, player_loop: usize,
        pile_index: usize, player_to_pile_count: u8, pile_to_player_count: u8, current: &Vec<Vec<Card>>,
        variants: &mut Vec<Vec<Vec<Card>>>, base: &Vec<Vec<Card>>)
        requires
            current@.len() == 7,
            player_loop < 7,
            pile_index < 7,
            idx <= cards@.len(),
            player_to_pile_count <= 1,
            pile_to_player_count <= 1,
            forall|k: int| 0 <= k < cards@.len() ==> (#[trigger] cards@[k]).0 < 7,
            forall|k: int| 0 <= k < cards@.len() ==> (#[trigger] cards@[k]).0 == player_loop || cards@[k].0 == pile_index,
            variants_hold(old(variants)@, player_loop as int, reveal),
            base@.len() == 7,
            variants_fit(old(variants)@, player_loop as int, pile_index as int, reveal, rows(base@)),
            forall|i: int| 0 <= i < 7 && i != player_loop && i != pile_index ==> (#[trigger] current@[i])@ == base@[i]@,
        ensures
            variants_hold(final(variants)@, player_loop as int, reveal),
            variants_fit(final(variants)@, player_loop as int, pile_index as int, reveal, rows(base@)),
            final(variants)@.len() >= old(variants)@.len(),
            table_fits(rows(current@), player_loop as int, pile_index as int, reveal, with_reveal(current@[player_loop as int]@, reveal))
                ==> final(variants)@.len() > old(variants)@.len(),
        decreases cards@.len() - idx,
    {
        if idx == cards.len() {
            let mut source = clone_table(current);
            if !contains_card(&source[player_loop], reveal) {
                let mut row = clone_cards(&source[player_loop]);
                row.push(reveal);
                assert(row@[row@.len() - 1] == reveal);
                source.set(player_loop, row);
            }
            proof {
                lemma_rows(current@, player_loop as int);
                assert(rows(source@) =~= rows(current@).update(player_loop as int, with_reveal(current@[player_loop as int]@, reveal)));
                lemma_copies_rows(source@, reveal, 7);
                assert(rows(source@).take(7) =~= rows(source@));
                lemma_rows(source@, player_loop as int);
                lemma_rows(source@, pile_index as int);
            }
            if source[player_loop].len() < 3 && source[pile_index].len() < 4 && total_copies(&source, reveal) < 4 {
                let ghost v0 = variants@;
                variants.push(source);
                proof {
                    assert forall|k: int| 0 <= k < variants@.len() implies {
                        let t = rows((#[trigger] variants@[k])@);
                        &&& variants@[k]@.len() == 7
                        &&& t[player_loop as int].len() < 3
                        &&& t[pile_index as int].len() < 4
                        &&& super::table_count(t, reveal) % 256 < 4
                        &&& forall|i: int| 0 <= i < 7 && i != player_loop && i != pile_index ==> #[trigger] t[i] == rows(base@)[i]
                    } by {
                        if k < v0.len() {
                            assert(variants@[k] == v0[k]);
                        } else {
                            assert forall|i: int| 0 <= i < 7 && i != player_loop && i != pile_index
                                implies #[trigger] rows(variants@[k]@)[i] == rows(base@)[i] by {
                                lemma_rows(source@, i);
                                lemma_rows(current@, i);
                                lemma_rows(base@, i);
                            }
                        }
                    }
                }
            }
            return;
        }
        Self::build_variants_reveal_redraw_none_opt(reveal, cards, idx + 1, player_loop, pile_index, player_to_pile_count,
            pile_to_player_count, current, variants, base);
        let (dst, card) = cards[idx];
        if dst == player_loop && card == reveal {
            Self::build_variants_reveal_redraw_none_opt(reveal, cards, cards.len(), player_loop, pile_index, 1, 1, current, variants, base);
            return;
        }
        let is_player_card = dst == player_loop;
        let could_have_swapped = if is_player_card { player_to_pile_count < 1 } else { pile_to_player_count < 1 && card == reveal };
        if could_have_swapped {
            let (src, to_pile, to_player) = if is_player_card {
                (pile_index, player_to_pile_count + 1, pile_to_player_count)
            } else {
                (player_loop, player_to_pile_count, pile_to_player_count + 1)
            };
            if contains_card(&current[dst], card) {
                let mut next = clone_table(current);
                let mut from = clone_cards(&next[dst]);
                swap_remove_card_from(&mut from, card);
                next.set(dst, from);
                let mut to = clone_cards(&next[src]);
                to.push(card);
                next.set(src, to);
                Self::build_variants_reveal_redraw_none_opt(reveal, cards, idx + 1, player_loop, pile_index, to_pile, to_player,
                    &next, variants, base);
            }
        }
    }

    /// The known cards before `player_loop` revealed `reveal` and drew `redraw`, from those
    /// after: `redraw` goes back from the player to the pile and `reveal` from the pile to the
    /// player.
    pub fn modify_variants_reveal_redraw(reveal: Card, redraw: Card, player_loop: usize, inferred_constraints: &mut Vec<Vec<Card>>)
        requires
            old(inferred_constraints)@.len() == 7,
            player_loop < 7,
        ensures
            final(inferred_constraints)@.len() == 7,
            final(inferred_constraints)@[player_loop as int]@.contains(reveal),
            rows(final(inferred_constraints)@) == reveal_redraw_before(rows(old(inferred_constraints)@), reveal, redraw,
                player_loop as int),
            player_loop < 6 ==> forall|c: Card| #[trigger] count_card(final(inferred_constraints)@[player_loop as int]@, c) as int
                == count_card(old(inferred_constraints)@[player_loop as int]@, c) as int
                - (if c == redraw && old(inferred_constraints)@[player_loop as int]@.contains(redraw) { 1int } else { 0int })
                + (if c == reveal { 1int } else { 0int }),
            player_loop < 6 ==> forall|c: Card| #[trigger] count_card(final(inferred_constraints)@[6]@, c) as int
                == count_card(old(inferred_constraints)@[6]@, c) as int + (if c == redraw { 1int } else { 0int })
                - (if c == reveal && old(inferred_constraints)@[6]@.push(redraw).contains(reveal) { 1int } else { 0int }),
    {
        let ghost t0 = rows(inferred_constraints@);
        let mut row = clone_cards(&inferred_constraints[player_loop]);
        swap_remove_card_from(&mut row, redraw);
        inferred_constraints.set(player_loop, row);
        let ghost t1 = rows(inferred_constraints@);
        proof {
            lemma_rows(old(inferred_constraints)@, player_loop as int);
            assert(t1 =~= t0.update(player_loop as int, swap_remove_card(t0[player_loop as int], redraw)));
        }
        let mut pile = clone_cards(&inferred_constraints[6]);
        pile.push(redraw);
        swap_remove_card_from(&mut pile, reveal);
        inferred_constraints.set(6, pile);
        let ghost t2 = rows(inferred_constraints@);
        proof {
            assert(t2 =~= t1.update(6, swap_remove_card(t1[6].push(redraw), reveal)));
        }
        let mut row = clone_cards(&inferred_constraints[player_loop]);
        row.push(reveal);
        assert(row@[row@.len() - 1] == reveal);
        inferred_constraints.set(player_loop, row);
        proof {
            assert(rows(inferred_constraints@) =~= t2.update(player_loop as int, t2[player_loop as int].push(reveal)));
            if player_loop < 6 {
                lemma_rows(old(inferred_constraints)@, 6);
                lemma_rows(inferred_constraints@, player_loop as int);
                lemma_rows(inferred_constraints@, 6);
                assert forall|c: Card| #[trigger] count_card(inferred_constraints@[player_loop as int]@, c) as int
                    == count_card(old(inferred_constraints)@[player_loop as int]@, c) as int
                    - (if c == redraw && old(inferred_constraints)@[player_loop as int]@.contains(redraw) { 1int } else { 0int })
                    + (if c == reveal { 1int } else { 0int }) by {
                    law_undo_reveal_redraw_moves_cards(t0, reveal, redraw, player_loop as int, c);
                }
                assert forall|c: Card| #[trigger] count_card(inferred_constraints@[6]@, c) as int
                    == count_card(old(inferred_constraints)@[6]@, c) as int + (if c == redraw { 1int } else { 0int })
                    - (if c == reveal && old(inferred_constraints)@[6]@.push(redraw).contains(reveal) { 1int } else { 0int }) by {
                    law_undo_reveal_redraw_moves_cards(t0, reveal, redraw, player_loop as int, c);
                }
            }
        }
    }

    /// The one table of known cards before `player_loop` revealed `reveal` and drew `redraw`
    /// (`modify_variants_reveal_redraw`), kept if the pile holds fewer than four cards.
    pub fn return_variants_reveal_redraw(reveal: Card, redraw: Card, player_loop: usize, inferred_constraints: &Vec<Vec<Card>>)
        -> (r: Vec<Vec<Vec<Card>>>)
        requires
            inferred_constraints@.len() == 7,
            player_loop < 7,
        ensures
            variants_hold(r@, player_loop as int, reveal),
            r@.len() <= 1,
            ({
                let before = reveal_redraw_before(rows(inferred_constraints@), reveal, redraw, player_loop as int);
                &&& r@.len() == (if before[6].len() < 4 { 1int } else { 0int })
                &&& r@.len() == 1 ==> rows(r@[0]@) == before
            }),
            r@.len() == 1 && player_loop < 6 ==> forall|c: Card| #[trigger] count_card(r@[0]@[player_loop as int]@, c) as int
                == count_card(inferred_constraints@[player_loop as int]@, c) as int
                - (if c == redraw && inferred_constraints@[player_loop as int]@.contains(redraw) { 1int } else { 0int })
                + (if c == reveal { 1int } else { 0int }),
            r@.len() == 1 && player_loop < 6 ==> forall|c: Card| #[trigger] count_card(r@[0]@[6]@, c) as int
                == count_card(inferred_constraints@[6]@, c) as int + (if c == redraw { 1int } else { 0int })
                - (if c == reveal && inferred_constraints@[6]@.push(redraw).contains(reveal) { 1int } else { 0int }),
    {
        let mut variants: Vec<Vec<Vec<Card>>> = Vec::new();
        let mut temp = clone_table(inferred_constraints);
        proof {
            assert forall|q: int| 0 <= q < 7 implies #[trigger] temp@[q]@ == inferred_constraints@[q]@ by {
                lemma_rows(temp@, q);
                lemma_rows(inferred_constraints@, q);
            }
        }
        Self::modify_variants_reveal_redraw(reveal, redraw, player_loop, &mut temp);
        proof { lemma_rows(temp@, 6); }
        if temp[6].len() < 4 {
            variants.push(temp);
        }
        variants
    }

    /// When `player_loop` revealed `reveal` and gave a card to the pile: the known cards
    /// before, from `build_variants_reveal_relinquish`; none when the pile holds three cards
    /// and no `reveal`.
    pub fn return_variants_reveal_relinquish(reveal: Card, redraw: Card, player_loop: usize, inferred_constraints: &Vec<Vec<Card>>)
        -> (r: Vec<Vec<Vec<Card>>>)
        requires
            inferred_constraints@.len() == 7,
            player_loop < 7,
        ensures
            variants_hold(r@, player_loop as int, reveal),
            ({
                let t = rows(inferred_constraints@);
                let early = t[6].len() == 3 && !t[6].contains(reveal);
                &&& early ==> r@.len() == 0
                &&& !early && table_fits(t, player_loop as int, 6, reveal, with_reveal(t[player_loop as int], reveal)) ==> r@.len() >= 1
            }),
    {
        proof {
            lemma_rows(inferred_constraints@, player_loop as int);
            lemma_rows(inferred_constraints@, 6);
        }
        let mut variants: Vec<Vec<Vec<Card>>> = Vec::new();
        if inferred_constraints[6].len() == 3 && !contains_card(&inferred_constraints[6], reveal) {
            return variants;
        }
        let source = source_cards(inferred_constraints, player_loop);
        Self::build_variants_reveal_relinquish(reveal, redraw, source.as_slice(), 0, player_loop, 6, 0, 0, inferred_constraints, &mut variants);
        variants
    }

    /// When `player_loop` revealed `reveal` and gave a card to the pile: the player held
    /// `reveal` first, or in turn each of its known cards went to the pile and `reveal` came
    /// from it.
    pub fn return_variants_reveal_relinquish_opt(reveal: Card, player_loop: usize, inferred_constraints: &Vec<Vec<Card>>)
        -> (r: Vec<Vec<Vec<Card>>>)
        requires
            inferred_constraints@.len() == 7,
            player_loop < 7,
        ensures
            player_loop != 6 ==> variants_hold(r@, player_loop as int, reveal),
            ({
                let full_without = inferred_constraints@[6]@.len() == 3 && !inferred_constraints@[6]@.contains(reveal);
                let hand = inferred_constraints@[player_loop as int]@;
                let t = rows(inferred_constraints@);
                let single = opt_single(t, player_loop as int, reveal);
                &&& full_without ==> r@.len() == 0
                &&& !full_without && hand.len() == 0 ==> r@.len() <= 1
                &&& !full_without && hand.len() > 0 ==> r@.len() == hand.len()
                &&& !full_without && hand.len() == 0 && player_loop != 6 ==> tables(r@) ==
                    if super::table_count(single, reveal) % 256 < 4 { seq![single] } else { Seq::empty() }
                &&& !full_without && hand.len() > 0 && player_loop != 6 ==> tables(r@)
                    == Seq::new(hand.len(), |i: int| rel_table(t, player_loop as int, reveal, i))
            }),
    {
        proof {
            lemma_rows(inferred_constraints@, player_loop as int);
            lemma_rows(inferred_constraints@, 6);
        }
        let mut variants: Vec<Vec<Vec<Card>>> = Vec::new();
        if inferred_constraints[6].len() == 3 && !contains_card(&inferred_constraints[6], reveal) {
            return variants;
        }
        let ghost t = rows(inferred_constraints@);
        let mut player_hand = clone_cards(&inferred_constraints[player_loop]);
        let mut pile_hand = clone_cards(&inferred_constraints[6]);
        if player_hand.len() == 0 {
            swap_remove_last(&mut pile_hand, reveal);
            player_hand.push(reveal);
            let temp = with_row(&with_row(inferred_constraints, player_loop, &player_hand), 6, &pile_hand);
            proof {
                if player_loop != 6 {
                    assert(player_hand@ =~= seq![reveal]);
                    assert(rows(temp@) =~= opt_single(t, player_loop as int, reveal));
                    lemma_copies_rows(temp@, reveal, 7);
                    assert(rows(temp@).take(7) =~= rows(temp@));
                }
            }
            if temp[player_loop].len() < 3 && total_copies(&temp, reveal) < 4 {
                assert(player_hand@.contains(reveal)) by { assert(player_hand@[player_hand@.len() - 1] == reveal); }
                variants.push(temp);
                proof {
                    if player_loop != 6 {
                        assert(tables(variants@) =~= seq![opt_single(t, player_loop as int, reveal)]);
                    }
                }
            } else {
                proof { assert(tables(variants@) =~= Seq::<Seq<Seq<Card>>>::empty()); }
            }
            return variants;
        }
        let n = inferred_constraints[player_loop].len();
        let mut i: usize = 0;
        proof {
            assert(tables(variants@) =~= Seq::new(0, |j: int| rel_table(t, player_loop as int, reveal, j)));
        }
        while i < n
            invariant
                i <= n,
                n == inferred_constraints@[player_loop as int]@.len(),
                inferred_constraints@.len() == 7,
                player_loop < 7,
                player_loop != 6 ==> variants_hold(variants@, player_loop as int, reveal),
                variants@.len() == i,
                t == rows(inferred_constraints@),
                t[player_loop as int] == inferred_constraints@[player_loop as int]@,
                t[6] == inferred_constraints@[6]@,
                player_hand@ == rel_state(t, player_loop as int, reveal, i as int).0,
                pile_hand@ == rel_state(t, player_loop as int, reveal, i as int).1,
                player_hand@.len() == n,
                player_loop != 6 ==> tables(variants@) == Seq::new(i as nat, |j: int| rel_table(t, player_loop as int, reveal, j)),
            decreases n - i,
        {
            let card_player = inferred_constraints[player_loop][i];
            let ghost st_h = player_hand@;
            let ghost st_p = pile_hand@;
            if i < player_hand.len() {
                player_hand.swap_remove(i);
            }
            proof { assert(player_hand@ =~= super::group_ops::swap_removed(st_h, i as int)); }
            let ghost hb = player_hand@;
            pile_hand.push(card_player);
            let ghost pb0 = pile_hand@;
            let moved = swap_remove_last(&mut pile_hand, reveal);
            player_hand.push(reveal);
            let temp = with_row(&with_row(inferred_constraints, player_loop, &player_hand), 6, &pile_hand);
            proof { assert(player_hand@[player_hand@.len() - 1] == reveal); }
            let ghost v0 = variants@;
            proof {
                if player_loop != 6 {
                    assert(rows(temp@) =~= rel_table(t, player_loop as int, reveal, i as int));
                }
            }
            variants.push(temp);
            proof {
                if player_loop != 6 {
                    assert(tables(variants@) =~= tables(v0).push(rows(temp@)));
                    let target = Seq::new(i as nat + 1, |j: int| rel_table(t, player_loop as int, reveal, j));
                    assert forall|j: int| 0 <= j < i + 1 implies #[trigger] tables(variants@)[j] == target[j] by {
                        if j < i {
                            assert(tables(v0)[j] == rel_table(t, player_loop as int, reveal, j));
                        }
                    }
                    assert(tables(variants@) =~= target);
                }
            }
            swap_remove_last(&mut player_hand, reveal);
            proof { lemma_without_pushed(hb, reveal); }
            if moved {
                pile_hand.push(reveal);
            }
            swap_remove_last(&mut pile_hand, card_player);
            player_hand.push(card_player);
            proof {
                assert(player_hand@ == rel_state(t, player_loop as int, reveal, i as int + 1).0);
                assert(pile_hand@ == rel_state(t, player_loop as int, reveal, i as int + 1).1);
            }
            i += 1;
        }
        variants
    }

    /// As `build_variants_reveal_redraw_none`, for a reveal that gave a card to the pile:
    /// each card stays, or moves once each way between the player and the pile.
    fn build_variants_reveal_relinquish(reveal: Card, redraw: Card, cards: &[(usize, Card)], idx: usize, player_loop: usize,
        pile_index: usize, player_to_pile_count: u8, pile_to_player_count: u8, current: &Vec<Vec<Card>>,
        variants: &mut Vec<Vec<Vec<Card>>>)
        requires
            current@.len() == 7,
            player_loop < 7,
            pile_index < 7,
            idx <= cards@.len(),
            player_to_pile_count <= 1,
            pile_to_player_count <= 1,
            forall|k: int| 0 <= k < cards@.len() ==> (#[trigger] cards@[k]).0 < 7,
            variants_hold(old(variants)@, player_loop as int, reveal),
        ensures
            variants_hold(final(variants)@, player_loop as int, reveal),
            final(variants)@.len() >= old(variants)@.len(),
            table_fits(rows(current@), player_loop as int, pile_index as int, reveal, with_reveal(current@[player_loop as int]@, reveal))
                ==> final(variants)@.len() > old(variants)@.len(),
        decreases cards@.len() - idx,
    {
        if idx == cards.len() {
            let mut source = clone_table(current);
            if !contains_card(&source[player_loop], reveal) {
                let mut row = clone_cards(&source[player_loop]);
                row.push(reveal);
                assert(row@[row@.len() - 1] == reveal);
                source.set(player_loop, row);
            }
            proof {
                lemma_rows(current@, player_loop as int);
                assert(rows(source@) =~= rows(current@).update(player_loop as int, with_reveal(current@[player_loop as int]@, reveal)));
                lemma_copies_rows(source@, reveal, 7);
                assert(rows(source@).take(7) =~= rows(source@));
                lemma_rows(source@, player_loop as int);
                lemma_rows(source@, pile_index as int);
            }
            if source[player_loop].len() < 3 && source[pile_index].len() < 4 && total_copies(&source, reveal) < 4 {
                variants.push(source);
            }
            return;
        }
        let (dst, card) = cards[idx];
        Self::build_variants_reveal_relinquish(reveal, redraw, cards, idx + 1, player_loop, pile_index, player_to_pile_count,
            pile_to_player_count, current, variants);
        let is_player_card = dst == player_loop;
        let could_have_swapped = if is_player_card { player_to_pile_count < 1 } else { pile_to_player_count < 1 && card == reveal };
        if could_have_swapped {
            let (src, to_pile, to_player) = if is_player_card {
                (pile_index, player_to_pile_count + 1, pile_to_player_count)
            } else {
                (player_loop, player_to_pile_count, pile_to_player_count + 1)
            };
            if contains_card(&current[dst], card) {
                let mut next = clone_table(current);
                let mut from = clone_cards(&next[dst]);
                swap_remove_card_from(&mut from, card);
                next.set(dst, from);
                let mut to = clone_cards(&next[src]);
                to.push(card);
                next.set(src, to);
                Self::build_variants_reveal_relinquish(reveal, redraw, cards, idx + 1, player_loop, pile_index, to_pile, to_player,
                    &next, variants);
            }
        }
    }

}

} // verus!
