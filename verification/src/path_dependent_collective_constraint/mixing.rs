use vstd::prelude::*;
use crate::card::{Card, card_index, card_at, count_card, swap_remove_card, swap_remove_card_from};
use crate::group::{CompressedGroupConstraint, clamp3};
use super::{PathDependentCollectiveConstraint, lemma_group_rows, lemma_only_list_changed, group_rows, table_ok,
    lemma_rows};
use super::group_ops::{drawn_from, lists_thinned, sub_list, swap_removed, present_or_covered, represented,
    lemma_push_keeps_covered, lemma_covered_represented, lemma_represented_trans};
use super::prune::drop_player_groups;

verus! {

/// `n` is `g` with participation flag `pj` set to `pv` and single-card flag `sj` set to
/// `sv` (an index outside 0..7 changes no flag), and the living, dead and total counts moved
/// by `da`, `dd` and `dt`, each kept within 0..=3.
pub open spec fn reshaped(n: CompressedGroupConstraint, g: CompressedGroupConstraint, pj: int, pv: bool,
    sj: int, sv: bool, da: int, dd: int, dt: int) -> bool
{
    &&& forall|j: int| 0 <= j < 7 ==> #[trigger] n.pflag(j) == if j == pj { pv } else { g.pflag(j) }
    &&& forall|j: int| 0 <= j < 7 ==> #[trigger] n.sflag(j) == if j == sj { sv } else { g.sflag(j) }
    &&& n.card_spec() == g.card_spec()
    &&& n.alive_spec() == clamp3(g.alive_spec() + da)
    &&& n.dead_spec() == clamp3(g.dead_spec() + dd)
    &&& n.total_spec() == clamp3(g.total_spec() + dt)
}

/// What `mix` does to one group of card number `c`, given the player's dead (`pdc`) and
/// known (`pic`) copies of the card and the pile's known copies (`pile`): a group holding the
/// pile but not the player takes the player in with its copies; a group holding the player
/// but not the pile takes the pile in with its copies; the player's single-card flag is
/// cleared in both and in groups holding both.
pub open spec fn mixed(n: CompressedGroupConstraint, g: CompressedGroupConstraint, p: int, pdc: int, pic: int, pile: int) -> bool {
    if !g.pflag(p) {
        if g.pflag(6) { reshaped(n, g, p, true, p, false, pic, pdc, 0) } else { n == g }
    } else if !g.pflag(6) {
        reshaped(n, g, 6, true, p, false, pile, 0, 0)
    } else {
        reshaped(n, g, -1, false, p, false, 0, 0, 0)
    }
}

/// Per player and card, the impossibilities after `mix`: the player and the pile share
/// what is impossible for both.
pub open spec fn mixed_impossible(after: [[bool; 5]; 7], before: [[bool; 5]; 7], p: int) -> bool {
    forall|q: int, c: int| 0 <= q < 7 && 0 <= c < 5 ==> #[trigger] after[q][c] ==
        if q == p || q == 6 { before[p][c] && before[6][c] } else { before[q][c] }
}

/// After `p` exchanged cards with the pile unseen, a group that held the pile or the player
/// holds both, with the player's single-card flag cleared; a group that held the pile but
/// not the player takes in the player's dead and known copies; a group that held neither is
/// unchanged; every other participant and the card stay.
pub proof fn law_mix_joins_player_and_pile(n: CompressedGroupConstraint, g: CompressedGroupConstraint, p: int,
    pdc: int, pic: int, pile: int)
    requires
        0 <= p < 6,
        mixed(n, g, p, pdc, pic, pile),
    ensures
        g.pflag(p) || g.pflag(6) ==> n.pflag(p) && n.pflag(6) && !n.sflag(p),
        !g.pflag(p) && g.pflag(6) ==> n.dead_spec() == clamp3(g.dead_spec() + pdc)
            && n.alive_spec() == clamp3(g.alive_spec() + pic),
        g.pflag(p) && !g.pflag(6) ==> n.alive_spec() == clamp3(g.alive_spec() + pile) && n.dead_spec() == clamp3(g.dead_spec() as int),
        g.pflag(p) && g.pflag(6) ==> n.alive_spec() == clamp3(g.alive_spec() as int) && n.dead_spec() == clamp3(g.dead_spec() as int),
        g.pflag(p) || g.pflag(6) ==> n.total_spec() == clamp3(g.total_spec() as int),
        !g.pflag(p) && !g.pflag(6) ==> n == g,
        forall|j: int| 0 <= j < 7 && j != p && j != 6 ==> #[trigger] n.pflag(j) == g.pflag(j),
        n.card_spec() == g.card_spec(),
{
}

/// After `p` revealed a card and redrew from the pile, a group of another card that held the
/// pile holds the player too; one that did not hold the player takes in the player's dead
/// copies, with the player's single-card flag set; a group of another card that held neither
/// is unchanged. For the revealed card, a group holding the player but not the pile takes the
/// pile in, and one holding the pile but not the player takes the player in. Every other
/// participant and the card stay.
pub proof fn law_redraw_joins_player_and_pile(n: CompressedGroupConstraint, g: CompressedGroupConstraint, p: int,
    is_card: bool, pdc: int, pac: int)
    requires
        0 <= p < 6,
        redrawn(n, g, p, is_card, pdc, pac),
    ensures
        !is_card && g.pflag(6) ==> n.pflag(p) && n.pflag(6),
        !is_card && !g.pflag(p) && g.pflag(6) ==> n.sflag(p) && n.dead_spec() == clamp3(g.dead_spec() + pdc)
            && n.alive_spec() == clamp3(g.alive_spec() as int),
        !is_card && !g.pflag(p) && g.pflag(6) ==> n.total_spec() == clamp3(g.total_spec() + pdc),
        !is_card && g.pflag(p) && g.pflag(6) ==> !n.sflag(p) && n.alive_spec() == clamp3(g.alive_spec() as int)
            && n.dead_spec() == clamp3(g.dead_spec() as int) && n.total_spec() == clamp3(g.total_spec() as int),
        !is_card && !g.pflag(6) ==> n == g,
        is_card && (g.pflag(p) || g.pflag(6)) ==> n.pflag(p) && n.pflag(6),
        is_card && !g.pflag(p) && g.pflag(6) ==> n.sflag(p) && n.alive_spec() == clamp3(g.alive_spec() + pac)
            && n.dead_spec() == clamp3(g.dead_spec() + pdc),
        is_card && !g.pflag(p) && !g.pflag(6) ==> n == g,
        forall|j: int| 0 <= j < 7 && j != p && j != 6 ==> #[trigger] n.pflag(j) == g.pflag(j),
        n.card_spec() == g.card_spec(),
{
}

fn mix_list(v: &mut Vec<CompressedGroupConstraint>, p: usize, pdc: u8, pic: u8, pile: u8)
    requires
        p < 7,
    ensures
        final(v)@.len() == old(v)@.len(),
        forall|k: int| 0 <= k < old(v)@.len() ==> mixed(#[trigger] final(v)@[k], old(v)@[k], p as int,
            pdc as int, pic as int, pile as int),
        forall|k: int| 0 <= k < old(v)@.len() && (old(v)@[k].pflag(6) || old(v)@[k].pflag(p as int))
            ==> (#[trigger] final(v)@[k]).pflag(p as int) && final(v)@[k].pflag(6),
{
    let mut i: usize = 0;
    while i < v.len()
        invariant
            p < 7,
            i <= v@.len(),
            v@.len() == old(v)@.len(),
            forall|k: int| 0 <= k < i ==> mixed(#[trigger] v@[k], old(v)@[k], p as int, pdc as int, pic as int, pile as int),
            forall|k: int| i <= k < v@.len() ==> #[trigger] v@[k] == old(v)@[k],
        decreases v@.len() - i,
    {
        let mut g = v[i];
        let _ = g.count_alive();
        let _ = g.count_dead();
        let _ = g.get_total_count();
        if !g.get_player_flag(p) {
            if g.get_player_flag(6) {
                g.set_player_flag(p, true);
                g.set_single_card_flag(p, false);
                g.add_dead_count(pdc);
                g.add_alive_count(pic);
            }
        } else {
            if !g.get_player_flag(6) {
                g.set_player_flag(6, true);
                g.set_single_card_flag(p, false);
                g.add_alive_count(pile);
            } else {
                g.set_single_card_flag(p, false);
            }
        }
        v.set(i, g);
        i += 1;
    }
}

/// What `redraw` does to one group of card number `c` (`is_card` when it is the revealed
/// card), given the player's dead (`pdc`) and known (`pac`) copies of it.
pub open spec fn redrawn(n: CompressedGroupConstraint, g: CompressedGroupConstraint, p: int, is_card: bool,
    pdc: int, pac: int) -> bool
{
    if is_card {
        if g.pflag(p) {
            if !g.pflag(6) {
                reshaped(n, g, 6, true, -1, false, 0, 0, 0)
            } else if g.alive_spec() == 1 {
                reshaped(n, g, -1, false, p, true, 0, 0, 0)
            } else {
                n == g
            }
        } else if g.pflag(6) {
            reshaped(n, g, p, true, p, true, pac, pdc, pdc + pac)
        } else {
            n == g
        }
    } else if !g.pflag(p) {
        if g.pflag(6) { reshaped(n, g, p, true, p, true, 0, pdc, pdc) } else { n == g }
    } else if g.pflag(6) {
        reshaped(n, g, -1, false, p, false, 0, 0, 0)
    } else {
        n == g
    }
}

/// `n` comes from some group of `before` by `redrawn`.
pub open spec fn redraw_origin(n: CompressedGroupConstraint, before: Seq<CompressedGroupConstraint>, p: int,
    is_card: bool, pdc: int, pac: int) -> bool
{
    exists|j: int| 0 <= j < before.len() && redrawn(n, #[trigger] before[j], p, is_card, pdc, pac)
}

/// The group of the player and the pile holding `alive` living and `dead` dead copies of
/// card number `c`.
pub open spec fn pile_group(n: CompressedGroupConstraint, p: int, c: int, dead: int, alive: int) -> bool {
    &&& forall|j: int| #[trigger] n.pflag(j) == (j == p || j == 6)
    &&& forall|j: int| !#[trigger] n.sflag(j)
    &&& n.card_spec() == card_at(c)
    &&& n.dead_spec() == clamp3(dead)
    &&& n.alive_spec() == clamp3(alive)
    &&& n.total_spec() == clamp3(clamp3(dead) + clamp3(alive))
}

/// The group `g` of card number `c`, redrawn for `player` (`redrawn`, the redrawn card being
/// number `ci`, with the player's dead and known cards `public_row` and `inferred_row`), is
/// in `list` or made redundant there (`represented`).
pub open spec fn redrawn_kept(list: Seq<CompressedGroupConstraint>, g: CompressedGroupConstraint, player: int, c: int,
    ci: int, public_row: Seq<Card>, inferred_row: Seq<Card>) -> bool
{
    exists|n: CompressedGroupConstraint| redrawn(n, g, player, c == ci, count_card(public_row, card_at(c)) as int,
        count_card(inferred_row, card_at(c)) as int) && #[trigger] represented(list, n)
}

/// When the pile held copies of card number `c` (with the revealed one, number `ci`, counted
/// in), the group of `player` and the pile holding them (`pile_group`) is in `list` or made
/// redundant there.
pub open spec fn pile_group_kept(list: Seq<CompressedGroupConstraint>, player: int, c: int, ci: int,
    public_row: Seq<Card>, pile_row: Seq<Card>) -> bool
{
    let cnt = count_card(pile_row, card_at(c)) + if c == ci { 1int } else { 0int };
    let dc = if player < 6 { count_card(public_row, card_at(c)) as int } else { 0int };
    cnt > 0 ==> exists|n: CompressedGroupConstraint| pile_group(n, player, c, dc, cnt) && #[trigger] represented(list, n)
}

/// The pile's known cards after one copy of every card but `card` among the first `n` is
/// taken out of `row`, in card order.
pub open spec fn pile_after(row: Seq<Card>, card: Card, n: int) -> Seq<Card>
    decreases n,
{
    if n <= 0 {
        row
    } else {
        let prev = pile_after(row, card, n - 1);
        if card_at(n - 1) != card { swap_remove_card(prev, card_at(n - 1)) } else { prev }
    }
}

proof fn lemma_pile_after_len(row: Seq<Card>, card: Card, n: int)
    ensures
        pile_after(row, card, n).len() <= row.len(),
    decreases n,
{
    if n > 0 {
        lemma_pile_after_len(row, card, n - 1);
        crate::card::lemma_swap_remove_card_len(pile_after(row, card, n - 1), card_at(n - 1));
    }
}

/// The group `redraw` adds for a card the pile held is about the player and the pile alone,
/// for that card, with the given copies.
pub proof fn law_pile_group_is_player_and_pile(n: CompressedGroupConstraint, p: int, c: int, dead: int, alive: int)
    requires
        0 <= p < 6,
        pile_group(n, p, c, dead, alive),
    ensures
        n.pflag(p) && n.pflag(6),
        forall|j: int| 0 <= j < 7 && j != p && j != 6 ==> !#[trigger] n.pflag(j),
        forall|j: int| 0 <= j < 7 ==> !#[trigger] n.sflag(j),
        n.card_spec() == card_at(c),
        1 <= alive <= 3 ==> n.alive_spec() == alive,
        0 <= dead <= 3 ==> n.dead_spec() == dead,
{
}

proof fn lemma_pile_after_count(row: Seq<Card>, card: Card, n: int, x: Card)
    requires
        0 <= n <= 5,
    ensures
        count_card(pile_after(row, card, n), x) as int == count_card(row, x) as int
            - (if card_index(x) < n && x != card && row.contains(x) { 1int } else { 0int }),
    decreases n,
{
    if n > 0 {
        lemma_pile_after_count(row, card, n - 1, x);
        let prev = pile_after(row, card, n - 1);
        let d = card_at(n - 1);
        if d != card {
            crate::card::lemma_count_swap_remove_card(prev, d, x);
            crate::card::lemma_count_card_contains(prev, x);
            crate::card::lemma_count_card_contains(row, x);
        }
        crate::card::lemma_card_index_roundtrip(x);
    }
}

/// After a redraw, the pile's known cards lose one copy of every card but the revealed one
/// that they held (the player may have drawn any of them), and keep the revealed card's.
pub proof fn law_pile_after_redraw(row: Seq<Card>, card: Card, x: Card)
    ensures
        count_card(pile_after(row, card, 5), x) as int == count_card(row, x) as int
            - (if x != card && row.contains(x) { 1int } else { 0int }),
{
    lemma_pile_after_count(row, card, 5, x);
    crate::card::lemma_card_index_roundtrip(x);
}

/// After a player exchanged cards with the pile unseen, the player and the pile share their
/// impossibilities: a card is impossible for either only if it was for both before; other
/// players keep theirs.
pub proof fn law_mix_shares_impossibilities(after: [[bool; 5]; 7], before: [[bool; 5]; 7], p: int)
    requires
        0 <= p < 6,
        mixed_impossible(after, before, p),
    ensures
        forall|c: int| 0 <= c < 5 ==> #[trigger] after[p][c] == after[6][c],
        forall|c: int| 0 <= c < 5 && #[trigger] after[p][c] ==> before[p][c] && before[6][c],
        forall|c: int| 0 <= c < 5 && before[p][c] && before[6][c] ==> #[trigger] after[p][c],
        forall|q: int, c: int| 0 <= q < 7 && q != p && q != 6 && 0 <= c < 5 ==> #[trigger] after[q][c] == before[q][c],
{
    assert forall|c: int| 0 <= c < 5 implies #[trigger] after[p][c] == after[6][c] by {
        assert(after[p][c] == (before[p][c] && before[6][c]));
        assert(after[6][c] == (before[p][c] && before[6][c]));
    }
}

fn redraw_list(v: &mut Vec<CompressedGroupConstraint>, p: usize, is_card: bool, pdc: u8, pac: u8)
    requires
        p < 7,
        pdc <= 3,
        pac <= 3,
    ensures
        final(v)@.len() == old(v)@.len(),
        forall|k: int| 0 <= k < old(v)@.len() ==> redrawn(#[trigger] final(v)@[k], old(v)@[k], p as int,
            is_card, pdc as int, pac as int),
        forall|k: int| 0 <= k < old(v)@.len() && old(v)@[k].pflag(6) && (!is_card || !old(v)@[k].pflag(p as int))
            ==> (#[trigger] final(v)@[k]).pflag(p as int) && final(v)@[k].pflag(6),
{
    let mut i: usize = 0;
    while i < v.len()
        invariant
            p < 7,
            pdc <= 3,
            pac <= 3,
            i <= v@.len(),
            v@.len() == old(v)@.len(),
            forall|k: int| 0 <= k < i ==> redrawn(#[trigger] v@[k], old(v)@[k], p as int, is_card, pdc as int, pac as int),
            forall|k: int| i <= k < v@.len() ==> #[trigger] v@[k] == old(v)@[k],
        decreases v@.len() - i,
    {
        let mut g = v[i];
        let _ = g.count_alive();
        let _ = g.count_dead();
        let _ = g.get_total_count();
        if is_card {
            if g.get_player_flag(p) {
                if !g.get_player_flag(6) {
                    g.set_player_flag(6, true);
                } else if g.count_alive() == 1 {
                    g.set_single_card_flag(p, true);
                }
            } else if g.get_player_flag(6) {
                g.set_player_flag(p, true);
                g.set_single_card_flag(p, true);
                g.add_dead_count(pdc);
                g.add_alive_count(pac);
                g.add_total_count(pdc + pac);
            }
        } else if !g.get_player_flag(p) {
            if g.get_player_flag(6) {
                g.set_player_flag(p, true);
                g.add_dead_count(pdc);
                g.set_single_card_flag(p, true);
                g.add_total_count(pdc);
            }
        } else if g.get_player_flag(6) {
            g.set_single_card_flag(p, false);
        }
        v.set(i, g);
        i += 1;
    }
}

/// What `relinquish_mix` does to one group of card number `c` (`is_card` for the card given
/// away by `a` to `b`): in the list of that card a group holding `a` but not `b` takes `b` in
/// with `b`'s dead and known copies; in every list a group holding `b` but not `a` takes `a`
/// in with `a`'s copies.
pub open spec fn relinquished(n: CompressedGroupConstraint, g: CompressedGroupConstraint, a: int, b: int,
    is_card: bool, adc: int, aic: int, bdc: int, bic: int) -> bool
{
    if is_card && g.pflag(a) && !g.pflag(b) {
        reshaped(n, g, b, true, -1, false, bic, bdc, bdc + bic)
    } else if g.pflag(b) && !g.pflag(a) {
        reshaped(n, g, a, true, -1, false, aic, adc, adc + aic)
    } else {
        n == g
    }
}

fn relinquish_list(v: &mut Vec<CompressedGroupConstraint>, a: usize, b: usize, is_card: bool,
    adc: u8, aic: u8, bdc: u8, bic: u8)
    requires
        a < 7, b < 7, a != b, adc <= 3, aic <= 3, bdc <= 3, bic <= 3,
    ensures
        final(v)@.len() == old(v)@.len(),
        forall|k: int| 0 <= k < old(v)@.len() ==> relinquished(#[trigger] final(v)@[k], old(v)@[k], a as int, b as int,
            is_card, adc as int, aic as int, bdc as int, bic as int),
{
    let mut i: usize = 0;
    while i < v.len()
        invariant
            a < 7, b < 7, a != b, adc <= 3, aic <= 3, bdc <= 3, bic <= 3,
            i <= v@.len(),
            v@.len() == old(v)@.len(),
            forall|k: int| 0 <= k < i ==> relinquished(#[trigger] v@[k], old(v)@[k], a as int, b as int,
                is_card, adc as int, aic as int, bdc as int, bic as int),
            forall|k: int| i <= k < v@.len() ==> #[trigger] v@[k] == old(v)@[k],
        decreases v@.len() - i,
    {
        let mut g = v[i];
        let _ = g.count_alive();
        let _ = g.count_dead();
        let _ = g.get_total_count();
        if is_card && g.get_player_flag(a) && !g.get_player_flag(b) {
            g.set_player_flag(b, true);
            g.add_dead_count(bdc);
            g.add_alive_count(bic);
            g.add_total_count(bdc + bic);
        } else if g.get_player_flag(b) && !g.get_player_flag(a) {
            g.set_player_flag(a, true);
            g.add_dead_count(adc);
            g.add_alive_count(aic);
            g.add_total_count(adc + aic);
        }
        v.set(i, g);
        i += 1;
    }
}

/// What `swap_mix` does to one surviving group: `role` 0 is the list of `a`'s card, 1 that
/// of `b`'s card (the cards differing), 2 the list of the one card both gave. A group holding
/// only the giver of the list's card loses a living copy, one holding only the receiver gains
/// one, and one holding both loses the receiver's (both, for the shared card) single-card flag.
pub open spec fn swapped(n: CompressedGroupConstraint, g: CompressedGroupConstraint, a: int, b: int, role: int) -> bool {
    let fa = g.pflag(a);
    let fb = g.pflag(b);
    if role == 2 {
        if fa && fb {
            &&& forall|j: int| 0 <= j < 7 ==> #[trigger] n.pflag(j) == g.pflag(j)
            &&& forall|j: int| 0 <= j < 7 ==> #[trigger] n.sflag(j) == (j != a && j != b && g.sflag(j))
            &&& n.card_spec() == g.card_spec()
            &&& n.alive_spec() == g.alive_spec() && n.dead_spec() == g.dead_spec() && n.total_spec() == g.total_spec()
        } else {
            n == g
        }
    } else {
        let (giver, taker) = if role == 0 { (fa, fb) } else { (fb, fa) };
        let other = if role == 0 { b } else { a };
        if giver && !taker {
            reshaped(n, g, -1, false, -1, false, -1, 0, -1)
        } else if giver && taker {
            reshaped(n, g, -1, false, other, false, 0, 0, 0)
        } else if taker {
            reshaped(n, g, -1, false, -1, false, 1, 0, 1)
        } else {
            n == g
        }
    }
}

fn swap_list(v: &mut Vec<CompressedGroupConstraint>, a: usize, b: usize, role: u8)
    requires
        a < 7, b < 7, role <= 2,
    ensures
        final(v)@.len() == old(v)@.len(),
        forall|k: int| 0 <= k < old(v)@.len() ==> swapped(#[trigger] final(v)@[k], old(v)@[k], a as int, b as int, role as int),
{
    let mut i: usize = 0;
    while i < v.len()
        invariant
            a < 7, b < 7, role <= 2,
            i <= v@.len(),
            v@.len() == old(v)@.len(),
            forall|k: int| 0 <= k < i ==> swapped(#[trigger] v@[k], old(v)@[k], a as int, b as int, role as int),
            forall|k: int| i <= k < v@.len() ==> #[trigger] v@[k] == old(v)@[k],
        decreases v@.len() - i,
    {
        let mut g = v[i];
        let _ = g.count_alive();
        let _ = g.count_dead();
        let _ = g.get_total_count();
        let fa = g.get_player_flag(a);
        let fb = g.get_player_flag(b);
        if role == 2 {
            if fa && fb {
                g.set_single_card_flag(a, false);
                g.set_single_card_flag(b, false);
            }
        } else {
            let giver = if role == 0 { fa } else { fb };
            let taker = if role == 0 { fb } else { fa };
            let other = if role == 0 { b } else { a };
            if giver && !taker {
                g.sub_alive_count(1);
                g.sub_total_count(1);
            } else if giver && taker {
                g.set_single_card_flag(other, false);
            } else if taker {
                g.add_alive_count(1);
                g.add_total_count(1);
            }
        }
        v.set(i, g);
        i += 1;
    }
}

/// Drops the groups of `v` holding both `a` and `b` with at most `hi` living copies.
fn drop_pair_groups(v: &mut Vec<CompressedGroupConstraint>, a: usize, b: usize, hi: u8)
    requires
        a < 7, b < 7,
    ensures
        forall|k: int| 0 <= k < final(v)@.len() ==> old(v)@.contains(#[trigger] final(v)@[k]),
        forall|k: int| 0 <= k < final(v)@.len() ==> !((#[trigger] final(v)@[k]).pflag(a as int)
            && final(v)@[k].pflag(b as int) && final(v)@[k].alive_spec() <= hi),
        forall|j: int| 0 <= j < old(v)@.len() && !((#[trigger] old(v)@[j]).pflag(a as int)
            && old(v)@[j].pflag(b as int) && old(v)@[j].alive_spec() <= hi) ==> final(v)@.contains(old(v)@[j]),
        final(v)@.len() <= old(v)@.len(),
{
    let ghost before = v@;
    let mut i: usize = 0;
    while i < v.len()
        invariant
            a < 7, b < 7,
            i <= v@.len(),
            forall|k: int| 0 <= k < v@.len() ==> before.contains(#[trigger] v@[k]),
            forall|k: int| 0 <= k < i ==> !((#[trigger] v@[k]).pflag(a as int) && v@[k].pflag(b as int) && v@[k].alive_spec() <= hi),
            v@.len() <= before.len(),
            forall|j: int| 0 <= j < before.len() && !((#[trigger] before[j]).pflag(a as int)
                && before[j].pflag(b as int) && before[j].alive_spec() <= hi) ==> v@.contains(before[j]),
        decreases v@.len() - i,
    {
        if v[i].get_player_flag(a) && v[i].get_player_flag(b) && v[i].count_alive() <= hi {
            let ghost vv = v@;
            proof {
                assert forall|j: int| 0 <= j < before.len() && !((#[trigger] before[j]).pflag(a as int)
                    && before[j].pflag(b as int) && before[j].alive_spec() <= hi) implies swap_removed(vv, i as int).contains(before[j]) by {
                    let m = choose|m: int| 0 <= m < vv.len() && vv[m] == before[j];
                    if m == vv.len() - 1 { assert(swap_removed(vv, i as int)[i as int] == before[j]); }
                    else { assert(swap_removed(vv, i as int)[m] == before[j]); }
                }
                assert forall|k: int| 0 <= k < vv.len() - 1 implies before.contains(#[trigger] swap_removed(vv, i as int)[k]) by {
                    if k == i { assert(swap_removed(vv, i as int)[k] == vv[vv.len() - 1]); }
                    else { assert(swap_removed(vv, i as int)[k] == vv[k]); }
                }
            }
            v.swap_remove(i);
            assert(v@ == swap_removed(vv, i as int));
            continue;
        }
        i += 1;
    }
}

/// Whether a group survives `swap_mix` in the list of the given role (see `swapped`).
pub open spec fn swap_kept(g: CompressedGroupConstraint, a: int, b: int, role: int) -> bool {
    if role == 2 {
        !(g.pflag(a) && g.pflag(b) && g.alive_spec() <= 1)
    } else if role == 0 {
        !(g.pflag(a) && g.alive_spec() <= 1)
    } else {
        !(g.pflag(b) && g.alive_spec() <= 1)
    }
}

/// `n` is some kept group of `before`, adjusted.
pub open spec fn swap_from(n: CompressedGroupConstraint, before: Seq<CompressedGroupConstraint>, a: int, b: int, role: int) -> bool {
    exists|j: int| 0 <= j < before.len() && swap_kept(#[trigger] before[j], a, b, role) && swapped(n, before[j], a, b, role)
}

/// `g`, adjusted, is in `after`.
pub open spec fn swap_to(after: Seq<CompressedGroupConstraint>, g: CompressedGroupConstraint, a: int, b: int, role: int) -> bool {
    exists|k: int| 0 <= k < after.len() && swapped(#[trigger] after[k], g, a, b, role)
}

/// The list `after` is `before` with the groups not kept dropped and the rest adjusted.
pub open spec fn swap_result(after: Seq<CompressedGroupConstraint>, before: Seq<CompressedGroupConstraint>,
    a: int, b: int, role: int) -> bool
{
    &&& forall|k: int| 0 <= k < after.len() ==> swap_from(#[trigger] after[k], before, a, b, role)
    &&& forall|j: int| 0 <= j < before.len() && swap_kept(#[trigger] before[j], a, b, role) ==> swap_to(after, before[j], a, b, role)
}

proof fn lemma_swap_result(after: Seq<CompressedGroupConstraint>, mid: Seq<CompressedGroupConstraint>,
    before: Seq<CompressedGroupConstraint>, a: int, b: int, role: int)
    requires
        0 <= role <= 2,
        forall|k: int| 0 <= k < mid.len() ==> before.contains(#[trigger] mid[k]),
        forall|k: int| 0 <= k < mid.len() ==> swap_kept(#[trigger] mid[k], a, b, role),
        forall|j: int| 0 <= j < before.len() && swap_kept(#[trigger] before[j], a, b, role) ==> mid.contains(before[j]),
        after.len() == mid.len(),
        forall|k: int| 0 <= k < mid.len() ==> swapped(#[trigger] after[k], mid[k], a, b, role),
    ensures
        swap_result(after, before, a, b, role),
{
    assert forall|k: int| 0 <= k < after.len() implies swap_from(#[trigger] after[k], before, a, b, role) by {
        assert(before.contains(mid[k]));
        assert(swap_kept(mid[k], a, b, role));
        assert(swapped(after[k], mid[k], a, b, role));
        let j = choose|j: int| 0 <= j < before.len() && before[j] == mid[k];
        assert(swap_kept(before[j], a, b, role) && swapped(after[k], before[j], a, b, role));
    }
    assert forall|j: int| 0 <= j < before.len() && swap_kept(#[trigger] before[j], a, b, role)
        implies swap_to(after, before[j], a, b, role) by {
        assert(mid.contains(before[j]));
        let k = choose|k: int| 0 <= k < mid.len() && mid[k] == before[j];
        assert(swapped(after[k], mid[k], a, b, role));
    }
}

impl PathDependentCollectiveConstraint {
    /// `a` gave `card_a` to `b` and received `card_b` from it, unseen: the lists of the two
    /// cards drop the groups that can no longer hold (see `swap_kept`) and adjust the others
    /// (`swapped`); the other lists stay.
    pub fn swap_mix(&mut self, player_a: usize, card_a: Card, player_b: usize, card_b: Card)
        requires
            old(self).wf(),
            player_a < 7,
            player_b < 7,
        ensures
            final(self).wf(),
            final(self).public_view() == old(self).public_view(),
            final(self).inferred_view() == old(self).inferred_view(),
            final(self).impossible_view() == old(self).impossible_view(),
            final(self).history_view() == old(self).history_view(),
            final(self).move_no_spec() == old(self).move_no_spec(),
            forall|c: int| 0 <= c < 5 && c != card_index(card_a) && c != card_index(card_b)
                ==> #[trigger] final(self).groups_view()[c] == old(self).groups_view()[c],
            forall|c: int| 0 <= c < 5 && (c == card_index(card_a) || c == card_index(card_b)) ==> {
                let role = if card_a == card_b { 2int } else if c == card_index(card_a) { 0int } else { 1int };
                swap_result(#[trigger] final(self).groups_view()[c], old(self).groups_view()[c],
                    player_a as int, player_b as int, role)
            },
            forall|c: int| 0 <= c < 5 ==> (#[trigger] final(self).groups_view()[c]).len() <= old(self).groups_view()[c].len(),
    {
        let ca = card_a.num();
        let cb = card_b.num();
        let ghost gs0 = self.group_constraints@;
        proof { lemma_group_rows(gs0, ca as int); lemma_group_rows(gs0, cb as int); }
        if ca == cb {
            drop_pair_groups(&mut self.group_constraints[ca], player_a, player_b, 1);
            let ghost mid = self.group_constraints@[ca as int]@;
            swap_list(&mut self.group_constraints[ca], player_a, player_b, 2);
            proof {
                lemma_only_list_changed(gs0, self.group_constraints@, ca as int);
                lemma_swap_result(self.group_constraints@[ca as int]@, mid, gs0[ca as int]@, player_a as int, player_b as int, 2);
            }
        } else {
            drop_player_groups(&mut self.group_constraints[ca], player_a, 0, 1);
            let ghost mid_a = self.group_constraints@[ca as int]@;
            swap_list(&mut self.group_constraints[ca], player_a, player_b, 0);
            let ghost gs1 = self.group_constraints@;
            drop_player_groups(&mut self.group_constraints[cb], player_b, 0, 1);
            let ghost mid_b = self.group_constraints@[cb as int]@;
            swap_list(&mut self.group_constraints[cb], player_a, player_b, 1);
            proof {
                lemma_swap_result(gs1[ca as int]@, mid_a, gs0[ca as int]@, player_a as int, player_b as int, 0);
                lemma_swap_result(self.group_constraints@[cb as int]@, mid_b, gs0[cb as int]@, player_a as int, player_b as int, 1);
                assert forall|k: int| 0 <= k < 5 && k != ca && k != cb implies #[trigger] self.groups_view()[k] == group_rows(gs0)[k] by {
                    lemma_group_rows(self.group_constraints@, k);
                    lemma_group_rows(gs0, k);
                }
                lemma_group_rows(self.group_constraints@, ca as int);
                lemma_group_rows(self.group_constraints@, cb as int);
            }
        }
    }

    /// `a` gave `relinquish_card` to `b`, unseen: every group list is adjusted as
    /// `relinquished` says.
    pub fn relinquish_mix(&mut self, player_a: usize, player_b: usize, relinquish_card: Card)
        requires
            old(self).wf(),
            player_a < 7,
            player_b < 7,
            player_a != player_b,
        ensures
            final(self).wf(),
            final(self).public_view() == old(self).public_view(),
            final(self).inferred_view() == old(self).inferred_view(),
            final(self).impossible_view() == old(self).impossible_view(),
            final(self).history_view() == old(self).history_view(),
            final(self).move_no_spec() == old(self).move_no_spec(),
            forall|c: int| 0 <= c < 5 ==> (#[trigger] final(self).groups_view()[c]).len() == old(self).groups_view()[c].len(),
            forall|c: int, k: int| 0 <= c < 5 && 0 <= k < old(self).groups_view()[c].len() ==>
                relinquished(#[trigger] final(self).groups_view()[c][k], old(self).groups_view()[c][k],
                    player_a as int, player_b as int, c == card_index(relinquish_card),
                    count_card(old(self).public_view()[player_a as int], card_at(c)) as int,
                    count_card(old(self).inferred_view()[player_a as int], card_at(c)) as int,
                    count_card(old(self).public_view()[player_b as int], card_at(c)) as int,
                    count_card(old(self).inferred_view()[player_b as int], card_at(c)) as int),
    {
        let adc = self.player_dead_card_counts(player_a);
        let aic = self.player_inferred_card_counts(player_a);
        let bdc = self.player_dead_card_counts(player_b);
        let bic = self.player_inferred_card_counts(player_b);
        let ci = relinquish_card.num();
        proof {
            self.lemma_wf_rows();
            assert forall|k: int| 0 <= k < 5 implies #[trigger] adc@[k] <= 3 && aic@[k] <= 3 && bdc@[k] <= 3 && bic@[k] <= 3 by {
                crate::card::lemma_count_card_le_len(old(self).public_view()[player_a as int], card_at(k));
                crate::card::lemma_count_card_le_len(old(self).inferred_view()[player_a as int], card_at(k));
                crate::card::lemma_count_card_le_len(old(self).public_view()[player_b as int], card_at(k));
                crate::card::lemma_count_card_le_len(old(self).inferred_view()[player_b as int], card_at(k));
            }
        }
        let mut c: usize = 0;
        while c < 5
            invariant
                self.wf(),
                player_a < 7, player_b < 7, player_a != player_b,
                c <= 5,
                ci == card_index(relinquish_card),
                self.public_view() == old(self).public_view(),
                self.inferred_view() == old(self).inferred_view(),
                self.impossible_view() == old(self).impossible_view(),
                self.history_view() == old(self).history_view(),
                self.move_no_spec() == old(self).move_no_spec(),
                self.groups_view().len() == 5,
                forall|k: int| 0 <= k < 5 ==> #[trigger] adc@[k] <= 3 && aic@[k] <= 3 && bdc@[k] <= 3 && bic@[k] <= 3,
                forall|k: int| 0 <= k < 5 ==> #[trigger] adc@[k] == count_card(old(self).public_view()[player_a as int], card_at(k)),
                forall|k: int| 0 <= k < 5 ==> #[trigger] aic@[k] == count_card(old(self).inferred_view()[player_a as int], card_at(k)),
                forall|k: int| 0 <= k < 5 ==> #[trigger] bdc@[k] == count_card(old(self).public_view()[player_b as int], card_at(k)),
                forall|k: int| 0 <= k < 5 ==> #[trigger] bic@[k] == count_card(old(self).inferred_view()[player_b as int], card_at(k)),
                forall|cc: int| 0 <= cc < 5 ==> (#[trigger] self.groups_view()[cc]).len() == old(self).groups_view()[cc].len(),
                forall|cc: int, k: int| 0 <= cc < c && 0 <= k < old(self).groups_view()[cc].len() ==>
                    relinquished(#[trigger] self.groups_view()[cc][k], old(self).groups_view()[cc][k],
                        player_a as int, player_b as int, cc == ci, adc@[cc] as int, aic@[cc] as int, bdc@[cc] as int, bic@[cc] as int),
                forall|cc: int| c <= cc < 5 ==> #[trigger] self.groups_view()[cc] == old(self).groups_view()[cc],
            decreases 5 - c,
        {
            let ghost gs = self.group_constraints@;
            proof { lemma_group_rows(gs, c as int); }
            relinquish_list(&mut self.group_constraints[c], player_a, player_b, c == ci, adc[c], aic[c], bdc[c], bic[c]);
            proof { lemma_only_list_changed(gs, self.group_constraints@, c as int); }
            c += 1;
        }
    }

    /// Records, without checks, that `player_b` now holds `card_b` and `player_a` holds `card_a`.
    pub fn swap_add_inferred_cards_unchecked(&mut self, player_a: usize, card_a: Card, player_b: usize, card_b: Card)
        requires
            old(self).wf(),
            player_a < 7,
            player_b < 7,
            player_a != player_b ==> old(self).inferred_view()[player_a as int].len() < 3
                && old(self).inferred_view()[player_b as int].len() < 3,
            player_a == player_b ==> old(self).inferred_view()[player_a as int].len() < 2,
        ensures
            final(self).wf(),
            final(self).public_view() == old(self).public_view(),
            ({
                let inf1 = old(self).inferred_view().update(player_b as int, old(self).inferred_view()[player_b as int].push(card_b));
                final(self).inferred_view() == inf1.update(player_a as int, inf1[player_a as int].push(card_a))
            }),
            final(self).groups_view() == old(self).groups_view(),
            final(self).impossible_view() == old(self).impossible_view(),
            final(self).history_view() == old(self).history_view(),
            final(self).move_no_spec() == old(self).move_no_spec(),
    {
        proof { self.lemma_wf_rows(); }
        let ghost inf0 = self.inferred_view();
        self.inferred_constraints[player_b].push(card_b);
        let ghost inf1 = inf0.update(player_b as int, inf0[player_b as int].push(card_b));
        assert(self.inferred_view() =~= inf1);
        proof { lemma_rows(self.inferred_constraints@, player_a as int); }
        self.inferred_constraints[player_a].push(card_a);
        assert(self.inferred_view() =~= inf1.update(player_a as int, inf1[player_a as int].push(card_a)));
    }

    /// A player revealed `card` and drew a replacement from the pile: the groups are adjusted
    /// (`redrawn`); the revealed copy leaves the player's known cards and one known copy of
    /// every other card leaves the pile's (`pile_after`); for each card the pile held (the
    /// revealed one counted in), the group of the player and the pile holding those copies is
    /// added unless redundant; redundant groups are then dropped.
    #[verifier::spinoff_prover]
    #[verifier::rlimit(40)]
    pub fn redraw(&mut self, player_id: usize, card: Card)
        requires
            old(self).wf(),
            player_id < 7,
        ensures
            final(self).wf(),
            final(self).public_view() == old(self).public_view(),
            ({
                let inf1 = old(self).inferred_view().update(player_id as int,
                    swap_remove_card(old(self).inferred_view()[player_id as int], card));
                final(self).inferred_view() == inf1.update(6, pile_after(inf1[6], card, 5))
            }),
            player_id < 6 ==> forall|x: Card| #[trigger] count_card(final(self).inferred_view()[6], x) as int
                == count_card(old(self).inferred_view()[6], x) as int
                - (if x != card && old(self).inferred_view()[6].contains(x) { 1int } else { 0int }),
            final(self).impossible_view() == old(self).impossible_view(),
            final(self).history_view() == old(self).history_view(),
            final(self).move_no_spec() == old(self).move_no_spec(),
            forall|c: int, k: int| 0 <= c < 5 && 0 <= k < final(self).groups_view()[c].len() ==> {
                let cnt = count_card(old(self).inferred_view()[6], card_at(c)) + if c == card_index(card) { 1int } else { 0int };
                let dc = if player_id < 6 { count_card(old(self).public_view()[player_id as int], card_at(c)) as int } else { 0int };
                redraw_origin(#[trigger] final(self).groups_view()[c][k], old(self).groups_view()[c], player_id as int,
                    c == card_index(card), count_card(old(self).public_view()[player_id as int], card_at(c)) as int,
                    count_card(old(self).inferred_view()[player_id as int], card_at(c)) as int)
                || (cnt > 0 && pile_group(final(self).groups_view()[c][k], player_id as int, c, dc, cnt))
            },
            forall|c: int, k: int| 0 <= c < 5 && 0 <= k < old(self).groups_view()[c].len() ==>
                #[trigger] redrawn_kept(final(self).groups_view()[c], old(self).groups_view()[c][k], player_id as int,
                    c, card_index(card), old(self).public_view()[player_id as int], old(self).inferred_view()[player_id as int]),
            forall|c: int| 0 <= c < 5 ==> #[trigger] pile_group_kept(final(self).groups_view()[c], player_id as int, c,
                card_index(card), old(self).public_view()[player_id as int], old(self).inferred_view()[6]),
    {
        let pile = self.get_inferred_card_counts(6);
        let dead_counts = self.get_public_card_counts(player_id);
        let pdc = self.player_dead_card_counts(player_id);
        let pac = self.player_inferred_card_counts(player_id);
        let ci = card.num();
        let mut c: usize = 0;
        while c < 5
            invariant
                self.wf(),
                player_id < 7,
                c <= 5,
                ci == card_index(card),
                self.public_view() == old(self).public_view(),
                self.inferred_view() == old(self).inferred_view(),
                self.impossible_view() == old(self).impossible_view(),
                self.history_view() == old(self).history_view(),
                self.move_no_spec() == old(self).move_no_spec(),
                self.groups_view().len() == 5,
                forall|k: int| 0 <= k < 5 ==> #[trigger] pdc@[k] == count_card(old(self).public_view()[player_id as int], card_at(k)),
                forall|k: int| 0 <= k < 5 ==> #[trigger] pac@[k] == count_card(old(self).inferred_view()[player_id as int], card_at(k)),
                forall|cc: int| 0 <= cc < 5 ==> (#[trigger] self.groups_view()[cc]).len() == old(self).groups_view()[cc].len(),
                forall|cc: int, k: int| 0 <= cc < c && 0 <= k < old(self).groups_view()[cc].len() ==>
                    redrawn(#[trigger] self.groups_view()[cc][k], old(self).groups_view()[cc][k], player_id as int,
                        cc == ci, pdc@[cc] as int, pac@[cc] as int),
                forall|cc: int| c <= cc < 5 ==> #[trigger] self.groups_view()[cc] == old(self).groups_view()[cc],
            decreases 5 - c,
        {
            let ghost gs = self.group_constraints@;
            proof {
                lemma_group_rows(gs, c as int);
                self.lemma_wf_rows();
                crate::card::lemma_count_card_le_len(old(self).public_view()[player_id as int], card_at(c as int));
                crate::card::lemma_count_card_le_len(old(self).inferred_view()[player_id as int], card_at(c as int));
            }
            redraw_list(&mut self.group_constraints[c], player_id, c == ci, pdc[c], pac[c]);
            proof { lemma_only_list_changed(gs, self.group_constraints@, c as int); }
            c += 1;
        }
        let ghost mapped = self.groups_view();
        proof {
            self.lemma_wf_rows();
            assert forall|k2: int| 0 <= k2 < 5 implies #[trigger] pile@[k2] <= 3 by {
                crate::card::lemma_count_card_le_len(old(self).inferred_view()[6], card_at(k2));
            }
        }
        let ghost inf0 = self.inferred_view();
        swap_remove_card_from(&mut self.inferred_constraints[player_id], card);
        let ghost inf1 = inf0.update(player_id as int, swap_remove_card(inf0[player_id as int], card));
        proof {
            assert(self.inferred_view() =~= inf1);
            crate::card::lemma_swap_remove_card_len(inf0[player_id as int], card);
        }
        let mut k: usize = 0;
        let ghost cnts = Seq::new(5, |cc: int| pile@[cc] + if cc == ci { 1int } else { 0int });
        proof {
            assert forall|cc: int, j: int| 0 <= cc < 5 && 0 <= j < mapped[cc].len()
                implies present_or_covered(self.groups_view()[cc], #[trigger] mapped[cc][j]) by {
                assert(self.groups_view()[cc][j] == mapped[cc][j]);
            }
        }
        while k < 5
            invariant
                player_id < 7,
                k <= 5,
                ci == card_index(card),
                forall|cc: int, j: int| 0 <= cc < 5 && 0 <= j < mapped[cc].len()
                    ==> present_or_covered(self.groups_view()[cc], #[trigger] mapped[cc][j]),
                cnts == Seq::new(5, |cc: int| pile@[cc] + if cc == ci { 1int } else { 0int }),
                forall|cc: int| 0 <= cc < k && #[trigger] cnts[cc] > 0 ==>
                    exists|g: CompressedGroupConstraint| #[trigger] pile_group(g, player_id as int, cc, dead_counts@[cc] as int,
                        cnts[cc]) && present_or_covered(self.groups_view()[cc], g),
                self.inferred_constraints@.len() == 7,
                inf1.len() == 7,
                forall|i: int| 0 <= i < 7 ==> #[trigger] inf1[i].len() <= 3,
                self.inferred_view() == inf1.update(6, pile_after(inf1[6], card, k as int)),
                self.public_view() == old(self).public_view(),
                table_ok(self.public_view(), 2),
                self.impossible_view() == old(self).impossible_view(),
                self.history_view() == old(self).history_view(),
                self.history@.len() >= 2,
                forall|i: int| 0 <= i < self.history@.len() ==> (#[trigger] self.history@[i]).meta_spec().wf(),
                self.move_no_spec() == old(self).move_no_spec(),
                self.group_constraints@.len() == 5,
                forall|k2: int| 0 <= k2 < 5 ==> #[trigger] pile@[k2] == count_card(old(self).inferred_view()[6], card_at(k2)),
                forall|k2: int| 0 <= k2 < 5 ==> #[trigger] pile@[k2] <= 3,
                forall|k2: int| 0 <= k2 < 5 ==> #[trigger] dead_counts@[k2] ==
                    if player_id < 6 { count_card(old(self).public_view()[player_id as int], card_at(k2)) } else { 0 },
                mapped.len() == 5,
                forall|cc: int| k <= cc < 5 ==> #[trigger] self.groups_view()[cc] == mapped[cc],
                forall|cc: int| 0 <= cc < k ==> #[trigger] self.groups_view()[cc] == mapped[cc]
                    || ((pile@[cc] + if cc == ci { 1int } else { 0int }) > 0 && exists|g: CompressedGroupConstraint|
                        pile_group(g, player_id as int, cc, dead_counts@[cc] as int, pile@[cc] + if cc == ci { 1int } else { 0int })
                        && drawn_from(self.groups_view()[cc], mapped[cc], g)),
            decreases 5 - k,
        {
            let ghost head = self.group_constraints@;
            proof {
                lemma_group_rows(head, k as int);
                assert(self.groups_view()[k as int] == mapped[k as int]);
            }
            let ic = Card::from_num(k);
            if ic != card {
                let ghost prev = self.inferred_constraints@;
                proof { lemma_rows(prev, 6); }
                swap_remove_card_from(&mut self.inferred_constraints[6], ic);
                proof {
                    lemma_pile_after_len(inf1[6], card, k as int + 1);
                    assert forall|i: int| 0 <= i < 7 implies #[trigger] self.inferred_view()[i]
                        == inf1.update(6, pile_after(inf1[6], card, k as int + 1))[i] by {
                        lemma_rows(self.inferred_constraints@, i);
                        lemma_rows(prev, i);
                    }
                    assert(self.inferred_view() =~= inf1.update(6, pile_after(inf1[6], card, k as int + 1)));
                }
            } else {
                assert(pile_after(inf1[6], card, k as int + 1) == pile_after(inf1[6], card, k as int));
            }
            let count = if k == ci { pile[k] + 1 } else { pile[k] };
            if count > 0 {
                let g = CompressedGroupConstraint::new_with_pile(player_id, ic, dead_counts[k], count);
                let ghost gs = self.group_constraints@;
                proof { lemma_group_rows(gs, k as int); }
                Self::non_redundant_push(&mut self.group_constraints[k], g);
                proof {
                    lemma_only_list_changed(gs, self.group_constraints@, k as int);
                    lemma_group_rows(self.group_constraints@, k as int);
                    assert(pile_group(g, player_id as int, k as int, dead_counts@[k as int] as int, count as int));
                    assert(drawn_from(self.groups_view()[k as int], mapped[k as int], g));
                    lemma_group_rows(gs, k as int);
                    assert(gs[k as int]@ == mapped[k as int]);
                    let after = self.groups_view()[k as int];
                    assert forall|j: int| 0 <= j < mapped[k as int].len()
                        implies present_or_covered(after, #[trigger] mapped[k as int][j]) by {
                        assert(mapped[k as int].contains(mapped[k as int][j]));
                        lemma_push_keeps_covered(mapped[k as int], after, mapped[k as int][j], g);
                    }
                    assert(present_or_covered(after, g));
                }
            }
            proof {
                assert forall|cc: int| 0 <= cc < 5 && cc != k implies #[trigger] self.groups_view()[cc] == group_rows(head)[cc] by {
                    lemma_group_rows(self.group_constraints@, cc);
                    lemma_group_rows(head, cc);
                }
            }
            k += 1;
        }
        proof {
            lemma_pile_after_len(inf1[6], card, 5);
            assert(table_ok(self.inferred_view(), 3));
            self.lemma_wf_rows();
        }
        proof {
            if player_id < 6 {
                assert forall|x: Card| #[trigger] count_card(self.inferred_view()[6], x) as int
                    == count_card(old(self).inferred_view()[6], x) as int
                    - (if x != card && old(self).inferred_view()[6].contains(x) { 1int } else { 0int }) by {
                    law_pile_after_redraw(inf1[6], card, x);
                }
            }
        }
        let ghost pushed = self.groups_view();
        self.group_redundant_prune();
        proof {
            assert forall|c: int, k2: int| 0 <= c < 5 && 0 <= k2 < self.groups_view()[c].len() implies {
                let cnt = count_card(old(self).inferred_view()[6], card_at(c)) + if c == card_index(card) { 1int } else { 0int };
                let dc = if player_id < 6 { count_card(old(self).public_view()[player_id as int], card_at(c)) as int } else { 0int };
                redraw_origin(#[trigger] self.groups_view()[c][k2], old(self).groups_view()[c], player_id as int,
                    c == card_index(card), count_card(old(self).public_view()[player_id as int], card_at(c)) as int,
                    count_card(old(self).inferred_view()[player_id as int], card_at(c)) as int)
                || (cnt > 0 && pile_group(self.groups_view()[c][k2], player_id as int, c, dc, cnt))
            } by {
                let x = self.groups_view()[c][k2];
                assert(sub_list(self.groups_view()[c], pushed[c]));
                assert(pushed[c].contains(x));
                if mapped[c].contains(x) {
                    let j = choose|j: int| 0 <= j < mapped[c].len() && mapped[c][j] == x;
                    assert(redrawn(x, old(self).groups_view()[c][j], player_id as int, c == ci, pdc@[c] as int, pac@[c] as int));
                } else {
                    let g = choose|g: CompressedGroupConstraint| pile_group(g, player_id as int, c, dead_counts@[c] as int,
                        pile@[c] + if c == ci { 1int } else { 0int }) && drawn_from(pushed[c], mapped[c], g);
                    let m = choose|m: int| 0 <= m < pushed[c].len() && pushed[c][m] == x;
                    assert(pushed[c][m] == g || mapped[c].contains(pushed[c][m]));
                }
            }
            let fin = self.groups_view();
            assert forall|c: int, k2: int| 0 <= c < 5 && 0 <= k2 < old(self).groups_view()[c].len() implies
                #[trigger] redrawn_kept(fin[c], old(self).groups_view()[c][k2], player_id as int,
                    c, card_index(card), old(self).public_view()[player_id as int], old(self).inferred_view()[player_id as int]) by {
                let n = mapped[c][k2];
                assert(redrawn(n, old(self).groups_view()[c][k2], player_id as int, c == ci, pdc@[c] as int, pac@[c] as int));
                assert(present_or_covered(pushed[c], n));
                lemma_covered_represented(pushed[c], n);
                lemma_represented_trans(fin[c], pushed[c], n);
            }
            assert forall|c: int| 0 <= c < 5 implies #[trigger] pile_group_kept(fin[c], player_id as int, c,
                card_index(card), old(self).public_view()[player_id as int], old(self).inferred_view()[6]) by {
                if cnts[c] > 0 {
                    let g = choose|g: CompressedGroupConstraint| #[trigger] pile_group(g, player_id as int, c, dead_counts@[c] as int,
                        cnts[c]) && present_or_covered(pushed[c], g);
                    lemma_covered_represented(pushed[c], g);
                    lemma_represented_trans(fin[c], pushed[c], g);
                }
            }
        }
    }

    /// A player exchanged cards with the pile unseen: every group of every card is adjusted
    /// as `mixed` says, and the player and the pile share their impossibilities.
    pub fn mix(&mut self, player_id: usize)
        requires
            old(self).wf(),
            player_id < 7,
        ensures
            final(self).wf(),
            final(self).public_view() == old(self).public_view(),
            final(self).inferred_view() == old(self).inferred_view(),
            final(self).history_view() == old(self).history_view(),
            final(self).move_no_spec() == old(self).move_no_spec(),
            mixed_impossible(final(self).impossible_view(), old(self).impossible_view(), player_id as int),
            forall|c: int| 0 <= c < 5 ==> (#[trigger] final(self).groups_view()[c]).len() == old(self).groups_view()[c].len(),
            forall|c: int, k: int| 0 <= c < 5 && 0 <= k < old(self).groups_view()[c].len() ==>
                mixed(#[trigger] final(self).groups_view()[c][k], old(self).groups_view()[c][k], player_id as int,
                    count_card(old(self).public_view()[player_id as int], card_at(c)) as int,
                    count_card(old(self).inferred_view()[player_id as int], card_at(c)) as int,
                    count_card(old(self).inferred_view()[6], card_at(c)) as int),
            forall|c: int, k: int| 0 <= c < 5 && 0 <= k < old(self).groups_view()[c].len()
                && (old(self).groups_view()[c][k].pflag(6) || old(self).groups_view()[c][k].pflag(player_id as int))
                ==> (#[trigger] final(self).groups_view()[c][k]).pflag(player_id as int) && final(self).groups_view()[c][k].pflag(6),
    {
        let dead = self.player_dead_card_counts(player_id);
        let inf = self.player_inferred_card_counts(player_id);
        let pile = self.player_inferred_card_counts(6);
        let mut c: usize = 0;
        while c < 5
            invariant
                self.wf(),
                player_id < 7,
                c <= 5,
                self.public_view() == old(self).public_view(),
                self.inferred_view() == old(self).inferred_view(),
                self.impossible_view() == old(self).impossible_view(),
                self.history_view() == old(self).history_view(),
                self.move_no_spec() == old(self).move_no_spec(),
                self.groups_view().len() == 5,
                forall|k: int| 0 <= k < 5 ==> #[trigger] dead@[k] == count_card(old(self).public_view()[player_id as int], card_at(k)),
                forall|k: int| 0 <= k < 5 ==> #[trigger] inf@[k] == count_card(old(self).inferred_view()[player_id as int], card_at(k)),
                forall|k: int| 0 <= k < 5 ==> #[trigger] pile@[k] == count_card(old(self).inferred_view()[6], card_at(k)),
                forall|cc: int| 0 <= cc < 5 ==> (#[trigger] self.groups_view()[cc]).len() == old(self).groups_view()[cc].len(),
                forall|cc: int, k: int| 0 <= cc < c && 0 <= k < old(self).groups_view()[cc].len() ==>
                    mixed(#[trigger] self.groups_view()[cc][k], old(self).groups_view()[cc][k], player_id as int,
                        dead@[cc] as int, inf@[cc] as int, pile@[cc] as int),
                forall|cc: int| c <= cc < 5 ==> #[trigger] self.groups_view()[cc] == old(self).groups_view()[cc],
            decreases 5 - c,
        {
            let ghost gs = self.group_constraints@;
            proof { lemma_group_rows(gs, c as int); }
            mix_list(&mut self.group_constraints[c], player_id, dead[c], inf[c], pile[c]);
            proof { lemma_only_list_changed(gs, self.group_constraints@, c as int); }
            c += 1;
        }
        let ghost imp0 = self.impossible_constraints;
        let ghost s0 = *self;
        let mut i: usize = 0;
        while i < 5
            invariant
                player_id < 7,
                self.public_constraints == s0.public_constraints,
                self.inferred_constraints == s0.inferred_constraints,
                self.group_constraints == s0.group_constraints,
                self.history == s0.history,
                self.move_no == s0.move_no,
                i <= 5,
                forall|q: int, cc: int| 0 <= q < 7 && 0 <= cc < 5 ==> #[trigger] self.impossible_constraints[q][cc] ==
                    if (q == player_id || q == 6) && cc < i { imp0[player_id as int][cc] && imp0[6][cc] } else { imp0[q][cc] },
            decreases 5 - i,
        {
            let both = self.impossible_constraints[player_id][i] && self.impossible_constraints[6][i];
            self.impossible_constraints[player_id][i] = both;
            self.impossible_constraints[6][i] = both;
            i += 1;
        }
    }
}

} // verus!
