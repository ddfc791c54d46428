use vstd::prelude::*;
use crate::group::{CompressedGroupConstraint, clamp3, count_flags};
use super::group_ops::swap_removed;

verus! {

/// `new` is `old` with `player` taken out and `a` living, `d` dead and `t` total copies
/// subtracted, each count floored at zero.
pub open spec fn stripped(new: CompressedGroupConstraint, old: CompressedGroupConstraint,
    player: int, a: int, d: int, t: int) -> bool
{
    &&& forall|j: int| #[trigger] new.pflag(j) == (j != player && old.pflag(j))
    &&& forall|j: int| #[trigger] new.sflag(j) == old.sflag(j)
    &&& new.card_spec() == old.card_spec()
    &&& new.alive_spec() == clamp3(old.alive_spec() - a)
    &&& new.dead_spec() == clamp3(old.dead_spec() - d)
    &&& new.total_spec() == clamp3(old.total_spec() - t)
}

/// `g` comes from a group of `before` that held `player` and had more than `keep_above`
/// living copies, by taking the player out.
pub open spec fn strip_of(g: CompressedGroupConstraint, before: Seq<CompressedGroupConstraint>,
    player: int, keep_above: int, a: int, d: int, t: int) -> bool
{
    exists|j: int| 0 <= j < before.len() && #[trigger] before[j].pflag(player)
        && before[j].alive_spec() > keep_above && stripped(g, before[j], player, a, d, t)
}

/// The result of taking `player` out of every group of `before`: no group holds the
/// player; a group that did not hold it stays; any other group comes from one that held it
/// and had more than `keep_above` living copies, and is not about a single participant.
pub open spec fn list_stripped(after: Seq<CompressedGroupConstraint>, before: Seq<CompressedGroupConstraint>,
    player: int, keep_above: int, a: int, d: int, t: int) -> bool
{
    &&& forall|k: int| 0 <= k < after.len() ==> !(#[trigger] after[k]).pflag(player)
    &&& forall|k: int| 0 <= k < after.len() ==> before.contains(#[trigger] after[k])
        || (strip_of(after[k], before, player, keep_above, a, d, t) && count_flags(after[k].plist(), 7) != 1)
    &&& forall|j: int| 0 <= j < before.len() && !(#[trigger] before[j]).pflag(player) ==> after.contains(before[j])
}

/// The groups that were split off when `player` was taken out: each comes from a group that
/// held the player and is now about a single participant.
pub open spec fn split_off(out: Seq<CompressedGroupConstraint>, out0: Seq<CompressedGroupConstraint>,
    before: Seq<CompressedGroupConstraint>, player: int, keep_above: int, a: int, d: int, t: int) -> bool
{
    &&& out.len() >= out0.len()
    &&& out.subrange(0, out0.len() as int) == out0
    &&& forall|k: int| out0.len() <= k < out.len() ==>
        strip_of(#[trigger] out[k], before, player, keep_above, a, d, t) && count_flags(out[k].plist(), 7) == 1
}

pub(crate) proof fn lemma_swap_removed_keeps<T>(v: Seq<T>, i: int, x: T)
    requires
        0 <= i < v.len(),
        v.contains(x),
        v[i] != x,
    ensures
        swap_removed(v, i).contains(x),
{
    let m = choose|m: int| 0 <= m < v.len() && v[m] == x;
    if m == v.len() - 1 {
        assert(swap_removed(v, i)[i] == x);
    } else {
        assert(swap_removed(v, i)[m] == x);
    }
}

proof fn lemma_update_keeps<T>(v: Seq<T>, i: int, y: T, x: T)
    requires
        0 <= i < v.len(),
        v.contains(x),
        v[i] != x,
    ensures
        v.update(i, y).contains(x),
{
    let m = choose|m: int| 0 <= m < v.len() && v[m] == x;
    assert(v.update(i, y)[m] == x);
}

/// Takes `player` out of every group of `v` that holds it. A group with more than
/// `keep_above` living copies loses `a` living, `d` dead and `t` total copies and stays,
/// or moves to `out` when only one participant is left; the others are dropped.
pub fn strip_player(v: &mut Vec<CompressedGroupConstraint>, player: usize, keep_above: u8,
    a: u8, d: u8, t: u8, out: &mut Vec<CompressedGroupConstraint>)
    requires
        player < 7,
    ensures
        list_stripped(final(v)@, old(v)@, player as int, keep_above as int, a as int, d as int, t as int),
        split_off(final(out)@, old(out)@, old(v)@, player as int, keep_above as int, a as int, d as int, t as int),
{
    let ghost before = v@;
    let ghost out0 = out@;
    let ghost (p, ka, ai, di, ti) = (player as int, keep_above as int, a as int, d as int, t as int);
    assert(out@.subrange(0, out0.len() as int) =~= out0);
    let mut i: usize = 0;
    while i < v.len()
        invariant
            player < 7,
            p == player as int, ka == keep_above as int, ai == a as int, di == d as int, ti == t as int,
            i <= v@.len(),
            forall|k: int| 0 <= k < i ==> !(#[trigger] v@[k]).pflag(p),
            forall|k: int| 0 <= k < i ==> before.contains(#[trigger] v@[k])
                || (strip_of(v@[k], before, p, ka, ai, di, ti) && count_flags(v@[k].plist(), 7) != 1),
            forall|k: int| i <= k < v@.len() ==> before.contains(#[trigger] v@[k]),
            forall|j: int| 0 <= j < before.len() && !(#[trigger] before[j]).pflag(p) ==> v@.contains(before[j]),
            split_off(out@, out0, before, p, ka, ai, di, ti),
        decreases v@.len() - i,
    {
        let x = v[i];
        if x.get_player_flag(player) {
            proof {
                assert(before.contains(v@[i as int]));
                assert forall|j: int| 0 <= j < before.len() && !(#[trigger] before[j]).pflag(p)
                    implies v@.contains(before[j]) && v@[i as int] != before[j] by {}
            }
            let ghost jx = choose|j: int| 0 <= j < before.len() && before[j] == x;
            let mut g = x;
            g.set_player_flag(player, false);
            if g.count_alive() > keep_above {
                g.sub_alive_count(a);
                g.sub_dead_count(d);
                g.sub_total_count(t);
                assert(stripped(g, before[jx], p, ai, di, ti));
                assert(strip_of(g, before, p, ka, ai, di, ti));
                if g.is_single_player_part_list() {
                    let ghost vv = v@;
                    out.push(g);
                    proof {
                        assert forall|j: int| 0 <= j < before.len() && !(#[trigger] before[j]).pflag(p)
                            implies swap_removed(vv, i as int).contains(before[j]) by {
                            lemma_swap_removed_keeps(vv, i as int, before[j]);
                        }
                        assert(out@.subrange(0, out0.len() as int) =~= out0) by {
                            assert(out@.subrange(0, out0.len() as int) =~= out@.drop_last().subrange(0, out0.len() as int));
                        }
                        assert forall|k: int| out0.len() <= k < out@.len() implies
                            strip_of(#[trigger] out@[k], before, p, ka, ai, di, ti) && count_flags(out@[k].plist(), 7) == 1 by {
                            if k < out@.len() - 1 {
                                assert(out@[k] == out@.drop_last()[k]);
                            }
                        }
                    }
                    v.swap_remove(i);
                    assert(v@ == swap_removed(vv, i as int));
                    continue;
                }
                let ghost vv = v@;
                v.set(i, g);
                proof {
                    assert forall|j: int| 0 <= j < before.len() && !(#[trigger] before[j]).pflag(p)
                        implies v@.contains(before[j]) by {
                        lemma_update_keeps(vv, i as int, g, before[j]);
                    }
                }
            } else {
                let ghost vv = v@;
                proof {
                    assert forall|j: int| 0 <= j < before.len() && !(#[trigger] before[j]).pflag(p)
                        implies swap_removed(vv, i as int).contains(before[j]) by {
                        lemma_swap_removed_keeps(vv, i as int, before[j]);
                    }
                }
                v.swap_remove(i);
                assert(v@ == swap_removed(vv, i as int));
                continue;
            }
        }
        i += 1;
    }
}

/// `after` is `before` without the groups that hold `player` and have between `lo` and
/// `hi` living copies.
pub open spec fn list_dropped(after: Seq<CompressedGroupConstraint>, before: Seq<CompressedGroupConstraint>,
    player: int, lo: int, hi: int) -> bool
{
    &&& forall|k: int| 0 <= k < after.len() ==> before.contains(#[trigger] after[k])
    &&& forall|k: int| 0 <= k < after.len() ==> !((#[trigger] after[k]).pflag(player)
        && lo <= after[k].alive_spec() <= hi)
    &&& forall|j: int| 0 <= j < before.len() && !((#[trigger] before[j]).pflag(player)
        && lo <= before[j].alive_spec() <= hi) ==> after.contains(before[j])
}

/// Drops every group of `v` that holds `player` and has between `lo` and `hi` living copies.
pub fn drop_player_groups(v: &mut Vec<CompressedGroupConstraint>, player: usize, lo: u8, hi: u8)
    requires
        player < 7,
    ensures
        list_dropped(final(v)@, old(v)@, player as int, lo as int, hi as int),
        final(v)@.len() <= old(v)@.len(),
{
    let ghost before = v@;
    let mut i: usize = 0;
    while i < v.len()
        invariant
            player < 7,
            i <= v@.len(),
            forall|k: int| 0 <= k < v@.len() ==> before.contains(#[trigger] v@[k]),
            forall|k: int| 0 <= k < i ==> !((#[trigger] v@[k]).pflag(player as int) && lo <= v@[k].alive_spec() <= hi),
            v@.len() <= before.len(),
            forall|j: int| 0 <= j < before.len() && !((#[trigger] before[j]).pflag(player as int)
                && lo <= before[j].alive_spec() <= hi) ==> v@.contains(before[j]),
        decreases v@.len() - i,
    {
        let alive = v[i].count_alive();
        if v[i].get_player_flag(player) && lo <= alive && alive <= hi {
            let ghost vv = v@;
            proof {
                assert forall|j: int| 0 <= j < before.len() && !((#[trigger] before[j]).pflag(player as int)
                    && lo <= before[j].alive_spec() <= hi) implies swap_removed(vv, i as int).contains(before[j]) by {
                    lemma_swap_removed_keeps(vv, i as int, before[j]);
                }
                assert forall|k: int| 0 <= k < vv.len() - 1 implies before.contains(#[trigger] swap_removed(vv, i as int)[k]) by {
                    if k == i { assert(swap_removed(vv, i as int)[k] == vv[vv.len() - 1]); }
                    else { assert(swap_removed(vv, i as int)[k] == vv[k]); }
                }
            }
            v.swap_remove(i);
            assert(v@ == swap_removed(vv, i as int));
            continue;
        }
        i += 1;
    }
}

/// `new` is `old` with one living copy turned dead, and the single-card flag of `player`
/// cleared when `clear_single` is set.
pub open spec fn killed(new: CompressedGroupConstraint, old: CompressedGroupConstraint, player: int,
    clear_single: bool) -> bool
{
    &&& forall|j: int| #[trigger] new.pflag(j) == old.pflag(j)
    &&& forall|j: int| #[trigger] new.sflag(j) == if clear_single && j == player { false } else { old.sflag(j) }
    &&& new.card_spec() == old.card_spec()
    &&& new.alive_spec() == old.alive_spec() - 1
    &&& new.dead_spec() == clamp3(old.dead_spec() + 1int)
    &&& new.total_spec() == old.total_spec()
}

/// Some group of `before` held `player`, had more than one living copy, and became `g`.
pub open spec fn kill_of(g: CompressedGroupConstraint, before: Seq<CompressedGroupConstraint>, player: int,
    clear_single: bool) -> bool
{
    exists|j: int| 0 <= j < before.len() && #[trigger] before[j].pflag(player)
        && before[j].alive_spec() > 1 && killed(g, before[j], player, clear_single)
}

/// In every group of `v` holding `player`, one living copy becomes dead (clearing the
/// player's single-card flag when `clear_single` is set); a group with at most one living
/// copy is dropped instead.
pub fn kill_player_in_list(v: &mut Vec<CompressedGroupConstraint>, player: usize, clear_single: bool)
    requires
        player < 7,
    ensures
        forall|k: int| 0 <= k < final(v)@.len() ==>
            (old(v)@.contains(#[trigger] final(v)@[k]) && !final(v)@[k].pflag(player as int))
            || kill_of(final(v)@[k], old(v)@, player as int, clear_single),
        forall|j: int| 0 <= j < old(v)@.len() && !(#[trigger] old(v)@[j]).pflag(player as int)
            ==> final(v)@.contains(old(v)@[j]),
{
    let ghost before = v@;
    let ghost p = player as int;
    let mut i: usize = 0;
    while i < v.len()
        invariant
            player < 7,
            p == player as int,
            i <= v@.len(),
            forall|k: int| 0 <= k < i ==>
                (before.contains(#[trigger] v@[k]) && !v@[k].pflag(p)) || kill_of(v@[k], before, p, clear_single),
            forall|k: int| i <= k < v@.len() ==> before.contains(#[trigger] v@[k]),
            forall|j: int| 0 <= j < before.len() && !(#[trigger] before[j]).pflag(p) ==> v@.contains(before[j]),
        decreases v@.len() - i,
    {
        let x = v[i];
        if x.get_player_flag(player) {
            proof { assert(before.contains(v@[i as int])); }
            let ghost jx = choose|j: int| 0 <= j < before.len() && before[j] == x;
            let ghost vv = v@;
            proof {
                assert forall|j: int| 0 <= j < before.len() && !(#[trigger] before[j]).pflag(p)
                    implies vv[i as int] != before[j] by {}
            }
            if x.count_alive() > 1 {
                let mut g = x;
                if clear_single {
                    g.set_single_card_flag(player, false);
                }
                g.add_dead_count(1);
                g.sub_alive_count(1);
                assert(killed(g, before[jx], p, clear_single));
                v.set(i, g);
                proof {
                    assert forall|j: int| 0 <= j < before.len() && !(#[trigger] before[j]).pflag(p)
                        implies v@.contains(before[j]) by {
                        lemma_update_keeps(vv, i as int, g, before[j]);
                    }
                }
            } else {
                proof {
                    assert forall|j: int| 0 <= j < before.len() && !(#[trigger] before[j]).pflag(p)
                        implies swap_removed(vv, i as int).contains(before[j]) by {
                        lemma_swap_removed_keeps(vv, i as int, before[j]);
                    }
                }
                v.swap_remove(i);
                assert(v@ == swap_removed(vv, i as int));
                continue;
            }
        }
        i += 1;
    }
}

} // verus!
