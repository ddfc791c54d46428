use vstd::prelude::*;
use crate::card::{Card, card_index, card_at, count_card, count_in, contains_card};
use crate::group::CompressedGroupConstraint;
use super::{PathDependentCollectiveConstraint, ActionInfo, rows, lemma_rows, table_ok, table_count};
use super::inference::{copy_groups, first_flag};

verus! {

/// `j` is the only participant of `g`.
pub open spec fn holder_is(g: CompressedGroupConstraint, j: int) -> bool {
    forall|i: int| 0 <= i < 7 ==> #[trigger] g.pflag(i) == (i == j)
}

/// `g` has exactly one participant.
pub open spec fn single_holder(g: CompressedGroupConstraint) -> bool {
    exists|j: int| 0 <= j < 7 && #[trigger] holder_is(g, j)
}

/// Every group of `s` has exactly one participant.
pub open spec fn all_single(s: Seq<CompressedGroupConstraint>) -> bool {
    forall|k: int| 0 <= k < s.len() ==> #[trigger] single_holder(s[k])
}

proof fn lemma_holder(g: CompressedGroupConstraint, j: int)
    requires
        single_holder(g),
        0 <= j < 7,
        g.pflag(j),
    ensures
        holder_is(g, j),
{
    let h = choose|h: int| 0 <= h < 7 && #[trigger] holder_is(g, h);
    assert(g.pflag(j) == (j == h));
}

/// Every group of `s` stands for one copy.
pub open spec fn unit_groups(s: Seq<CompressedGroupConstraint>) -> bool {
    forall|k: int| 0 <= k < s.len() ==> (#[trigger] s[k]).total_spec() == 1
}

/// The group of `player` alone, holding one copy.
fn lone_group(player: usize) -> (r: CompressedGroupConstraint)
    requires
        player < 7,
    ensures
        holder_is(r, player as int),
        single_holder(r),
        r.total_spec() == 1,
        r == lone_spec(player as int),
{
    let mut g = CompressedGroupConstraint::zero();
    g.set_player_flag(player, true);
    g.set_total_count(1);
    assert(holder_is(g, player as int));
    proof {
        assert(is_lone(g, player as int));
        let l = lone_spec(player as int);
        assert(is_lone(l, player as int));
        crate::group::lemma_group_ext(g, l);
    }
    g
}

/// `groups` with the group of `player` alone added.
fn with_lone(groups: &Vec<CompressedGroupConstraint>, player: usize) -> (r: Vec<CompressedGroupConstraint>)
    requires
        player < 7,
    ensures
        r@.len() == groups@.len() + 1,
        all_single(groups@) ==> all_single(r@),
        unit_groups(groups@) ==> unit_groups(r@),
        r@ == groups@.push(lone_spec(player as int)),
{
    let mut r = copy_groups(groups);
    let g = lone_group(player);
    r.push(g);
    proof {
        assert(r@ =~= groups@.push(lone_spec(player as int)));
        assert forall|k: int| 0 <= k < r@.len() && all_single(groups@) implies #[trigger] single_holder(r@[k]) by {
            if k < groups@.len() { assert(r@[k] == groups@[k]); }
        }
        assert forall|k: int| 0 <= k < r@.len() && unit_groups(groups@) implies (#[trigger] r@[k]).total_spec() == 1 by {
            if k < groups@.len() { assert(r@[k] == groups@[k]); }
        }
    }
    r
}

/// `groups` with, in group `idx`, participant `off` taken out and `on` put in.
fn relabel(groups: &Vec<CompressedGroupConstraint>, idx: usize, off: usize, on: usize) -> (r: Vec<CompressedGroupConstraint>)
    requires
        idx < groups@.len(),
        off < 7,
        on < 7,
        groups@[idx as int].pflag(off as int),
    ensures
        r@.len() == groups@.len(),
        all_single(groups@) ==> all_single(r@),
        unit_groups(groups@) ==> unit_groups(r@),
        r@ == groups@.update(idx as int, relabeled(groups@[idx as int], off as int, on as int)),
{
    proof {
        if all_single(groups@) { lemma_holder(groups@[idx as int], off as int); }
    }
    let mut r = copy_groups(groups);
    let mut g = r[idx];
    g.set_player_flag(off, false);
    g.set_player_flag(on, true);
    assert(all_single(groups@) ==> holder_is(g, on as int));
    proof {
        let g0 = groups@[idx as int];
        assert(relabel_of(g, g0, off as int, on as int));
        let rl = relabeled(g0, off as int, on as int);
        assert(relabel_of(rl, g0, off as int, on as int));
        assert forall|i: int| 0 <= i < 7 implies #[trigger] g.pflag(i) == rl.pflag(i) by {}
        assert forall|i: int| 0 <= i < 7 implies #[trigger] g.sflag(i) == rl.sflag(i) by {}
        crate::group::lemma_group_ext(g, rl);
    }
    r.set(idx, g);
    proof {
        assert(r@ =~= groups@.update(idx as int, relabeled(groups@[idx as int], off as int, on as int)));
        assert forall|k: int| 0 <= k < r@.len() && all_single(groups@) implies #[trigger] single_holder(r@[k]) by {
            if k != idx { assert(r@[k] == groups@[k]); }
        }
        assert forall|k: int| 0 <= k < r@.len() && unit_groups(groups@) implies (#[trigger] r@[k]).total_spec() == 1 by {
            if k != idx { assert(r@[k] == groups@[k]); }
        }
    }
    r
}

/// Whether some group of `groups` holds `player`.
fn any_holds(groups: &Vec<CompressedGroupConstraint>, player: usize) -> (r: bool)
    requires
        player < 7,
    ensures
        r == exists|k: int| 0 <= k < groups@.len() && (#[trigger] groups@[k]).pflag(player as int),
{
    let mut k: usize = 0;
    while k < groups.len()
        invariant
            player < 7,
            k <= groups@.len(),
            forall|m: int| 0 <= m < k ==> !(#[trigger] groups@[m]).pflag(player as int),
        decreases groups@.len() - k,
    {
        if groups[k].get_player_flag(player) {
            return true;
        }
        k += 1;
    }
    false
}

/// How many groups of `s` hold `player`.
pub open spec fn holding_count(s: Seq<CompressedGroupConstraint>, player: int) -> nat
    decreases s.len(),
{
    if s.len() == 0 {
        0
    } else {
        holding_count(s.drop_last(), player) + if s.last().pflag(player) { 1nat } else { 0nat }
    }
}

/// How many groups of `groups` hold `player`.
fn count_holding(groups: &Vec<CompressedGroupConstraint>, player: usize) -> (r: usize)
    requires
        player < 7,
    ensures
        r <= groups@.len(),
        r == holding_count(groups@, player as int),
{
    let mut n: usize = 0;
    let mut k: usize = 0;
    while k < groups.len()
        invariant
            player < 7,
            k <= groups@.len(),
            n <= k,
            n == holding_count(groups@.take(k as int), player as int),
        decreases groups@.len() - k,
    {
        assert(groups@.take(k as int + 1).drop_last() =~= groups@.take(k as int));
        if groups[k].get_player_flag(player) {
            n += 1;
        }
        k += 1;
    }
    assert(groups@.take(k as int) =~= groups@);
    n
}

/// The shorter of the two (the first when equal).
fn shorter(curr: Option<Vec<CompressedGroupConstraint>>, found: Vec<CompressedGroupConstraint>)
    -> (r: Option<Vec<CompressedGroupConstraint>>)
    ensures
        match r { Some(c) => c == found || curr == Some(c), None => false },
        opt_view(r) == shorter_spec(opt_view(curr), found@),
        match (r, curr) { (Some(c), Some(d)) => c@.len() <= d@.len(), _ => true },
        match r { Some(c) => c@.len() <= found@.len(), None => false },
{
    match curr {
        Some(c) => if found.len() < c.len() { Some(found) } else { Some(c) },
        None => Some(found),
    }
}

/// The one with more groups holding `player` (the first when equal).
fn more_holding(curr: Option<Vec<CompressedGroupConstraint>>, found: Vec<CompressedGroupConstraint>, player: usize,
    floor: Ghost<nat>, single: Ghost<bool>) -> (r: Option<Vec<CompressedGroupConstraint>>)
    requires
        player < 7,
        floor@ <= found@.len() <= 3,
        single@ ==> all_single(found@),
        match curr { Some(c) => floor@ <= c@.len() <= 3 && (single@ ==> all_single(c@)), None => true },
    ensures
        match r { Some(c) => floor@ <= c@.len() <= 3 && (single@ ==> all_single(c@)), None => false },
        opt_view(r) == more_spec(opt_view(curr), found@, player as int),
{
    match curr {
        Some(c) => if count_holding(&c, player) < count_holding(&found, player) { Some(found) } else { Some(c) },
        None => Some(found),
    }
}

/// The ways a reveal can bear on the card of interest, scanning backward.
pub enum RevealShape {
    /// The card of interest was revealed and given to the pile.
    Relinquished,
    /// It was revealed and replaced blindly.
    RedrawnBlind,
    /// It was revealed and drawn again.
    RedrawnSame,
    /// It was revealed and another card drawn.
    RedrawnOther,
    /// It was revealed and another card given to the pile.
    RelinquishedOther,
    /// Another card was revealed and the card of interest drawn.
    DrawnHere,
    /// Another card was revealed and the draw is unknown.
    DrawUnknown,
    /// Nothing about the card of interest.
    Unrelated,
}

/// How a reveal of `reveal` (replaced by `redraw`, or giving `relinquish` to the pile) bears
/// on `card`.
pub open spec fn reveal_shape_of(reveal: Card, redraw: Option<Card>, relinquish: Option<Card>, card: Card) -> RevealShape {
    if reveal == card {
        match relinquish {
            Some(x) => if x == card { RevealShape::Relinquished } else { RevealShape::RelinquishedOther },
            None => match redraw {
                None => RevealShape::RedrawnBlind,
                Some(d) => if d == card { RevealShape::RedrawnSame } else { RevealShape::RedrawnOther },
            },
        }
    } else {
        match redraw {
            Some(d) => if d == card { RevealShape::DrawnHere } else { RevealShape::Unrelated },
            None => RevealShape::DrawUnknown,
        }
    }
}

/// How a reveal of `reveal` (replaced by `redraw`, or giving `relinquish` to the pile) bears
/// on `card` (`reveal_shape_of`).
pub fn reveal_shape(reveal: Card, redraw: Option<Card>, relinquish: Option<Card>, card: Card) -> (r: RevealShape)
    ensures
        r == reveal_shape_of(reveal, redraw, relinquish, card),
{
    if reveal == card {
        match relinquish {
            Some(x) => if x == card { RevealShape::Relinquished } else { RevealShape::RelinquishedOther },
            None => match redraw {
                None => RevealShape::RedrawnBlind,
                Some(d) => if d == card { RevealShape::RedrawnSame } else { RevealShape::RedrawnOther },
            },
        }
    } else {
        match redraw {
            Some(d) => if d == card { RevealShape::DrawnHere } else { RevealShape::Unrelated },
            None => RevealShape::DrawUnknown,
        }
    }
}

/// How many groups of `s` have `j` as their first participant.
pub open spec fn first_held_count(s: Seq<CompressedGroupConstraint>, j: int) -> int
    decreases s.len(),
{
    if s.len() == 0 {
        0
    } else {
        first_held_count(s.drop_last(), j)
            + if s.last().pflag(j) && forall|i: int| 0 <= i < j ==> !s.last().pflag(i) { 1int } else { 0int }
    }
}

/// The copies of `card` that row `q` is known to account for: dead and held ones, and for
/// the player `poi` one more when it is not known to hold one.
pub open spec fn required_at(public: Seq<Seq<Card>>, inferred: Seq<Seq<Card>>, poi: int, card: Card, q: int) -> int {
    count_card(public[q], card) + count_card(inferred[q], card)
        + if q == poi && !inferred[poi].contains(card) { 1int } else { 0int }
}

/// The groups' copies beyond what rows `0..n` account for.
pub open spec fn freedom_upto(public: Seq<Seq<Card>>, inferred: Seq<Seq<Card>>, poi: int, card: Card,
    groups: Seq<CompressedGroupConstraint>, n: int) -> int
    decreases n,
{
    if n <= 0 {
        0
    } else {
        let sh = first_held_count(groups, n - 1);
        let rq = required_at(public, inferred, poi, card, n - 1);
        freedom_upto(public, inferred, poi, card, groups, n - 1) + if sh > rq { sh - rq } else { 0int }
    }
}

/// The copies of `card` known dead or held (one more for `poi` when not known to hold one),
/// plus the groups' copies beyond what each row accounts for, are at most three.
pub open spec fn groups_fit(public: Seq<Seq<Card>>, inferred: Seq<Seq<Card>>, poi: int, card: Card,
    groups: Seq<CompressedGroupConstraint>) -> bool
{
    let extra: int = if inferred[poi].contains(card) { 0 } else { 1 };
    freedom_upto(public, inferred, poi, card, groups, 7) + extra + table_count(public, card) + table_count(inferred, card) <= 3
}

/// How many moves after entry `lo` up to entry `hi` of `h` discard `card`.
pub open spec fn discards_between(h: Seq<super::SignificantAction>, lo: int, hi: int, card: Card) -> nat
    decreases hi - lo,
{
    if hi <= lo {
        0
    } else {
        discards_between(h, lo, hi - 1, card) + if h[hi].info_spec() == (ActionInfo::Discard { discard: card }) { 1nat } else { 0nat }
    }
}

/// `g` is the group of `p` alone holding one copy: no other participant, no single-card
/// flag, the first card, no living or dead copy counted.
pub open spec fn is_lone(g: CompressedGroupConstraint, p: int) -> bool {
    &&& holder_is(g, p)
    &&& forall|i: int| 0 <= i < 7 ==> !#[trigger] g.sflag(i)
    &&& g.card_spec() == Card::Ambassador
    &&& g.alive_spec() == 0
    &&& g.dead_spec() == 0
    &&& g.total_spec() == 1
}

/// The group of `p` alone holding one copy (`is_lone`).
pub open spec fn lone_spec(p: int) -> CompressedGroupConstraint {
    choose|g: CompressedGroupConstraint| is_lone(g, p)
}

/// `h` is `g` with participant `off` taken out and then `on` put in.
pub open spec fn relabel_of(h: CompressedGroupConstraint, g: CompressedGroupConstraint, off: int, on: int) -> bool {
    &&& forall|i: int| 0 <= i < 7 ==> #[trigger] h.pflag(i) == if i == on { true } else if i == off { false } else { g.pflag(i) }
    &&& forall|i: int| 0 <= i < 7 ==> #[trigger] h.sflag(i) == g.sflag(i)
    &&& h.card_spec() == g.card_spec()
    &&& h.alive_spec() == g.alive_spec()
    &&& h.dead_spec() == g.dead_spec()
    &&& h.total_spec() == g.total_spec()
}

/// `g` with participant `off` taken out and then `on` put in (`relabel_of`).
pub open spec fn relabeled(g: CompressedGroupConstraint, off: int, on: int) -> CompressedGroupConstraint {
    choose|h: CompressedGroupConstraint| relabel_of(h, g, off, on)
}

/// An optional list of groups as a sequence.
pub open spec fn opt_view(o: Option<Vec<CompressedGroupConstraint>>) -> Option<Seq<CompressedGroupConstraint>> {
    match o {
        Some(v) => Some(v@),
        None => None,
    }
}

/// The better of the choice so far and `found`: the one with more groups holding `player`,
/// the earlier when equal.
pub open spec fn more_spec(curr: Option<Seq<CompressedGroupConstraint>>, found: Seq<CompressedGroupConstraint>, player: int)
    -> Option<Seq<CompressedGroupConstraint>>
{
    match curr {
        Some(c) => if holding_count(c, player) < holding_count(found, player) { Some(found) } else { Some(c) },
        None => Some(found),
    }
}

/// The choice so far, improved by `found` when there is one.
pub open spec fn take_found(best: Option<Seq<CompressedGroupConstraint>>, found: Option<Seq<CompressedGroupConstraint>>,
    player: int) -> Option<Seq<CompressedGroupConstraint>>
{
    match found {
        Some(f) => more_spec(best, f, player),
        None => best,
    }
}

/// Some group of `groups` holds `p`.
pub open spec fn some_holds(groups: Seq<CompressedGroupConstraint>, p: int) -> bool {
    exists|k: int| 0 <= k < groups.len() && (#[trigger] groups[k]).pflag(p)
}

/// What `backward_max_player_cards_recurse` returns: scanning the moves of `h` from `il` back
/// to just before `ioi` with the single-copy groups `groups`, the choice of groups that gives
/// the moves' players the most copies, or `None` when none fits.
pub open spec fn max_groups(h: Seq<super::SignificantAction>, il: int, ioi: int, card: Card,
    groups: Seq<CompressedGroupConstraint>) -> Option<Seq<CompressedGroupConstraint>>
    decreases il + 1 - ioi, 1int, 0int,
{
    if groups.len() > 3 {
        None
    } else if il + 1 <= ioi {
        if il + 1 == ioi && groups_fit(h[il].meta_spec().public_view(), h[il].meta_spec().inferred_view(),
            h[ioi].player_spec() as int, card, groups) {
            Some(groups)
        } else {
            None
        }
    } else {
        let q = h[il].player_spec() as int;
        match h[il].info_spec() {
            ActionInfo::Discard { discard } => if discard == card {
                max_groups(h, il - 1, ioi, card, groups.push(lone_spec(q)))
            } else {
                max_groups(h, il - 1, ioi, card, groups)
            },
            ActionInfo::RevealRedraw { reveal, redraw, relinquish } => {
                if reveal_shape_of(reveal, redraw, relinquish, card) is RedrawnSame {
                    if groups.len() == 0 {
                        None
                    } else if groups[0].pflag(6) {
                        max_groups(h, il - 1, ioi, card, groups.update(0, relabeled(groups[0], 6, q)))
                    } else {
                        max_groups(h, il - 1, ioi, card, groups.push(lone_spec(q)))
                    }
                } else {
                    max_fold(h, il, ioi, card, groups, groups.len() as int)
                }
            },
            _ => max_groups(h, il - 1, ioi, card, groups),
        }
    }
}

/// The choice after the first `n` groups of `groups` were tried at the reveal at `il`.
pub open spec fn max_fold(h: Seq<super::SignificantAction>, il: int, ioi: int, card: Card,
    groups: Seq<CompressedGroupConstraint>, n: int) -> Option<Seq<CompressedGroupConstraint>>
    decreases il + 1 - ioi, 0int, n,
{
    if n <= 0 || il < ioi {
        None
    } else {
        let best = max_fold(h, il, ioi, card, groups, n - 1);
        let ig = n - 1;
        let g = groups[ig];
        let q = h[il].player_spec() as int;
        let next = il - 1;
        match h[il].info_spec() {
            ActionInfo::RevealRedraw { reveal, redraw, relinquish } => {
                let shape = reveal_shape_of(reveal, redraw, relinquish, card);
                if shape is Relinquished {
                    let rec = if g.pflag(6) { groups.update(ig, relabeled(g, 6, q)) }
                        else if g.pflag(q) { groups.push(lone_spec(q)) } else { groups };
                    take_found(best, max_groups(h, next, ioi, card, rec), q)
                } else if shape is RedrawnBlind {
                    let rec = if g.pflag(q) { groups.push(lone_spec(q)) } else { groups };
                    let b1 = take_found(best, max_groups(h, next, ioi, card, rec), q);
                    if some_holds(groups, 6) && g.pflag(6) {
                        take_found(b1, max_groups(h, next, ioi, card, groups.update(ig, relabeled(g, 6, q))), q)
                    } else {
                        b1
                    }
                } else if shape is RedrawnOther {
                    if !some_holds(groups, 6) {
                        take_found(best, max_groups(h, next, ioi, card, groups.push(lone_spec(q))), q)
                    } else if g.pflag(6) {
                        take_found(best, max_groups(h, next, ioi, card, groups.update(ig, relabeled(g, 6, q))), q)
                    } else {
                        best
                    }
                } else if shape is DrawnHere {
                    if !some_holds(groups, q) {
                        take_found(best, max_groups(h, next, ioi, card, groups.push(lone_spec(6))), q)
                    } else if g.pflag(q) {
                        take_found(best, max_groups(h, next, ioi, card, groups.update(ig, relabeled(g, q, 6))), q)
                    } else {
                        best
                    }
                } else if shape is DrawUnknown {
                    let b1 = max_groups(h, next, ioi, card, groups);
                    if g.pflag(q) {
                        take_found(b1, max_groups(h, next, ioi, card, groups.update(ig, relabeled(g, q, 6))), q)
                    } else {
                        b1
                    }
                } else if shape is Unrelated {
                    max_groups(h, next, ioi, card, groups)
                } else {
                    best
                }
            },
            _ => best,
        }
    }
}

/// The shorter of the choice so far and `found`, the earlier when equal.
pub open spec fn shorter_spec(curr: Option<Seq<CompressedGroupConstraint>>, found: Seq<CompressedGroupConstraint>)
    -> Option<Seq<CompressedGroupConstraint>>
{
    match curr {
        Some(c) => if found.len() < c.len() { Some(found) } else { Some(c) },
        None => Some(found),
    }
}

/// What `backward_pass_minimum_cards_shown_recurse` returns: scanning the moves of `h` from
/// `il` back to `ioi` with the single-copy groups `groups`, the smallest set of groups
/// consistent with them.
pub open spec fn min_groups(h: Seq<super::SignificantAction>, il: int, ioi: int, card: Card,
    groups: Seq<CompressedGroupConstraint>) -> Seq<CompressedGroupConstraint>
    decreases il - ioi, 1int, 0int,
{
    if il <= ioi {
        groups
    } else {
        let q = h[il].player_spec() as int;
        match h[il].info_spec() {
            ActionInfo::Discard { discard } => if discard == card {
                min_groups(h, il - 1, ioi, card, groups.push(lone_spec(q)))
            } else {
                min_groups(h, il - 1, ioi, card, groups)
            },
            ActionInfo::RevealRedraw { reveal, redraw, relinquish } => {
                let shape = reveal_shape_of(reveal, redraw, relinquish, card);
                if shape is RedrawnSame {
                    min_groups(h, il - 1, ioi, card, groups.push(lone_spec(q)))
                } else if shape is RelinquishedOther {
                    min_groups(h, il - 1, ioi, card, groups)
                } else {
                    match min_fold(h, il, ioi, card, groups, groups.len() as int) {
                        Some(b) => b,
                        None => min_groups(h, il - 1, ioi, card, groups),
                    }
                }
            },
            _ => min_groups(h, il - 1, ioi, card, groups),
        }
    }
}

/// The choice after the first `n` groups of `groups` were tried at the reveal at `il`.
pub open spec fn min_fold(h: Seq<super::SignificantAction>, il: int, ioi: int, card: Card,
    groups: Seq<CompressedGroupConstraint>, n: int) -> Option<Seq<CompressedGroupConstraint>>
    decreases il - ioi, 0int, n,
{
    if n <= 0 || il <= ioi {
        None
    } else {
        let best = min_fold(h, il, ioi, card, groups, n - 1);
        let ig = n - 1;
        let g = groups[ig];
        let q = h[il].player_spec() as int;
        let next = il - 1;
        match h[il].info_spec() {
            ActionInfo::RevealRedraw { reveal, redraw, relinquish } => {
                let shape = reveal_shape_of(reveal, redraw, relinquish, card);
                if shape is Relinquished || shape is RedrawnBlind || shape is RedrawnOther {
                    if !some_holds(groups, 6) {
                        shorter_spec(best, min_groups(h, next, ioi, card, groups.push(lone_spec(q))))
                    } else if g.pflag(6) {
                        shorter_spec(best, min_groups(h, next, ioi, card, groups.update(ig, relabeled(g, 6, q))))
                    } else {
                        best
                    }
                } else if shape is DrawnHere {
                    if !some_holds(groups, q) {
                        shorter_spec(best, min_groups(h, next, ioi, card, groups.push(lone_spec(6))))
                    } else if g.pflag(q) {
                        shorter_spec(best, min_groups(h, next, ioi, card, groups.update(ig, relabeled(g, q, 6))))
                    } else {
                        best
                    }
                } else {
                    Some(min_groups(h, next, ioi, card, groups))
                }
            },
            _ => best,
        }
    }
}

impl PathDependentCollectiveConstraint {
    /// The participant of the move at `i`, a player.
    pub(crate) fn move_player(&self, i: usize) -> (r: usize)
        requires
            self.wf(),
            2 <= i < self.history_view().len(),
        ensures
            r < 6,
            r == self.history_view()[i as int].player_spec(),
    {
        self.history[i].player() as usize
    }

    /// Whether `groups`, placed just before the move at `index_of_interest` (whose player
    /// then holds `card`), fit the copies of `card` known at `index` (`groups_fit`): the
    /// copies known dead or held, plus the groups' copies beyond what each participant is
    /// known to have, are at most three.
    #[verifier::rlimit(50)]
    fn fits_before(&self, index: usize, index_of_interest: usize, card: Card, groups: &Vec<CompressedGroupConstraint>) -> (r: bool)
        requires
            self.wf(),
            index < self.history_view().len(),
            index_of_interest < self.history_view().len(),
            self.history_view()[index_of_interest as int].player_spec() < 7,
            groups@.len() <= 3,
        ensures
            r == groups_fit(self.history_view()[index as int].meta_spec().public_view(),
                self.history_view()[index as int].meta_spec().inferred_view(),
                self.history_view()[index_of_interest as int].player_spec() as int, card, groups@),
    {
        let poi = self.history[index_of_interest].player() as usize;
        proof { assert(self.history@[index as int].meta_spec().wf()); }
        let public = self.history[index].public_constraints();
        let inferred = self.history[index].inferred_constraints();
        let ghost pv = rows(public@);
        let ghost iv = rows(inferred@);
        proof { lemma_rows(inferred@, poi as int); }
        let extra: u8 = if contains_card(&inferred[poi], card) { 0 } else { 1 };
        let mut known: u8 = extra;
        let mut required: [u8; 7] = [0; 7];
        let mut p: usize = 0;
        while p < 7
            invariant
                p <= 7,
                poi < 7,
                extra <= 1,
                extra == (if iv[poi as int].contains(card) { 0int } else { 1int }),
                known <= 1 + 5 * p,
                pv == rows(public@),
                iv == rows(inferred@),
                rows(public@).len() == 7,
                rows(inferred@).len() == 7,
                table_ok(rows(public@), 2),
                table_ok(rows(inferred@), 3),
                known == extra + table_count(pv.take(p as int), card) + table_count(iv.take(p as int), card),
                forall|q: int| 0 <= q < p ==> #[trigger] required@[q] == required_at(pv, iv, poi as int, card, q),
            decreases 7 - p,
        {
            proof {
                lemma_rows(public@, p as int);
                lemma_rows(inferred@, p as int);
                crate::card::lemma_count_card_le_len(public@[p as int]@, card);
                crate::card::lemma_count_card_le_len(inferred@[p as int]@, card);
                assert(pv.take(p as int + 1).drop_last() =~= pv.take(p as int));
                assert(iv.take(p as int + 1).drop_last() =~= iv.take(p as int));
            }
            let d = count_in(&public[p], card);
            let a = count_in(&inferred[p], card);
            let own: u8 = if p == poi { extra } else { 0 };
            let ghost r0 = required;
            required[p] = d + a + own;
            known = known + d + a;
            proof {
                assert forall|q: int| 0 <= q < p + 1 implies #[trigger] required@[q] == required_at(pv, iv, poi as int, card, q) by {
                    if q < p { assert(required@[q] == r0@[q]); }
                }
            }
            p += 1;
        }
        proof {
            assert(pv.take(7) =~= pv);
            assert(iv.take(7) =~= iv);
        }
        let mut shown: [u8; 7] = [0; 7];
        let mut k: usize = 0;
        while k < groups.len()
            invariant
                k <= groups@.len(),
                groups@.len() <= 3,
                forall|j: int| 0 <= j < 7 ==> #[trigger] shown@[j] <= k,
                forall|j: int| 0 <= j < 7 ==> #[trigger] shown@[j] == first_held_count(groups@.take(k as int), j),
            decreases groups@.len() - k,
        {
            proof { assert(groups@.take(k as int + 1).drop_last() =~= groups@.take(k as int)); }
            match first_flag(&groups[k]) {
                Some(q) => { shown[q] = shown[q] + 1; },
                None => {},
            }
            k += 1;
        }
        proof { assert(groups@.take(k as int) =~= groups@); }
        let mut freedom: u8 = 0;
        let mut q: usize = 0;
        while q < 7
            invariant
                q <= 7,
                freedom <= 3 * q,
                forall|j: int| 0 <= j < 7 ==> #[trigger] shown@[j] <= 3,
                forall|j: int| 0 <= j < 7 ==> #[trigger] shown@[j] == first_held_count(groups@, j),
                forall|j: int| 0 <= j < 7 ==> #[trigger] required@[j] == required_at(pv, iv, poi as int, card, j),
                freedom == freedom_upto(pv, iv, poi as int, card, groups@, q as int),
            decreases 7 - q,
        {
            if shown[q] > required[q] {
                freedom = freedom + (shown[q] - required[q]);
            }
            q += 1;
        }
        freedom + known <= 3
    }

    /// How many single-copy groups of `card_of_interest` can be with the player of the move at
    /// `index` when the moves after it are traced back (`backward_max_player_cards_recurse`),
    /// starting from the last move's player; zero when no tracing fits.
    pub fn backward_max_player_cards(&self, index: usize, card_of_interest: Card) -> (r: u8)
        requires
            self.wf(),
            2 <= index < self.history_view().len(),
        ensures
            r <= 3,
            r == match max_groups(self.history_view(), self.history_view().len() - 2, index as int, card_of_interest,
                seq![lone_spec(self.history_view().last().player_spec() as int)]) {
                Some(v) => holding_count(v, self.history_view()[index as int].player_spec() as int),
                None => 0,
            },
    {
        let last = self.history.len() - 1;
        let mut groups: Vec<CompressedGroupConstraint> = Vec::new();
        groups.push(lone_group(self.move_player(last)));
        proof { assert(groups@ =~= seq![lone_spec(self.history_view().last().player_spec() as int)]); }
        let player = self.move_player(index);
        match self.backward_max_player_cards_recurse(self.history.len() - 2, index, card_of_interest, groups) {
            Some(found) => count_holding(&found, player) as u8,
            None => 0,
        }
    }

    /// Scanning the moves from `index_loop` back to just before `index_of_interest`, the set
    /// of at most three single-copy groups consistent with them that gives the moves' players
    /// the most copies (`None` when no choice fits, see `fits_before`). A discard of the card
    /// adds its player; a reveal of it moves a pile copy to the revealer or adds one; a draw of
    /// it moves a copy from the drawer to the pile or adds a pile copy; a blind draw may move a
    /// copy to the pile.
    pub fn backward_max_player_cards_recurse(&self, index_loop: usize, index_of_interest: usize,
        card_of_interest: Card, backward_pass_groups: Vec<CompressedGroupConstraint>) -> (r: Option<Vec<CompressedGroupConstraint>>)
        requires
            self.wf(),
            1 <= index_of_interest <= index_loop + 1,
            index_loop < self.history_view().len(),
            index_of_interest < self.history_view().len(),
            self.history_view()[index_of_interest as int].player_spec() < 7,
        ensures
            backward_pass_groups@.len() > 3 ==> r is None,
            match r {
                Some(v) => v@.len() <= 3 && (all_single(backward_pass_groups@) ==> all_single(v@)) && v@.len() >= backward_pass_groups@.len()
                    + discards_between(self.history_view(), index_of_interest - 1, index_loop as int, card_of_interest),
                None => true,
            },
            index_loop + 1 == index_of_interest ==> {
                let fits = backward_pass_groups@.len() <= 3 && groups_fit(
                    self.history_view()[index_loop as int].meta_spec().public_view(),
                    self.history_view()[index_loop as int].meta_spec().inferred_view(),
                    self.history_view()[index_of_interest as int].player_spec() as int, card_of_interest, backward_pass_groups@);
                &&& r is Some == fits
                &&& r is Some ==> r.unwrap()@ == backward_pass_groups@
            },
            opt_view(r) == max_groups(self.history_view(), index_loop as int, index_of_interest as int, card_of_interest,
                backward_pass_groups@),
        decreases index_loop + 1 - index_of_interest,
    {
        let groups = backward_pass_groups;
        let ghost single = all_single(groups@);
        let ghost h = self.history_view();
        if groups.len() > 3 {
            return None;
        }
        if index_loop == index_of_interest - 1 {
            if self.fits_before(index_loop, index_of_interest, card_of_interest, &groups) {
                return Some(groups);
            }
            return None;
        }
        let next = index_loop - 1;
        match self.history[index_loop].action_info() {
            ActionInfo::Discard { discard } => {
                let player_i = self.move_player(index_loop);
                if *discard == card_of_interest {
                    let g2 = with_lone(&groups, player_i);
                    return self.backward_max_player_cards_recurse(next, index_of_interest, card_of_interest, g2);
                }
            },
            ActionInfo::RevealRedraw { reveal, redraw, relinquish } => {
                let player_i = self.move_player(index_loop);
                let shape = reveal_shape(*reveal, *redraw, *relinquish, card_of_interest);
                let pile_any = any_holds(&groups, 6);
                let player_any = any_holds(&groups, player_i);
                let ghost floor = groups@.len()
                    + discards_between(self.history_view(), index_of_interest - 1, next as int, card_of_interest);
                if let RevealShape::RedrawnSame = shape {
                    if groups.len() == 0 {
                        return None;
                    }
                    let rec = if groups[0].get_player_flag(6) { relabel(&groups, 0, 6, player_i) } else { with_lone(&groups, player_i) };
                    return self.backward_max_player_cards_recurse(next, index_of_interest, card_of_interest, rec);
                }
                let mut best: Option<Vec<CompressedGroupConstraint>> = None;
                let mut ig: usize = 0;
                while ig < groups.len()
                    invariant
                        self.wf(),
                        1 <= index_of_interest <= next + 1,
                        next + 1 == index_loop,
                        next < self.history_view().len(),
                        index_of_interest < self.history_view().len(),
                        self.history_view()[index_of_interest as int].player_spec() < 7,
                        player_i < 6,
                        ig <= groups@.len(),
                        groups@.len() <= 3,
                        floor == groups@.len()
                            + discards_between(self.history_view(), index_of_interest - 1, next as int, card_of_interest),
                        single == all_single(groups@),
                        match best { Some(c) => floor <= c@.len() <= 3 && (single ==> all_single(c@)), None => true },
                        h == self.history_view(),
                        index_of_interest <= index_loop,
                        h[index_loop as int].info_spec() == (ActionInfo::RevealRedraw { reveal: *reveal, redraw: *redraw, relinquish: *relinquish }),
                        player_i == h[index_loop as int].player_spec(),
                        shape == reveal_shape_of(*reveal, *redraw, *relinquish, card_of_interest),
                        pile_any == some_holds(groups@, 6),
                        player_any == some_holds(groups@, player_i as int),
                        opt_view(best) == max_fold(h, index_loop as int, index_of_interest as int, card_of_interest, groups@, ig as int),
                    decreases groups@.len() - ig,
                {
                    let g = groups[ig];
                    match shape {
                        RevealShape::Relinquished => {
                            let rec = if g.get_player_flag(6) {
                                relabel(&groups, ig, 6, player_i)
                            } else if g.get_player_flag(player_i) {
                                with_lone(&groups, player_i)
                            } else {
                                copy_groups(&groups)
                            };
                            if let Some(found) = self.backward_max_player_cards_recurse(next, index_of_interest, card_of_interest, rec) {
                                best = more_holding(best, found, player_i, Ghost(floor), Ghost(single));
                            }
                        },
                        RevealShape::RedrawnBlind => {
                            let rec = if g.get_player_flag(player_i) { with_lone(&groups, player_i) } else { copy_groups(&groups) };
                            if let Some(found) = self.backward_max_player_cards_recurse(next, index_of_interest, card_of_interest, rec) {
                                best = more_holding(best, found, player_i, Ghost(floor), Ghost(single));
                            }
                            if pile_any && g.get_player_flag(6) {
                                if let Some(found) = self.backward_max_player_cards_recurse(next, index_of_interest,
                                    card_of_interest, relabel(&groups, ig, 6, player_i)) {
                                    best = more_holding(best, found, player_i, Ghost(floor), Ghost(single));
                                }
                            }
                        },
                        RevealShape::RedrawnOther => {
                            if !pile_any {
                                if let Some(found) = self.backward_max_player_cards_recurse(next, index_of_interest,
                                    card_of_interest, with_lone(&groups, player_i)) {
                                    best = more_holding(best, found, player_i, Ghost(floor), Ghost(single));
                                }
                            } else if g.get_player_flag(6) {
                                if let Some(found) = self.backward_max_player_cards_recurse(next, index_of_interest,
                                    card_of_interest, relabel(&groups, ig, 6, player_i)) {
                                    best = more_holding(best, found, player_i, Ghost(floor), Ghost(single));
                                }
                            }
                        },
                        RevealShape::DrawnHere => {
                            if !player_any {
                                if let Some(found) = self.backward_max_player_cards_recurse(next, index_of_interest,
                                    card_of_interest, with_lone(&groups, 6)) {
                                    best = more_holding(best, found, player_i, Ghost(floor), Ghost(single));
                                }
                            } else if g.get_player_flag(player_i) {
                                if let Some(found) = self.backward_max_player_cards_recurse(next, index_of_interest,
                                    card_of_interest, relabel(&groups, ig, player_i, 6)) {
                                    best = more_holding(best, found, player_i, Ghost(floor), Ghost(single));
                                }
                            }
                        },
                        RevealShape::DrawUnknown => {
                            best = self.backward_max_player_cards_recurse(next, index_of_interest, card_of_interest, copy_groups(&groups));
                            if g.get_player_flag(player_i) {
                                if let Some(found) = self.backward_max_player_cards_recurse(next, index_of_interest,
                                    card_of_interest, relabel(&groups, ig, player_i, 6)) {
                                    best = more_holding(best, found, player_i, Ghost(floor), Ghost(single));
                                }
                            }
                        },
                        RevealShape::Unrelated => {
                            best = self.backward_max_player_cards_recurse(next, index_of_interest, card_of_interest, copy_groups(&groups));
                        },
                        _ => {},
                    }
                    ig += 1;
                }
                return best;
            },
            _ => {},
        }
        self.backward_max_player_cards_recurse(next, index_of_interest, card_of_interest, groups)
    }

    /// The fewest single-copy groups that the moves after `index` force to be shown, for
    /// `card_of_interest`, starting from the last move's player.
    pub fn backward_pass_minimum_cards_shown(&self, index: usize, card_of_interest: Card) -> (r: Vec<CompressedGroupConstraint>)
        requires
            self.wf(),
            2 <= index < self.history_view().len() - 1,
        ensures
            r@.len() >= 1,
            r@.len() >= 1 + discards_between(self.history_view(), index as int, self.history_view().len() - 2, card_of_interest),
            r@.len() <= self.history_view().len() - 1 - index,
            all_single(r@),
            unit_groups(r@),
            r@ == min_groups(self.history_view(), self.history_view().len() - 2, index as int, card_of_interest,
                seq![lone_spec(self.history_view().last().player_spec() as int)]),
    {
        let last = self.history.len() - 1;
        let first = lone_group(self.move_player(last));
        let mut groups: Vec<CompressedGroupConstraint> = Vec::new();
        groups.push(first);
        proof {
            assert(groups@[0] == first);
            assert(groups@ =~= seq![lone_spec(self.history_view().last().player_spec() as int)]);
            assert(all_single(groups@));
            assert(unit_groups(groups@));
        }
        self.backward_pass_minimum_cards_shown_recurse(self.history.len() - 2, index, card_of_interest, groups)
    }

    /// Scanning the moves from `index_loop` back to `index_of_interest`, the smallest set of
    /// single-copy groups consistent with them: a discard of the card adds its player; a
    /// reveal of it either moves a pile copy to the revealer or adds the revealer (the fewest
    /// over the choices); a draw of it moves a copy from the drawer to the pile or adds a pile
    /// copy. A reveal of the card that gives another card to the pile says nothing.
    pub fn backward_pass_minimum_cards_shown_recurse(&self, index_loop: usize, index_of_interest: usize,
        card_of_interest: Card, backward_pass_groups: Vec<CompressedGroupConstraint>) -> (r: Vec<CompressedGroupConstraint>)
        requires
            self.wf(),
            index_of_interest <= index_loop < self.history_view().len(),
            backward_pass_groups@.len() >= 1,
        ensures
            index_loop == index_of_interest ==> r@ == backward_pass_groups@,
            r@.len() >= backward_pass_groups@.len(),
            r@.len() >= backward_pass_groups@.len()
                + discards_between(self.history_view(), index_of_interest as int, index_loop as int, card_of_interest),
            r@.len() <= backward_pass_groups@.len() + (index_loop - index_of_interest),
            all_single(backward_pass_groups@) ==> all_single(r@),
            unit_groups(backward_pass_groups@) ==> unit_groups(r@),
            r@ == min_groups(self.history_view(), index_loop as int, index_of_interest as int, card_of_interest,
                backward_pass_groups@),
        decreases index_loop - index_of_interest,
    {
        let ghost h = self.history_view();
        if index_loop == index_of_interest {
            return backward_pass_groups;
        }
        let groups = backward_pass_groups;
        let ghost single = all_single(groups@);
        let ghost unit = unit_groups(groups@);
        let ghost cap = groups@.len() + (index_loop - index_of_interest);
        let next = index_loop - 1;
        let ghost floor = groups@.len()
            + discards_between(self.history_view(), index_of_interest as int, next as int, card_of_interest);
        match self.history[index_loop].action_info() {
            ActionInfo::Discard { discard } => {
                let player_i = self.move_player(index_loop);
                if *discard == card_of_interest {
                    let g2 = with_lone(&groups, player_i);
                    return self.backward_pass_minimum_cards_shown_recurse(next, index_of_interest, card_of_interest, g2);
                }
            },
            ActionInfo::RevealRedraw { reveal, redraw, relinquish } => {
                let player_i = self.move_player(index_loop);
                let shape = reveal_shape(*reveal, *redraw, *relinquish, card_of_interest);
                match shape {
                    RevealShape::RedrawnSame => {
                        let g2 = with_lone(&groups, player_i);
                        return self.backward_pass_minimum_cards_shown_recurse(next, index_of_interest, card_of_interest, g2);
                    },
                    RevealShape::RelinquishedOther => {},
                    _ => {
                        let mut best: Option<Vec<CompressedGroupConstraint>> = None;
                        let pile_any = any_holds(&groups, 6);
                        let player_any = any_holds(&groups, player_i);
                        let mut ig: usize = 0;
                        while ig < groups.len()
                            invariant
                                self.wf(),
                                index_of_interest <= next,
                                next + 1 == index_loop,
                                next < self.history_view().len(),
                                player_i < 6,
                                ig <= groups@.len(),
                                floor == groups@.len()
                                    + discards_between(self.history_view(), index_of_interest as int, next as int, card_of_interest),
                                groups@.len() >= 1,
                                single == all_single(groups@),
                                unit == unit_groups(groups@),
                                cap == groups@.len() + (index_loop - index_of_interest),
                                match best { Some(c) => c@.len() >= floor && c@.len() <= cap && (single ==> all_single(c@))
                                    && (unit ==> unit_groups(c@)), None => true },
                                h == self.history_view(),
                                index_of_interest < index_loop,
                                h[index_loop as int].info_spec() == (ActionInfo::RevealRedraw { reveal: *reveal, redraw: *redraw, relinquish: *relinquish }),
                                player_i == h[index_loop as int].player_spec(),
                                shape == reveal_shape_of(*reveal, *redraw, *relinquish, card_of_interest),
                                pile_any == some_holds(groups@, 6),
                                player_any == some_holds(groups@, player_i as int),
                                opt_view(best) == min_fold(h, index_loop as int, index_of_interest as int, card_of_interest, groups@, ig as int),
                                ig > 0 && (shape is Unrelated || shape is DrawUnknown) ==> best is Some,
                            decreases groups@.len() - ig,
                        {
                            let g = groups[ig];
                            match shape {
                                RevealShape::Relinquished | RevealShape::RedrawnBlind | RevealShape::RedrawnOther => {
                                    if !pile_any {
                                        let found = self.backward_pass_minimum_cards_shown_recurse(next, index_of_interest,
                                            card_of_interest, with_lone(&groups, player_i));
                                        best = shorter(best, found);
                                    } else if g.get_player_flag(6) {
                                        let found = self.backward_pass_minimum_cards_shown_recurse(next, index_of_interest,
                                            card_of_interest, relabel(&groups, ig, 6, player_i));
                                        best = shorter(best, found);
                                    }
                                },
                                RevealShape::DrawnHere => {
                                    if !player_any {
                                        let found = self.backward_pass_minimum_cards_shown_recurse(next, index_of_interest,
                                            card_of_interest, with_lone(&groups, 6));
                                        best = shorter(best, found);
                                    } else if g.get_player_flag(player_i) {
                                        let found = self.backward_pass_minimum_cards_shown_recurse(next, index_of_interest,
                                            card_of_interest, relabel(&groups, ig, player_i, 6));
                                        best = shorter(best, found);
                                    }
                                },
                                _ => {
                                    let found = self.backward_pass_minimum_cards_shown_recurse(next, index_of_interest,
                                        card_of_interest, copy_groups(&groups));
                                    best = Some(found);
                                },
                            }
                            ig += 1;
                        }
                        match best {
                            Some(b) => { return b; },
                            None => {},
                        }
                    },
                }
            },
            _ => {},
        }
        self.backward_pass_minimum_cards_shown_recurse(next, index_of_interest, card_of_interest, groups)
    }
}

} // verus!
