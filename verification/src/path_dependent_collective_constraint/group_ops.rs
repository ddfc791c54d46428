use vstd::prelude::*;
use crate::card::{Card, card_index, card_at, count_card};
use crate::group::{CompressedGroupConstraint, subset_flags};
use crate::card::{count_in};
use super::{PathDependentCollectiveConstraint, rows, group_rows, lemma_group_rows, table_ok, lemma_rows,
    lemma_only_list_changed};
use super::queries::card_counts;

verus! {

/// Every element of `after` was in `before` or is `g`.
pub open spec fn drawn_from(after: Seq<CompressedGroupConstraint>, before: Seq<CompressedGroupConstraint>,
    g: CompressedGroupConstraint) -> bool
{
    forall|k: int| 0 <= k < after.len() ==> #[trigger] after[k] == g || before.contains(after[k])
}

/// Every element of `after` was in `before`.
pub open spec fn sub_list(after: Seq<CompressedGroupConstraint>, before: Seq<CompressedGroupConstraint>) -> bool {
    forall|k: int| 0 <= k < after.len() ==> before.contains(#[trigger] after[k])
}

/// `v` with `i` removed by moving the last element into its place.
pub open spec fn swap_removed<T>(v: Seq<T>, i: int) -> Seq<T> {
    v.update(i, v.last()).drop_last()
}

/// Removing an element by moving the last into its place removes one occurrence of it.
proof fn lemma_swap_removed_multiset<T>(v: Seq<T>, i: int)
    requires 0 <= i < v.len(),
    ensures
        swap_removed(v, i).to_multiset() == v.to_multiset().remove(v[i]),
{
    let u = v.update(i, v.last());
    vstd::seq_lib::to_multiset_update(v, i, v.last());
    assert(u.drop_last() =~= u.remove(u.len() - 1));
    vstd::seq_lib::to_multiset_remove(u, u.len() - 1);
    assert(u[u.len() - 1] == v.last());
    assert(v.to_multiset().insert(v.last()).remove(v[i]).remove(v.last()) =~= v.to_multiset().remove(v[i]));
}

proof fn lemma_swap_removed_sub<T>(v: Seq<T>, i: int)
    requires 0 <= i < v.len(),
    ensures
        forall|k: int| 0 <= k < v.len() - 1 ==> v.contains(#[trigger] swap_removed(v, i)[k]),
        swap_removed(v, i).len() == v.len() - 1,
{
    assert forall|k: int| 0 <= k < v.len() - 1 implies v.contains(#[trigger] swap_removed(v, i)[k]) by {
        if k == i {
            assert(v[v.len() - 1] == swap_removed(v, i)[k]);
        } else {
            assert(v[k] == swap_removed(v, i)[k]);
        }
    }
}

/// `existing` makes `group` redundant: same single-card flags and dead count, fewer
/// participants and more living copies.
pub open spec fn covers(existing: CompressedGroupConstraint, group: CompressedGroupConstraint) -> bool {
    &&& forall|j: int| 0 <= j < 7 ==> #[trigger] existing.sflag(j) == group.sflag(j)
    &&& existing.dead_spec() == group.dead_spec()
    &&& subset_flags(existing.plist(), group.plist())
    &&& group.alive_spec() < existing.alive_spec()
}

/// `g` is in `list`, or a group of `list` makes it redundant (`covers`).
pub open spec fn present_or_covered(list: Seq<CompressedGroupConstraint>, g: CompressedGroupConstraint) -> bool {
    list.contains(g) || exists|k: int| 0 <= k < list.len() && #[trigger] covers(list[k], g)
}

/// Some group of `v` from position `i` on is `g` or makes it redundant.
pub open spec fn witness_from(v: Seq<CompressedGroupConstraint>, g: CompressedGroupConstraint, i: int) -> bool {
    exists|k: int| i <= k < v.len() && (#[trigger] v[k] == g || covers(v[k], g))
}

/// A group kept or made redundant stays so when another group is pushed without redundancy.
pub proof fn lemma_push_keeps_covered(before: Seq<CompressedGroupConstraint>, after: Seq<CompressedGroupConstraint>,
    g: CompressedGroupConstraint, g2: CompressedGroupConstraint)
    requires
        present_or_covered(before, g),
        present_or_covered(after, g2),
        forall|k: int| 0 <= k < before.len() && !after.contains(#[trigger] before[k]) ==> covers(g2, before[k]),
    ensures
        present_or_covered(after, g),
{
    let h = if before.contains(g) { g } else {
        let k = choose|k: int| 0 <= k < before.len() && #[trigger] covers(before[k], g);
        before[k]
    };
    assert(before.contains(h));
    let kh = choose|kh: int| 0 <= kh < before.len() && before[kh] == h;
    if after.contains(h) {
        if h != g {
            let m = choose|m: int| 0 <= m < after.len() && after[m] == h;
            assert(covers(after[m], g));
        }
    } else {
        assert(covers(g2, before[kh]));
        if after.contains(g2) {
            let m = choose|m: int| 0 <= m < after.len() && after[m] == g2;
            assert(covers(after[m], g)) by {
                lemma_covers_trans(g2, h, g);
            }
        } else {
            let m = choose|m: int| 0 <= m < after.len() && #[trigger] covers(after[m], g2);
            assert(covers(after[m], g)) by {
                lemma_covers_trans(g2, h, g);
                lemma_covers_trans(after[m], g2, g);
            }
        }
    }
}

/// Taking part of a list twice takes part of it.
pub proof fn lemma_sub_list_trans(a: Seq<CompressedGroupConstraint>, b: Seq<CompressedGroupConstraint>,
    c: Seq<CompressedGroupConstraint>)
    requires
        sub_list(a, b),
        sub_list(b, c),
    ensures
        sub_list(a, c),
{
    assert forall|k: int| 0 <= k < a.len() implies c.contains(#[trigger] a[k]) by {
        assert(b.contains(a[k]));
        let m = choose|m: int| 0 <= m < b.len() && b[m] == a[k];
        assert(c.contains(b[m]));
    }
}

/// A group kept or made redundant by part of a list is so by the whole list.
pub proof fn lemma_covered_in_whole(part: Seq<CompressedGroupConstraint>, whole: Seq<CompressedGroupConstraint>,
    g: CompressedGroupConstraint)
    requires
        sub_list(part, whole),
        present_or_covered(part, g),
    ensures
        present_or_covered(whole, g),
{
    if part.contains(g) {
        let m = choose|m: int| 0 <= m < part.len() && part[m] == g;
        assert(whole.contains(part[m]));
    } else {
        let m = choose|m: int| 0 <= m < part.len() && #[trigger] covers(part[m], g);
        assert(whole.contains(part[m]));
        let j = choose|j: int| 0 <= j < whole.len() && whole[j] == part[m];
        assert(covers(whole[j], g));
    }
}

/// A group that a list keeps or makes redundant, and that another list does not, has a
/// group of the first list that the other list neither holds nor makes redundant.
pub proof fn lemma_fresh_member(l: Seq<CompressedGroupConstraint>, g: Seq<CompressedGroupConstraint>, d: CompressedGroupConstraint)
    requires
        present_or_covered(l, d),
        !present_or_covered(g, d),
    ensures
        exists|k: int| 0 <= k < l.len() && !present_or_covered(g, #[trigger] l[k]),
{
    let m = if l.contains(d) {
        choose|m: int| 0 <= m < l.len() && l[m] == d
    } else {
        choose|m: int| 0 <= m < l.len() && #[trigger] covers(l[m], d)
    };
    if present_or_covered(g, l[m]) {
        if l[m] != d {
            assert(covers(l[m], d));
            if g.contains(l[m]) {
                let j = choose|j: int| 0 <= j < g.len() && g[j] == l[m];
                assert(covers(g[j], d));
            } else {
                let j = choose|j: int| 0 <= j < g.len() && #[trigger] covers(g[j], l[m]);
                lemma_covers_trans(g[j], l[m], d);
                assert(covers(g[j], d));
            }
        }
    }
    assert(!present_or_covered(g, l[m]));
}

/// A group kept or made redundant by a list all of whose groups another list keeps or makes
/// redundant is kept or made redundant by the other list.
pub proof fn lemma_covered_through(l1: Seq<CompressedGroupConstraint>, l2: Seq<CompressedGroupConstraint>, u: CompressedGroupConstraint)
    requires
        present_or_covered(l1, u),
        forall|k: int| 0 <= k < l1.len() ==> present_or_covered(l2, #[trigger] l1[k]),
    ensures
        present_or_covered(l2, u),
{
    let m = if l1.contains(u) {
        choose|m: int| 0 <= m < l1.len() && l1[m] == u
    } else {
        choose|m: int| 0 <= m < l1.len() && #[trigger] covers(l1[m], u)
    };
    assert(present_or_covered(l2, l1[m]));
    if l1[m] != u {
        if l2.contains(l1[m]) {
            let j = choose|j: int| 0 <= j < l2.len() && l2[j] == l1[m];
            assert(covers(l2[j], u));
        } else {
            let j = choose|j: int| 0 <= j < l2.len() && #[trigger] covers(l2[j], l1[m]);
            lemma_covers_trans(l2[j], l1[m], u);
            assert(covers(l2[j], u));
        }
    }
}

proof fn lemma_covers_trans(a: CompressedGroupConstraint, b: CompressedGroupConstraint, c: CompressedGroupConstraint)
    requires
        covers(a, b),
        covers(b, c) || b == c,
    ensures
        covers(a, c),
{
}

impl PathDependentCollectiveConstraint {
    /// Adds `group` unless an equal or a covering group is there; groups that `group`
    /// covers are removed first.
    pub fn non_redundant_push(vec: &mut Vec<CompressedGroupConstraint>, group: CompressedGroupConstraint)
        ensures
            drawn_from(final(vec)@, old(vec)@, group),
            (forall|k: int| 0 <= k < old(vec)@.len() ==> !covers(#[trigger] old(vec)@[k], group)) && !old(vec)@.contains(group)
                ==> final(vec)@.contains(group),
            present_or_covered(final(vec)@, group),
            forall|k: int| 0 <= k < old(vec)@.len() && !final(vec)@.contains(#[trigger] old(vec)@[k]) ==> covers(group, old(vec)@[k]),
    {
        Self::non_redundant_push_tracked(vec, group);
    }

    /// Adds `group` unless an equal group is there.
    pub fn non_duplicate_push(vec: &mut Vec<CompressedGroupConstraint>, group: CompressedGroupConstraint)
        ensures
            final(vec)@ == if old(vec)@.contains(group) { old(vec)@ } else { old(vec)@.push(group) },
    {
        let mut i: usize = 0;
        while i < vec.len()
            invariant
                i <= vec@.len(),
                vec@ == old(vec)@,
                forall|k: int| 0 <= k < i ==> vec@[k] != group,
            decreases vec@.len() - i,
        {
            if group == vec[i] {
                return;
            }
            i += 1;
        }
        vec.push(group);
    }

    /// As `non_redundant_push`; also says whether `group` was added and whether a
    /// covered group was removed.
    pub fn non_redundant_push_tracked(vec: &mut Vec<CompressedGroupConstraint>, group: CompressedGroupConstraint) -> (r: (bool, bool))
        ensures
            drawn_from(final(vec)@, old(vec)@, group),
            r.0 ==> final(vec)@.contains(group),
            !r.0 && !r.1 ==> final(vec)@ == old(vec)@,
            (forall|k: int| 0 <= k < old(vec)@.len() ==> !covers(#[trigger] old(vec)@[k], group)) && !old(vec)@.contains(group)
                ==> r.0,
            present_or_covered(final(vec)@, group),
            forall|k: int| 0 <= k < old(vec)@.len() && !final(vec)@.contains(#[trigger] old(vec)@[k]) ==> covers(group, old(vec)@[k]),
            !r.0 ==> sub_list(final(vec)@, old(vec)@),
            present_or_covered(old(vec)@, group) ==> !r.0,
    {
        let mut i: usize = 0;
        let mut bool_vec_modified_removed: bool = false;
        proof {
            if present_or_covered(old(vec)@, group) {
                if old(vec)@.contains(group) {
                    let k = choose|k: int| 0 <= k < old(vec)@.len() && old(vec)@[k] == group;
                    assert(old(vec)@[k] == group);
                } else {
                    let k = choose|k: int| 0 <= k < old(vec)@.len() && #[trigger] covers(old(vec)@[k], group);
                    assert(covers(old(vec)@[k], group));
                }
                assert(witness_from(vec@, group, 0));
            }
        }
        while i < vec.len()
            invariant
                i <= vec@.len(),
                sub_list(vec@, old(vec)@),
                !bool_vec_modified_removed ==> vec@ == old(vec)@,
                !old(vec)@.contains(group) ==> !vec@.contains(group),
                (forall|k: int| 0 <= k < old(vec)@.len() ==> !covers(#[trigger] old(vec)@[k], group))
                    ==> forall|k: int| 0 <= k < vec@.len() ==> !covers(#[trigger] vec@[k], group),
                forall|k: int| 0 <= k < old(vec)@.len() && !vec@.contains(#[trigger] old(vec)@[k]) ==> covers(group, old(vec)@[k]),
                present_or_covered(old(vec)@, group) ==> witness_from(vec@, group, i as int),
            decreases vec@.len() - i,
        {
            let existing = vec[i];
            if group == existing {
                assert(vec@[i as int] == group);
                return (false, bool_vec_modified_removed);
            }
            if existing.single_card_flags_equal(&group) && existing.count_dead() == group.count_dead() {
                if existing.part_list_is_subset_of(&group) && group.count_alive() < existing.count_alive() {
                    assert(covers(existing, group));
                    assert(covers(vec@[i as int], group));
                    return (false, bool_vec_modified_removed);
                }
                if group.part_list_is_subset_of(&existing) && existing.count_alive() < group.count_alive() {
                    let ghost v0 = vec@;
                    proof { lemma_swap_removed_sub(vec@, i as int); }
                    vec.swap_remove(i);
                    proof {
                        assert(vec@ =~= swap_removed(v0, i as int));
                        assert(covers(group, v0[i as int]));
                        assert forall|k: int| 0 <= k < old(vec)@.len() && !vec@.contains(#[trigger] old(vec)@[k])
                            implies covers(group, old(vec)@[k]) by {
                            if v0.contains(old(vec)@[k]) && old(vec)@[k] != v0[i as int] {
                                super::prune::lemma_swap_removed_keeps(v0, i as int, old(vec)@[k]);
                            }
                        }
                    }
                    proof {
                        if present_or_covered(old(vec)@, group) {
                            let k = choose|k: int| i <= k < v0.len() && (#[trigger] v0[k] == group || covers(v0[k], group));
                            assert(k != i) by {
                                if k == i {
                                    assert(covers(group, v0[i as int]));
                                    assert(v0[i as int] != group);
                                }
                            }
                            if k == v0.len() - 1 {
                                assert(vec@[i as int] == v0[k]);
                                assert(witness_from(vec@, group, i as int));
                            } else {
                                assert(vec@[k] == v0[k]);
                                assert(witness_from(vec@, group, i as int));
                            }
                        }
                    }
                    bool_vec_modified_removed = true;
                    continue;
                }
            }
            proof {
                if present_or_covered(old(vec)@, group) {
                    let k = choose|k: int| i <= k < vec@.len() && (#[trigger] vec@[k] == group || covers(vec@[k], group));
                    assert(k != i) by {
                        if k == i {
                            assert(!covers(existing, group));
                        }
                    }
                    assert(i + 1 <= k);
                }
            }
            i += 1;
        }
        proof {
            if present_or_covered(old(vec)@, group) {
                let k = choose|k: int| i <= k < vec@.len() && (#[trigger] vec@[k] == group || covers(vec@[k], group));
            }
        }
        let ghost v1 = vec@;
        vec.push(group);
        assert(vec@[vec@.len() - 1] == group);
        proof {
            assert forall|k: int| 0 <= k < old(vec)@.len() && !vec@.contains(#[trigger] old(vec)@[k])
                implies covers(group, old(vec)@[k]) by {
                if v1.contains(old(vec)@[k]) {
                    let m = choose|m: int| 0 <= m < v1.len() && v1[m] == old(vec)@[k];
                    assert(vec@[m] == old(vec)@[k]);
                }
            }
        }
        (true, bool_vec_modified_removed)
    }

    /// Whether `vec` holds a group equal to `group`.
    fn contains_group(vec: &Vec<CompressedGroupConstraint>, group: &CompressedGroupConstraint) -> (r: bool)
        ensures r == vec@.contains(*group),
    {
        let mut i: usize = 0;
        while i < vec.len()
            invariant
                i <= vec@.len(),
                forall|k: int| 0 <= k < i ==> vec@[k] != *group,
            decreases vec@.len() - i,
        {
            if *group == vec[i] {
                return true;
            }
            i += 1;
        }
        false
    }
}


/// The group lists of `after` are those of `before`, thinned.
pub open spec fn lists_thinned(after: Seq<Seq<CompressedGroupConstraint>>, before: Seq<Seq<CompressedGroupConstraint>>) -> bool {
    &&& after.len() == before.len()
    &&& forall|c: int| 0 <= c < before.len() ==> sub_list(#[trigger] after[c], before[c])
}

/// `x` is made redundant by `y`: they are equal, or with the same dead count `y` has no
/// more participants and more living copies.
pub open spec fn redundant_by(x: CompressedGroupConstraint, y: CompressedGroupConstraint) -> bool {
    ||| x == y
    ||| x.dead_spec() == y.dead_spec() && subset_flags(y.plist(), x.plist()) && x.alive_spec() < y.alive_spec()
}

/// No two groups of `v` at distinct positions from `start` on make one another redundant
/// (`redundant_by`).
pub open spec fn no_redundant_pair_from(v: Seq<CompressedGroupConstraint>, start: int) -> bool {
    forall|a: int, b: int| start <= a < v.len() && start <= b < v.len() && a != b
        ==> !redundant_by(#[trigger] v[a], #[trigger] v[b])
}

proof fn lemma_pairs_kept_from(v: Seq<CompressedGroupConstraint>, v0: Seq<CompressedGroupConstraint>, k: int, m: int, start: int)
    requires
        0 <= start,
        start <= m <= k < v0.len(),
        v == swap_removed(v0, k),
        forall|a: int, b: int| start <= a < m && start <= b < v0.len() && a != b
            ==> !redundant_by(#[trigger] v0[a], #[trigger] v0[b]) && !redundant_by(v0[b], v0[a]),
    ensures
        forall|a: int, b: int| start <= a < m && start <= b < v.len() && a != b
            ==> !redundant_by(#[trigger] v[a], #[trigger] v[b]) && !redundant_by(v[b], v[a]),
{
    assert forall|a: int, b: int| start <= a < m && start <= b < v.len() && a != b
        implies !redundant_by(#[trigger] v[a], #[trigger] v[b]) && !redundant_by(v[b], v[a]) by {
        assert(v[a] == v0[a]);
        if b == k {
            assert(v[b] == v0[v0.len() - 1]);
            assert(!redundant_by(v0[a], v0[v0.len() - 1]));
        } else {
            assert(v[b] == v0[b]);
        }
    }
}

/// Some group of `list` is `g` or makes it redundant (`redundant_by`).
pub open spec fn represented(list: Seq<CompressedGroupConstraint>, g: CompressedGroupConstraint) -> bool {
    exists|m: int| 0 <= m < list.len() && #[trigger] redundant_by(g, list[m])
}

/// Being made redundant is transitive.
pub proof fn lemma_redundant_trans(x: CompressedGroupConstraint, y: CompressedGroupConstraint, z: CompressedGroupConstraint)
    requires
        redundant_by(x, y),
        redundant_by(y, z),
    ensures
        redundant_by(x, z),
{
}

/// A group kept or made redundant by a group of `list` is represented there.
pub proof fn lemma_covered_represented(list: Seq<CompressedGroupConstraint>, g: CompressedGroupConstraint)
    requires
        present_or_covered(list, g),
    ensures
        represented(list, g),
{
    if list.contains(g) {
        let m = choose|m: int| 0 <= m < list.len() && list[m] == g;
        assert(redundant_by(g, list[m]));
    } else {
        let m = choose|m: int| 0 <= m < list.len() && #[trigger] covers(list[m], g);
        assert(redundant_by(g, list[m]));
    }
}

/// A group represented in a list all of whose groups are represented in another is
/// represented there.
pub proof fn lemma_represented_trans(l2: Seq<CompressedGroupConstraint>, l1: Seq<CompressedGroupConstraint>,
    x: CompressedGroupConstraint)
    requires
        represented(l1, x),
        forall|m: int| 0 <= m < l1.len() ==> represented(l2, #[trigger] l1[m]),
    ensures
        represented(l2, x),
{
    let m = choose|m: int| 0 <= m < l1.len() && #[trigger] redundant_by(x, l1[m]);
    assert(represented(l2, l1[m]));
    let m2 = choose|m2: int| 0 <= m2 < l2.len() && #[trigger] redundant_by(l1[m], l2[m2]);
    lemma_redundant_trans(x, l1[m], l2[m2]);
}

/// Removing, by a swap, a group that another one left in the list makes redundant keeps
/// every represented group represented.
proof fn lemma_represented_after_remove(v0: Seq<CompressedGroupConstraint>, pos: int, kp: int, x: CompressedGroupConstraint)
    requires
        0 <= pos < v0.len(),
        0 <= kp < v0.len(),
        kp != pos,
        redundant_by(v0[pos], v0[kp]),
        represented(v0, x),
    ensures
        represented(swap_removed(v0, pos), x),
{
    let v1 = swap_removed(v0, pos);
    let m = choose|m: int| 0 <= m < v0.len() && #[trigger] redundant_by(x, v0[m]);
    let t = if m == pos { kp } else { m };
    assert(redundant_by(x, v0[t])) by {
        if m == pos { lemma_redundant_trans(x, v0[pos], v0[kp]); }
    }
    if t == v0.len() - 1 {
        assert(v1[pos] == v0[t]);
        assert(redundant_by(x, v1[pos]));
    } else {
        assert(v1[t] == v0[t]);
        assert(redundant_by(x, v1[t]));
    }
}

/// Removes duplicates and dominated groups of one list, starting the outer scan at `start`;
/// returns where the outer scan stopped: the larger of `start` and the new length.
fn redundant_prune_list(v: &mut Vec<CompressedGroupConstraint>, start: usize) -> (r: usize)
    ensures
        sub_list(final(v)@, old(v)@),
        forall|k: int| 0 <= k < old(v)@.len() ==> represented(final(v)@, #[trigger] old(v)@[k]),
        no_redundant_pair_from(final(v)@, start as int),
        r == if start as int >= final(v)@.len() { start as int } else { final(v)@.len() as int },
{
    let mut i: usize = start;
    proof {
        assert forall|k: int| 0 <= k < old(v)@.len() implies represented(v@, #[trigger] old(v)@[k]) by {
            assert(redundant_by(old(v)@[k], v@[k]));
        }
    }
    while i < v.len()
        invariant
            sub_list(v@, old(v)@),
            forall|k: int| 0 <= k < old(v)@.len() ==> represented(v@, #[trigger] old(v)@[k]),
            i >= start,
            i <= v@.len() || i == start,
            forall|a: int, b: int| start <= a < i && start <= b < v@.len() && a != b
                ==> !redundant_by(#[trigger] v@[a], #[trigger] v@[b]) && !redundant_by(v@[b], v@[a]),
        decreases v@.len() - i,
    {
        let mut j: usize = i + 1;
        let mut removed_i = false;
        let ghost len0 = v@.len();
        let ghost vi = v@;
        while j < v.len() && !removed_i
            invariant
                sub_list(v@, old(v)@),
                forall|k: int| 0 <= k < old(v)@.len() ==> represented(v@, #[trigger] old(v)@[k]),
                !removed_i ==> i < v@.len(),
                i <= v@.len(),
                i >= start,
                v@.len() <= len0,
                removed_i ==> v@.len() < len0,
                j > i,
                forall|a: int, b: int| start <= a < i && start <= b < v@.len() && a != b
                    ==> !redundant_by(#[trigger] v@[a], #[trigger] v@[b]) && !redundant_by(v@[b], v@[a]),
                !removed_i ==> forall|b: int| i < b < j && b < v@.len()
                    ==> !redundant_by(v@[i as int], #[trigger] v@[b]) && !redundant_by(v@[b], v@[i as int]),
                !removed_i ==> j <= v@.len(),
            decreases v@.len() - j, (if removed_i { 0int } else { 1int }),
        {
            let ghost v0 = v@;
            if v[i] == v[j] {
                proof {
                    lemma_swap_removed_sub(v@, i as int);
                    assert forall|k: int| 0 <= k < old(v)@.len() implies represented(swap_removed(v0, i as int), #[trigger] old(v)@[k]) by {
                        lemma_represented_after_remove(v0, i as int, j as int, old(v)@[k]);
                    }
                }
                v.swap_remove(i);
                proof { lemma_pairs_kept_from(v@, v0, i as int, i as int, start as int); }
                removed_i = true;
                continue;
            }
            if v[i].count_dead() == v[j].count_dead() {
                if v[j].part_list_is_subset_of(&v[i]) && v[i].count_alive() < v[j].count_alive() {
                    proof {
                        lemma_swap_removed_sub(v@, i as int);
                        assert(redundant_by(v0[i as int], v0[j as int]));
                        assert forall|k: int| 0 <= k < old(v)@.len() implies represented(swap_removed(v0, i as int), #[trigger] old(v)@[k]) by {
                            lemma_represented_after_remove(v0, i as int, j as int, old(v)@[k]);
                        }
                    }
                    v.swap_remove(i);
                    proof { lemma_pairs_kept_from(v@, v0, i as int, i as int, start as int); }
                    removed_i = true;
                    continue;
                }
                if v[i].part_list_is_subset_of(&v[j]) && v[j].count_alive() < v[i].count_alive() {
                    proof {
                        lemma_swap_removed_sub(v@, j as int);
                        assert(redundant_by(v0[j as int], v0[i as int]));
                        assert forall|k: int| 0 <= k < old(v)@.len() implies represented(swap_removed(v0, j as int), #[trigger] old(v)@[k]) by {
                            lemma_represented_after_remove(v0, j as int, i as int, old(v)@[k]);
                        }
                    }
                    v.swap_remove(j);
                    proof {
                        lemma_pairs_kept_from(v@, v0, j as int, i as int, start as int);
                        assert forall|b: int| i < b < j && b < v@.len() implies
                            !redundant_by(v@[i as int], #[trigger] v@[b]) && !redundant_by(v@[b], v@[i as int]) by {
                            assert(v@[b] == v0[b]);
                        }
                    }
                    continue;
                }
            }
            j += 1;
        }
        if !removed_i {
            i += 1;
        }
    }
    i
}

/// `x`, of total three, is made redundant by `y`, of total three: `y` has no more
/// participants and every single-card flag of `x` is in `y`.
pub open spec fn redundant3(x: CompressedGroupConstraint, y: CompressedGroupConstraint) -> bool {
    &&& x.total_spec() == 3
    &&& y.total_spec() == 3
    &&& subset_flags(y.plist(), x.plist())
    &&& subset_flags(x.slist(), y.slist())
}

/// No two groups of `v` at distinct positions make one another redundant (`redundant3`).
pub open spec fn no_redundant3_pair(v: Seq<CompressedGroupConstraint>) -> bool {
    forall|a: int, b: int| 0 <= a < v.len() && 0 <= b < v.len() && a != b
        ==> !redundant3(#[trigger] v[a], #[trigger] v[b])
}

/// Removes, among groups of total three, those made redundant by another of total three.
fn three_groups_prune_list(v: &mut Vec<CompressedGroupConstraint>)
    ensures
        sub_list(final(v)@, old(v)@),
        no_redundant3_pair(final(v)@),
{
    let mut i: usize = 0;
    while i < v.len()
        invariant
            sub_list(v@, old(v)@),
            i <= v@.len(),
            forall|a: int, b: int| 0 <= a < i && 0 <= b < v@.len() && a != b
                ==> !redundant3(#[trigger] v@[a], #[trigger] v@[b]) && !redundant3(v@[b], v@[a]),
        decreases v@.len() - i,
    {
        let mut j: usize = i + 1;
        let mut removed_i = false;
        let ghost len0 = v@.len();
        let ghost vi = v@;
        if v[i].get_total_count() == 3 {
            while j < v.len() && !removed_i
                invariant
                    sub_list(v@, old(v)@),
                    !removed_i ==> i < v@.len(),
                    i <= v@.len(),
                    v@.len() <= len0,
                    removed_i ==> v@.len() < len0,
                    j > i,
                    forall|a: int, b: int| 0 <= a < i && 0 <= b < v@.len() && a != b
                        ==> !redundant3(#[trigger] v@[a], #[trigger] v@[b]) && !redundant3(v@[b], v@[a]),
                    !removed_i ==> forall|b: int| i < b < j && b < v@.len()
                        ==> !redundant3(v@[i as int], #[trigger] v@[b]) && !redundant3(v@[b], v@[i as int]),
                    !removed_i ==> v@[i as int] == vi[i as int],
                    !removed_i ==> j <= v@.len(),
                decreases v@.len() - j, (if removed_i { 0int } else { 1int }),
            {
                let ghost v0 = v@;
                if v[j].get_total_count() == 3 {
                    if v[j].part_list_is_subset_of(&v[i]) && v[i].single_card_flags_is_subset_of(&v[j]) {
                        proof { lemma_swap_removed_sub(v@, i as int); }
                        v.swap_remove(i);
                        proof { lemma_prefix_pairs_kept(v@, v0, i as int, i as int); }
                        removed_i = true;
                        continue;
                    }
                    if v[i].part_list_is_subset_of(&v[j]) && v[j].single_card_flags_is_subset_of(&v[i]) {
                        proof { lemma_swap_removed_sub(v@, j as int); }
                        v.swap_remove(j);
                        proof {
                            lemma_prefix_pairs_kept(v@, v0, j as int, i as int);
                            assert forall|b: int| i < b < j && b < v@.len() implies
                                !redundant3(v@[i as int], #[trigger] v@[b]) && !redundant3(v@[b], v@[i as int]) by {
                                assert(v@[b] == v0[b]);
                            }
                        }
                        continue;
                    }
                }
                j += 1;
            }
        }
        if !removed_i {
            proof {
                assert forall|a: int, b: int| 0 <= a < i + 1 && 0 <= b < v@.len() && a != b
                    implies !redundant3(#[trigger] v@[a], #[trigger] v@[b]) && !redundant3(v@[b], v@[a]) by {
                    if a == i && b > i {
                        if v@[a].total_spec() != 3 {
                            assert(!redundant3(v@[a], v@[b]));
                        }
                    }
                }
            }
            i += 1;
        }
    }
    proof {
        assert forall|a: int, b: int| 0 <= a < v@.len() && 0 <= b < v@.len() && a != b
            implies !redundant3(#[trigger] v@[a], #[trigger] v@[b]) by {}
    }
}

/// Removing position `k` (by moving the last element there) keeps the pairs of positions
/// before `k` free of redundancy.
proof fn lemma_prefix_pairs_kept(v: Seq<CompressedGroupConstraint>, v0: Seq<CompressedGroupConstraint>, k: int, m: int)
    requires
        0 <= m <= k < v0.len(),
        v == swap_removed(v0, k),
        forall|a: int, b: int| 0 <= a < m && 0 <= b < v0.len() && a != b
            ==> !redundant3(#[trigger] v0[a], #[trigger] v0[b]) && !redundant3(v0[b], v0[a]),
    ensures
        forall|a: int, b: int| 0 <= a < m && 0 <= b < v.len() && a != b
            ==> !redundant3(#[trigger] v[a], #[trigger] v[b]) && !redundant3(v[b], v[a]),
{
    assert forall|a: int, b: int| 0 <= a < m && 0 <= b < v.len() && a != b
        implies !redundant3(#[trigger] v[a], #[trigger] v[b]) && !redundant3(v[b], v[a]) by {
        assert(v[a] == v0[a]);
        if b == k {
            assert(v[b] == v0[v0.len() - 1]);
            assert(!redundant3(v0[a], v0[v0.len() - 1]));
        } else {
            assert(v[b] == v0[b]);
        }
    }
}

/// `g` involves only `player_id` and the pile.
pub open spec fn within_player_and_pile(g: CompressedGroupConstraint, player_id: int) -> bool {
    forall|j: int| 0 <= j < 7 && #[trigger] g.pflag(j) ==> (j == player_id || j == 6)
}

impl PathDependentCollectiveConstraint {
    /// Drops, in every card's list, duplicate groups and groups dominated by another group of
    /// the same dead count with fewer participants and more living copies.
    pub fn group_redundant_prune(&mut self)
        requires old(self).wf(),
        ensures
            final(self).wf(),
            lists_thinned(final(self).groups_view(), old(self).groups_view()),
            final(self).public_view() == old(self).public_view(),
            final(self).inferred_view() == old(self).inferred_view(),
            final(self).impossible_view() == old(self).impossible_view(),
            final(self).history_view() == old(self).history_view(),
            final(self).move_no_spec() == old(self).move_no_spec(),
            forall|c: int| 0 <= c < 5 ==> no_redundant_pair_from(#[trigger] final(self).groups_view()[c], 0),
            forall|c: int, k: int| 0 <= c < 5 && 0 <= k < old(self).groups_view()[c].len()
                ==> represented(final(self).groups_view()[c], #[trigger] old(self).groups_view()[c][k]),
    {
        let mut c: usize = 0;
        while c < 5
            invariant
                self.wf(),
                c <= 5,
                lists_thinned(self.groups_view(), old(self).groups_view()),
                forall|cc: int, k: int| 0 <= cc < c && 0 <= k < old(self).groups_view()[cc].len()
                    ==> represented(self.groups_view()[cc], #[trigger] old(self).groups_view()[cc][k]),
                forall|cc: int| c <= cc < 5 ==> #[trigger] self.groups_view()[cc] == old(self).groups_view()[cc],
                self.public_view() == old(self).public_view(),
                self.inferred_view() == old(self).inferred_view(),
                self.impossible_view() == old(self).impossible_view(),
                self.history_view() == old(self).history_view(),
                self.move_no_spec() == old(self).move_no_spec(),
                forall|k: int| 0 <= k < c ==> no_redundant_pair_from(#[trigger] self.groups_view()[k], 0),
            decreases 5 - c,
        {
            let ghost before = self.group_constraints@;
            let ghost gv0 = self.groups_view();
            redundant_prune_list(&mut self.group_constraints[c], 0);
            proof {
                self.lemma_thinned_one(before, c as int);
                let gv1 = self.groups_view();
                assert forall|k: int| 0 <= k < 5 && k != c implies #[trigger] gv1[k] == gv0[k] by {
                    lemma_group_rows(self.group_constraints@, k);
                    lemma_group_rows(before, k);
                    assert(self.group_constraints@[k] == before[k]);
                }
                lemma_group_rows(self.group_constraints@, c as int);
                assert(self.group_constraints@[c as int]@ == gv1[c as int]);
                lemma_group_rows(before, c as int);
                assert(before[c as int]@ == gv0[c as int]);
            }
            c += 1;
        }
    }

    /// Among groups of total three, drops those made redundant by another one.
    pub fn temp_remove_redundant_three_groups(&mut self)
        requires old(self).wf(),
        ensures
            final(self).wf(),
            lists_thinned(final(self).groups_view(), old(self).groups_view()),
            final(self).public_view() == old(self).public_view(),
            final(self).inferred_view() == old(self).inferred_view(),
            final(self).impossible_view() == old(self).impossible_view(),
            final(self).history_view() == old(self).history_view(),
            final(self).move_no_spec() == old(self).move_no_spec(),
            forall|c: int| 0 <= c < 5 ==> no_redundant3_pair(#[trigger] final(self).groups_view()[c]),
    {
        let mut c: usize = 0;
        while c < 5
            invariant
                self.wf(),
                c <= 5,
                lists_thinned(self.groups_view(), old(self).groups_view()),
                self.public_view() == old(self).public_view(),
                self.inferred_view() == old(self).inferred_view(),
                self.impossible_view() == old(self).impossible_view(),
                self.history_view() == old(self).history_view(),
                self.move_no_spec() == old(self).move_no_spec(),
                forall|k: int| 0 <= k < c ==> no_redundant3_pair(#[trigger] self.groups_view()[k]),
            decreases 5 - c,
        {
            let ghost before = self.group_constraints@;
            three_groups_prune_list(&mut self.group_constraints[c]);
            proof {
                self.lemma_thinned_one(before, c as int);
                assert forall|k: int| 0 <= k < c + 1 implies no_redundant3_pair(#[trigger] self.groups_view()[k]) by {
                    lemma_group_rows(self.group_constraints@, k);
                    lemma_group_rows(before, k);
                    if k < c { assert(self.group_constraints@[k] == before[k]); }
                }
            }
            c += 1;
        }
    }

    /// After thinning list `c` of `before` into the current lists, the lists are still
    /// thinned from the start.
    proof fn lemma_thinned_one(&self, before: Seq<Vec<CompressedGroupConstraint>>, c: int)
        requires
            0 <= c < 5,
            before.len() == 5,
            self.group_constraints@.len() == 5,
            forall|k: int| 0 <= k < 5 && k != c ==> #[trigger] self.group_constraints@[k] == before[k],
            sub_list(self.group_constraints@[c]@, before[c]@),
        ensures
            forall|k: int| 0 <= k < 5 ==> sub_list(#[trigger] self.groups_view()[k], group_rows(before)[k]),
    {
        assert forall|k: int| 0 <= k < 5 implies sub_list(#[trigger] self.groups_view()[k], group_rows(before)[k]) by {
            lemma_group_rows(self.group_constraints@, k);
            lemma_group_rows(before, k);
            if k != c {
                assert(self.group_constraints@[k] == before[k]);
                assert forall|m: int| 0 <= m < before[k]@.len() implies before[k]@.contains(#[trigger] before[k]@[m]) by {}
            }
        }
    }
}


/// Adds `group` to a list unless a group with no more participants and at least as many
/// living copies is there; groups with more participants and no more living copies are
/// dropped first.
fn add_to_list(v: &mut Vec<CompressedGroupConstraint>, group: CompressedGroupConstraint)
    ensures
        drawn_from(final(v)@, old(v)@, group),
        list_covers(final(v)@, group),
        forall|j: int| 0 <= j < old(v)@.len() && !outdone_by(#[trigger] old(v)@[j], group) ==> final(v)@.contains(old(v)@[j]),
        final(v)@.len() <= old(v)@.len() + 1,
        final(v)@.to_multiset().subset_of(old(v)@.to_multiset().insert(group)),
{
    let mut j: usize = 0;
    while j < v.len()
        invariant
            j <= v@.len(),
            v@.len() <= old(v)@.len(),
            v@.to_multiset().subset_of(old(v)@.to_multiset()),
            sub_list(v@, old(v)@),
            forall|m: int| 0 <= m < old(v)@.len() && !outdone_by(#[trigger] old(v)@[m], group) ==> v@.contains(old(v)@[m]),
        decreases v@.len() - j,
    {
        if v[j].part_list_is_subset_of(&group) && group.count_alive() <= v[j].count_alive() {
            assert(says_as_much(v@[j as int], group));
            proof {
                assert(old(v)@.to_multiset().subset_of(old(v)@.to_multiset().insert(group)));
            }
            return;
        }
        if group.part_list_is_subset_of(&v[j]) && v[j].count_alive() <= group.count_alive() {
            let ghost v0 = v@;
            proof { lemma_swap_removed_sub(v@, j as int); }
            v.swap_remove(j);
            proof {
                assert(v@ =~= swap_removed(v0, j as int));
                lemma_swap_removed_multiset(v0, j as int);
                assert(v0.to_multiset().remove(v0[j as int]).subset_of(v0.to_multiset()));
                assert forall|m: int| 0 <= m < old(v)@.len() && !outdone_by(#[trigger] old(v)@[m], group)
                    implies v@.contains(old(v)@[m]) by {
                    assert(outdone_by(v0[j as int], group));
                    super::prune::lemma_swap_removed_keeps(v0, j as int, old(v)@[m]);
                }
            }
            continue;
        }
        j += 1;
    }
    let ghost v1 = v@;
    v.push(group);
    proof {
        vstd::seq_lib::to_multiset_build(v1, group);
        assert(v@ == v1.push(group));
        assert(v1.to_multiset().insert(group).subset_of(old(v)@.to_multiset().insert(group)));
        assert(says_as_much(v@[v1.len() as int], group));
        assert forall|m: int| 0 <= m < old(v)@.len() && !outdone_by(#[trigger] old(v)@[m], group)
            implies v@.contains(old(v)@[m]) by {
            let k = choose|k: int| 0 <= k < v1.len() && v1[k] == old(v)@[m];
            assert(v@[k] == old(v)@[m]);
        }
    }
}

/// `h` says at least what `g` says: no more participants and at least as many living copies.
pub open spec fn says_as_much(h: CompressedGroupConstraint, g: CompressedGroupConstraint) -> bool {
    subset_flags(h.plist(), g.plist()) && g.alive_spec() <= h.alive_spec()
}

/// Some group of `list` says at least what `g` says.
pub open spec fn list_covers(list: Seq<CompressedGroupConstraint>, g: CompressedGroupConstraint) -> bool {
    exists|k: int| 0 <= k < list.len() && #[trigger] says_as_much(list[k], g)
}

/// `g` makes `h` redundant: `h` has no fewer participants and no more living copies.
pub open spec fn outdone_by(h: CompressedGroupConstraint, g: CompressedGroupConstraint) -> bool {
    subset_flags(g.plist(), h.plist()) && h.alive_spec() <= g.alive_spec()
}

/// The largest living count among groups of `s` involving only `p` and the pile, or `init`.
pub open spec fn max_alive_pp(s: Seq<CompressedGroupConstraint>, p: int, init: int) -> int
    decreases s.len(),
{
    if s.len() == 0 {
        init
    } else {
        let m = max_alive_pp(s.drop_last(), p, init);
        if within_player_and_pile(s.last(), p) && s.last().alive_spec() > m { s.last().alive_spec() as int } else { m }
    }
}

impl PathDependentCollectiveConstraint {
    /// Stores `group` among the groups of its card unless it adds nothing (see
    /// `is_known_information`) or a group with fewer participants says at least as much.
    pub fn add_group_constraint(&mut self, group: CompressedGroupConstraint)
        requires old(self).wf(),
        ensures
            final(self).wf(),
            final(self).public_view() == old(self).public_view(),
            final(self).inferred_view() == old(self).inferred_view(),
            final(self).impossible_view() == old(self).impossible_view(),
            final(self).history_view() == old(self).history_view(),
            final(self).move_no_spec() == old(self).move_no_spec(),
            forall|c: int| 0 <= c < 5 && c != card_index(group.card_spec()) ==> #[trigger] final(self).groups_view()[c] == old(self).groups_view()[c],
            drawn_from(final(self).groups_view()[card_index(group.card_spec())], old(self).groups_view()[card_index(group.card_spec())], group),
            ({
                let known = group.pflag(6) && forall|p: int| 0 <= p < 6 ==>
                    (!#[trigger] group.pflag(p) ==> old(self).public_view()[p].len() >= 2);
                let c = card_index(group.card_spec());
                &&& known ==> final(self).groups_view() == old(self).groups_view()
                &&& !known ==> list_covers(final(self).groups_view()[c], group)
                &&& !known ==> forall|j: int| 0 <= j < old(self).groups_view()[c].len()
                    && !outdone_by(#[trigger] old(self).groups_view()[c][j], group)
                    ==> final(self).groups_view()[c].contains(old(self).groups_view()[c][j])
                &&& final(self).groups_view()[c].len() <= old(self).groups_view()[c].len() + 1
                &&& final(self).groups_view()[c].to_multiset().subset_of(old(self).groups_view()[c].to_multiset().insert(group))
            }),
    {
        if self.is_known_information(&group) {
            return;
        }
        let c = group.card_num();
        let ghost before = self.group_constraints@;
        add_to_list(&mut self.group_constraints[c], group);
        proof {
            lemma_only_list_changed(before, self.group_constraints@, c as int);
            lemma_group_rows(before, c as int);
        }
    }

    /// Records that `player_id` (not the pile) holds `card`; at most two cards are known per player.
    pub fn add_inferred_player_constraint(&mut self, player_id: usize, card: Card)
        requires
            old(self).wf(),
            player_id < 6,
            old(self).inferred_view()[player_id as int].len() < 2,
        ensures
            final(self).wf(),
            final(self).inferred_view() == old(self).inferred_view().update(player_id as int,
                old(self).inferred_view()[player_id as int].push(card)),
            final(self).public_view() == old(self).public_view(),
            final(self).groups_view() == old(self).groups_view(),
            final(self).impossible_view() == old(self).impossible_view(),
            final(self).history_view() == old(self).history_view(),
            final(self).move_no_spec() == old(self).move_no_spec(),
    {
        proof { self.lemma_wf_rows(); }
        self.inferred_constraints[player_id].push(card);
        proof {
            assert(self.inferred_view() =~= old(self).inferred_view().update(player_id as int,
                old(self).inferred_view()[player_id as int].push(card)));
        }
    }

    /// For each card, the most copies that the player together with the pile is known to
    /// hold: the player's known copies, or the living count of a group of only the player
    /// and the pile, whichever is larger.
    pub fn total_known_alive_with_player_and_pile(&mut self, player_id: usize) -> (r: [u8; 5])
        requires old(self).wf(), player_id < 7,
        ensures
            *final(self) == *old(self),
            forall|c: int| 0 <= c < 5 ==> #[trigger] r@[c] == max_alive_pp(old(self).groups_view()[c], player_id as int,
                count_card(old(self).inferred_view()[player_id as int], card_at(c)) as int),
    {
        proof { self.lemma_wf_rows(); }
        let mut output: [u8; 5] = card_counts(&self.inferred_constraints[player_id]);
        let mut c: usize = 0;
        while c < 5
            invariant
                self.wf(),
                *self == *old(self),
                player_id < 7,
                c <= 5,
                forall|k: int| 0 <= k < c ==> #[trigger] output@[k] == max_alive_pp(self.groups_view()[k], player_id as int,
                    count_card(self.inferred_view()[player_id as int], card_at(k)) as int),
                forall|k: int| c <= k < 5 ==> #[trigger] output@[k] == count_card(self.inferred_view()[player_id as int], card_at(k)),
                forall|k: int| 0 <= k < 5 ==> #[trigger] output@[k] <= 3,
            decreases 5 - c,
        {
            proof { lemma_group_rows(self.group_constraints@, c as int); }
            let ghost init = output@[c as int] as int;
            let ghost out0 = output@;
            let mut i: usize = 0;
            while i < self.group_constraints[c].len()
                invariant
                    self.wf(),
                    player_id < 7,
                    c < 5,
                    i <= self.group_constraints@[c as int]@.len(),
                    self.groups_view()[c as int] == self.group_constraints@[c as int]@,
                    output@[c as int] == max_alive_pp(self.group_constraints@[c as int]@.subrange(0, i as int), player_id as int, init),
                    output@[c as int] <= 3,
                    forall|k: int| 0 <= k < 5 && k != c ==> #[trigger] output@[k] == out0[k],
                decreases self.group_constraints@[c as int]@.len() - i,
            {
                let g = self.group_constraints[c][i];
                proof {
                    let s = self.group_constraints@[c as int]@.subrange(0, i as int + 1);
                    assert(s.drop_last() =~= self.group_constraints@[c as int]@.subrange(0, i as int));
                }
                if g.part_list_is_subset_of_player_and_pile(player_id) {
                    let a = g.count_alive();
                    if a > output[c] {
                        output[c] = a;
                    }
                }
                i += 1;
            }
            proof {
                assert(self.group_constraints@[c as int]@.subrange(0, i as int) =~= self.group_constraints@[c as int]@);
            }
            c += 1;
        }
        output
    }
}

} // verus!
