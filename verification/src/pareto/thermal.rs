//! The thermal skyline: Kung's skyline in which a dominated item of the lower
//! half may survive the merge.

use crate::pareto::bounds::lemma_thermal_holds_kung;
use crate::pareto::dominance::{transitive_on, CanDominate};
use crate::pareto::order::{
    lemma_sorted_multiset, lemma_sorted_same, reversed, sort_by_first, sorted_by_first,
};
use crate::pareto::skyline::{
    dominated_in, keeps_unbeaten, kung, lemma_unbeaten_sorted, skyline, survivors, unbeaten,
};
use vstd::prelude::*;

verus! {

/// `keep` never lets a dominated item survive.
pub open spec fn never<T, F: Fn(&T, &Vec<&T>) -> bool>(keep: &F) -> bool {
    forall|l: &T, ds: &Vec<&T>, r: bool| #[trigger] call_ensures(*keep, (l, ds), r) ==> !r
}

/// `keep` lets every dominated item survive.
pub open spec fn always<T, F: Fn(&T, &Vec<&T>) -> bool>(keep: &F) -> bool {
    forall|l: &T, ds: &Vec<&T>, r: bool| #[trigger] call_ensures(*keep, (l, ds), r) ==> r
}

/// `keep` may be asked about every item and every list of dominators.
pub open spec fn total<T, F: Fn(&T, &Vec<&T>) -> bool>(keep: &F) -> bool {
    forall|l: &T, ds: &Vec<&T>| #[trigger] call_requires(*keep, (l, ds))
}

/// The items of `right` that dominate `l`, in their order.
pub open spec fn dominators_of<T: CanDominate>(l: T, right: Seq<T>) -> Seq<T>
    decreases right.len(),
{
    if right.len() == 0 {
        Seq::empty()
    } else if right.last().dominates_spec(&l) {
        dominators_of(l, right.drop_last()).push(right.last())
    } else {
        dominators_of(l, right.drop_last())
    }
}

/// The items that a list of references names.
pub open spec fn named<T>(ds: Seq<&T>) -> Seq<T> {
    Seq::new(ds.len(), |i: int| *ds[i])
}

/// `b` is an answer that `keep` gives when it is asked about the item `l`
/// and its dominators `doms`.
pub open spec fn answered<T, F: Fn(&T, &Vec<&T>) -> bool>(keep: &F, l: T, doms: Seq<T>, b: bool) -> bool {
    exists|ds: Vec<&T>| named(ds@) == doms && #[trigger] call_ensures(*keep, (&l, &ds), b)
}

/// What is left of the first `n` items of `left` at a merge with the
/// answers `ans`: an item that no item of `right` dominates stays; a
/// dominated item stays if the answer at its position says so.
pub open spec fn picked<T: CanDominate>(left: Seq<T>, right: Seq<T>, ans: Seq<bool>, n: int) -> Seq<T>
    decreases n,
{
    if n <= 0 {
        Seq::empty()
    } else if !dominated_in(left[n - 1], right) || ans[n - 1] {
        picked(left, right, ans, n - 1).push(left[n - 1])
    } else {
        picked(left, right, ans, n - 1)
    }
}

/// There is one answer for each item of `left`, and the answer for a
/// dominated item is one that `keep` gives for the item and those items of
/// `right` that dominate it.
pub open spec fn merge_answers<T: CanDominate, F: Fn(&T, &Vec<&T>) -> bool>(
    keep: &F,
    left: Seq<T>,
    right: Seq<T>,
    ans: Seq<bool>,
) -> bool {
    &&& ans.len() == left.len()
    &&& forall|i: int|
        0 <= i < left.len() && dominated_in(#[trigger] left[i], right) ==> answered(
            keep,
            left[i],
            dominators_of(left[i], right),
            ans[i],
        )
}

/// `kept` is what a thermal merge leaves of `left` against `right`, for
/// some answers of `keep`.
pub open spec fn is_merge<T: CanDominate, F: Fn(&T, &Vec<&T>) -> bool>(
    keep: &F,
    left: Seq<T>,
    right: Seq<T>,
    kept: Seq<T>,
) -> bool {
    exists|ans: Seq<bool>|
        merge_answers(keep, left, right, ans) && kept == #[trigger] picked(
            left,
            right,
            ans,
            left.len() as int,
        )
}

/// `out` is a thermal skyline of `s`: a sequence of one item at most is
/// its own; a longer one is split in the middle, and a thermal skyline of it
/// is what a thermal merge leaves of a thermal skyline of the lower half
/// against one of the upper half, followed by that of the upper half.
pub open spec fn is_thermal<T: CanDominate, F: Fn(&T, &Vec<&T>) -> bool>(
    keep: &F,
    s: Seq<T>,
    out: Seq<T>,
) -> bool
    decreases s.len(),
{
    if s.len() <= 1 {
        out == s
    } else {
        let mid = (s.len() / 2) as int;
        exists|l: Seq<T>, r: Seq<T>, kept: Seq<T>|
            is_thermal(keep, s.take(mid), l) && is_thermal(keep, s.skip(mid), r) && #[trigger] is_merge(
                keep,
                l,
                r,
                kept,
            ) && out == kept + r
    }
}

/// The first answers decide what is left of the first items.
proof fn lemma_picked_prefix<T: CanDominate>(left: Seq<T>, right: Seq<T>, a: Seq<bool>, b: Seq<bool>, n: int)
    requires
        0 <= n <= a.len(),
        n <= b.len(),
        forall|i: int| 0 <= i < n ==> a[i] == b[i],
    ensures
        picked(left, right, a, n) == picked(left, right, b, n),
    decreases n,
{
    if n > 0 {
        lemma_picked_prefix(left, right, a, b, n - 1);
    }
}

/// What a merge leaves is part of `left`: no longer, and no item more
/// often; and it holds every item of `left` that no item of `right`
/// dominates.
pub proof fn lemma_picked<T: CanDominate>(left: Seq<T>, right: Seq<T>, ans: Seq<bool>, n: int)
    requires
        0 <= n <= left.len(),
    ensures
        picked(left, right, ans, n).len() <= n,
        picked(left, right, ans, n).to_multiset().subset_of(left.take(n).to_multiset()),
        forall|i: int|
            0 <= i < n && !dominated_in(#[trigger] left[i], right) ==> picked(
                left,
                right,
                ans,
                n,
            ).contains(left[i]),
    decreases n,
{
    broadcast use vstd::seq_lib::to_multiset_build;
    broadcast use vstd::multiset::group_multiset_axioms;

    if n > 0 {
        lemma_picked(left, right, ans, n - 1);
        let prev = picked(left, right, ans, n - 1);
        let now = picked(left, right, ans, n);
        let x = left[n - 1];
        assert(left.take(n) =~= left.take(n - 1).push(x));
        assert(left.take(n).to_multiset() == left.take(n - 1).to_multiset().insert(x));
        if !dominated_in(x, right) || ans[n - 1] {
            assert(now.to_multiset() == prev.to_multiset().insert(x));
        }
        assert forall|i: int| 0 <= i < n && !dominated_in(#[trigger] left[i], right) implies now.contains(
            left[i],
        ) by {
            if i < n - 1 {
                assert(prev.contains(left[i]));
                let w = choose|w: int| 0 <= w < prev.len() && prev[w] == left[i];
                assert(now[w] == left[i]);
            } else {
                assert(now[now.len() - 1] == left[i]);
            }
        }
    } else {
        let none = picked(left, right, ans, n);
        none.to_multiset_ensures();
        assert forall|x: T| none.to_multiset().count(x) == 0 by {
            assert(!none.contains(x));
        }
        assert(none.to_multiset().subset_of(left.take(n).to_multiset()));
    }
}

/// Where `keep` never lets a dominated item survive, a merge leaves what no
/// item of `right` dominates.
proof fn lemma_picked_never<T: CanDominate, F: Fn(&T, &Vec<&T>) -> bool>(
    keep: &F,
    left: Seq<T>,
    right: Seq<T>,
    ans: Seq<bool>,
    n: int,
)
    requires
        never(keep),
        merge_answers(keep, left, right, ans),
        0 <= n <= left.len(),
    ensures
        picked(left, right, ans, n) == survivors(left.take(n), right),
    decreases n,
{
    if n > 0 {
        lemma_picked_never(keep, left, right, ans, n - 1);
        assert(left.take(n).drop_last() =~= left.take(n - 1));
        assert(left.take(n).last() == left[n - 1]);
        if dominated_in(left[n - 1], right) {
            assert(answered(keep, left[n - 1], dominators_of(left[n - 1], right), ans[n - 1]));
            assert(!ans[n - 1]);
        }
    } else {
        assert(left.take(n) =~= Seq::<T>::empty());
    }
}

/// Where `keep` lets every dominated item survive, a merge leaves all.
proof fn lemma_picked_always<T: CanDominate, F: Fn(&T, &Vec<&T>) -> bool>(
    keep: &F,
    left: Seq<T>,
    right: Seq<T>,
    ans: Seq<bool>,
    n: int,
)
    requires
        always(keep),
        merge_answers(keep, left, right, ans),
        0 <= n <= left.len(),
    ensures
        picked(left, right, ans, n) == left.take(n),
    decreases n,
{
    if n > 0 {
        lemma_picked_always(keep, left, right, ans, n - 1);
        assert(left.take(n) =~= left.take(n - 1).push(left[n - 1]));
        if dominated_in(left[n - 1], right) {
            assert(answered(keep, left[n - 1], dominators_of(left[n - 1], right), ans[n - 1]));
            assert(ans[n - 1]);
        }
    } else {
        assert(left.take(n) =~= Seq::<T>::empty());
    }
}

/// A thermal skyline is part of the sequence: no longer, and no item more
/// often.
pub proof fn lemma_thermal_part<T: CanDominate, F: Fn(&T, &Vec<&T>) -> bool>(
    keep: &F,
    s: Seq<T>,
    out: Seq<T>,
)
    requires
        is_thermal(keep, s, out),
    ensures
        out.len() <= s.len(),
        out.to_multiset().subset_of(s.to_multiset()),
        forall|k: int| 0 <= k < out.len() ==> s.contains(#[trigger] out[k]),
    decreases s.len(),
{
    broadcast use vstd::seq_lib::lemma_multiset_commutative;
    broadcast use vstd::multiset::group_multiset_axioms;

    if s.len() > 1 {
        let mid = (s.len() / 2) as int;
        let (l, r, kept) = choose|l: Seq<T>, r: Seq<T>, kept: Seq<T>|
            is_thermal(keep, s.take(mid), l) && is_thermal(keep, s.skip(mid), r) && #[trigger] is_merge(
                keep,
                l,
                r,
                kept,
            ) && out == kept + r;
        lemma_thermal_part(keep, s.take(mid), l);
        lemma_thermal_part(keep, s.skip(mid), r);
        let ans = choose|ans: Seq<bool>|
            merge_answers(keep, l, r, ans) && kept == #[trigger] picked(l, r, ans, l.len() as int);
        lemma_picked(l, r, ans, l.len() as int);
        assert(l.take(l.len() as int) =~= l);
        assert(s.take(mid) + s.skip(mid) =~= s);
        assert((kept + r).to_multiset() == kept.to_multiset().add(r.to_multiset()));
        assert((s.take(mid) + s.skip(mid)).to_multiset() == s.take(mid).to_multiset().add(
            s.skip(mid).to_multiset(),
        ));
        assert(out.to_multiset().subset_of(s.to_multiset()));
    }
    s.to_multiset_ensures();
    out.to_multiset_ensures();
    assert forall|k: int| 0 <= k < out.len() implies s.contains(#[trigger] out[k]) by {
        assert(out.contains(out[k]));
        assert(out.to_multiset().count(out[k]) > 0);
        assert(s.to_multiset().count(out[k]) > 0);
    }
}

/// A thermal skyline holds every item that no item at another position
/// dominates.
pub proof fn lemma_thermal_unbeaten<T: CanDominate, F: Fn(&T, &Vec<&T>) -> bool>(
    keep: &F,
    s: Seq<T>,
    out: Seq<T>,
    i: int,
)
    requires
        is_thermal(keep, s, out),
        0 <= i < s.len(),
        unbeaten(s, i),
    ensures
        out.contains(s[i]),
    decreases s.len(),
{
    if s.len() <= 1 {
        assert(out[i] == s[i]);
    } else {
        let mid = (s.len() / 2) as int;
        let lo = s.take(mid);
        let hi = s.skip(mid);
        let (l, r, kept) = choose|l: Seq<T>, r: Seq<T>, kept: Seq<T>|
            is_thermal(keep, lo, l) && is_thermal(keep, hi, r) && #[trigger] is_merge(
                keep,
                l,
                r,
                kept,
            ) && out == kept + r;
        if i < mid {
            assert(lo[i] == s[i]);
            assert(unbeaten(lo, i)) by {
                assert forall|j: int| 0 <= j < lo.len() && j != i implies !(
                #[trigger] lo[j]).dominates_spec(&lo[i]) by {
                    assert(lo[j] == s[j]);
                }
            }
            lemma_thermal_unbeaten(keep, lo, l, i);
            let a = choose|a: int| 0 <= a < l.len() && l[a] == s[i];
            lemma_thermal_part(keep, hi, r);
            assert(!dominated_in(l[a], r)) by {
                if dominated_in(l[a], r) {
                    let j = choose|j: int| 0 <= j < r.len() && (#[trigger] r[j]).dominates_spec(&l[a]);
                    assert(hi.contains(r[j]));
                    let v = choose|v: int| 0 <= v < hi.len() && hi[v] == r[j];
                    assert(s[v + mid] == r[j]);
                }
            }
            let ans = choose|ans: Seq<bool>|
                merge_answers(keep, l, r, ans) && kept == #[trigger] picked(
                    l,
                    r,
                    ans,
                    l.len() as int,
                );
            lemma_picked(l, r, ans, l.len() as int);
            assert(kept.contains(l[a]));
            let w = choose|w: int| 0 <= w < kept.len() && kept[w] == s[i];
            assert(out[w] == s[i]);
        } else {
            assert(hi[i - mid] == s[i]);
            assert(unbeaten(hi, i - mid)) by {
                assert forall|j: int| 0 <= j < hi.len() && j != i - mid implies !(
                #[trigger] hi[j]).dominates_spec(&hi[i - mid]) by {
                    assert(hi[j] == s[j + mid]);
                }
            }
            lemma_thermal_unbeaten(keep, hi, r, i - mid);
            let w = choose|w: int| 0 <= w < r.len() && r[w] == s[i];
            assert(out[kept.len() + w] == s[i]);
        }
    }
}

/// Where `keep` never lets a dominated item survive, the thermal skyline is
/// the skyline.
pub proof fn lemma_thermal_never<T: CanDominate, F: Fn(&T, &Vec<&T>) -> bool>(
    keep: &F,
    s: Seq<T>,
    out: Seq<T>,
)
    requires
        never(keep),
        is_thermal(keep, s, out),
    ensures
        out == skyline(s),
    decreases s.len(),
{
    if s.len() > 1 {
        let mid = (s.len() / 2) as int;
        let (l, r, kept) = choose|l: Seq<T>, r: Seq<T>, kept: Seq<T>|
            is_thermal(keep, s.take(mid), l) && is_thermal(keep, s.skip(mid), r) && #[trigger] is_merge(
                keep,
                l,
                r,
                kept,
            ) && out == kept + r;
        lemma_thermal_never(keep, s.take(mid), l);
        lemma_thermal_never(keep, s.skip(mid), r);
        let ans = choose|ans: Seq<bool>|
            merge_answers(keep, l, r, ans) && kept == #[trigger] picked(l, r, ans, l.len() as int);
        lemma_picked_never(keep, l, r, ans, l.len() as int);
        assert(l.take(l.len() as int) =~= l);
    }
}

/// Where `keep` lets every dominated item survive, the thermal skyline is
/// the whole sequence.
pub proof fn lemma_thermal_always<T: CanDominate, F: Fn(&T, &Vec<&T>) -> bool>(
    keep: &F,
    s: Seq<T>,
    out: Seq<T>,
)
    requires
        always(keep),
        is_thermal(keep, s, out),
    ensures
        out == s,
    decreases s.len(),
{
    if s.len() > 1 {
        let mid = (s.len() / 2) as int;
        let (l, r, kept) = choose|l: Seq<T>, r: Seq<T>, kept: Seq<T>|
            is_thermal(keep, s.take(mid), l) && is_thermal(keep, s.skip(mid), r) && #[trigger] is_merge(
                keep,
                l,
                r,
                kept,
            ) && out == kept + r;
        lemma_thermal_always(keep, s.take(mid), l);
        lemma_thermal_always(keep, s.skip(mid), r);
        let ans = choose|ans: Seq<bool>|
            merge_answers(keep, l, r, ans) && kept == #[trigger] picked(l, r, ans, l.len() as int);
        lemma_picked_always(keep, l, r, ans, l.len() as int);
        assert(l.take(l.len() as int) =~= l);
        assert(s.take(mid) + s.skip(mid) =~= s);
    }
}

/// The items of `right` that dominate `l`, in their order.
fn dominators<'a, T: CanDominate>(l: &T, right: &'a Vec<T>) -> (ds: Vec<&'a T>)
    ensures
        named(ds@) == dominators_of(*l, right@),
        ds.len() == 0 <==> !dominated_in(*l, right@),
{
    let mut ds: Vec<&'a T> = Vec::new();
    let mut j: usize = 0;
    assert(right@.take(0) =~= Seq::<T>::empty());
    assert(named(ds@) =~= Seq::<T>::empty());
    while j < right.len()
        invariant
            j <= right.len(),
            named(ds@) == dominators_of(*l, right@.take(j as int)),
            ds.len() == 0 <==> forall|k: int| 0 <= k < j ==> !(#[trigger] right[k]).dominates_spec(l),
        decreases right.len() - j,
    {
        let ghost before = ds@;
        proof {
            let next = right@.take(j + 1);
            assert(next.drop_last() =~= right@.take(j as int));
            assert(next.last() == right[j as int]);
        }
        if right[j].dominates(l) {
            ds.push(&right[j]);
            assert(named(ds@) =~= named(before).push(right[j as int]));
        }
        j += 1;
    }
    assert(right@.take(right.len() as int) =~= right@);
    ds
}

/// Merges the thermal skylines of the two halves: an item of `left` that no
/// item of `right` dominates survives; of one that is dominated, `keep`
/// decides, given the item and its dominators; `right` follows.
fn thermal_merge<T: CanDominate, F: Fn(&T, &Vec<&T>) -> bool>(
    left: Vec<T>,
    right: Vec<T>,
    keep: &F,
) -> (r: (Vec<T>, Ghost<Seq<T>>))
    requires
        total(keep),
    ensures
        is_merge(keep, left@, right@, r.1@),
        r.0@ == r.1@ + right@,
{
    let ghost all = left@;
    let ghost upper = right@;
    let mut right = right;
    let mut rest = reversed(left);
    assert(rest.len() == all.len());
    let mut out: Vec<T> = Vec::new();
    let ghost mut ans: Seq<bool> = Seq::empty();
    let mut k: usize = 0;
    while rest.len() > 0
        invariant
            k + rest.len() == all.len(),
            all.len() <= usize::MAX,
            right@ == upper,
            rest@ == all.reverse().take(rest.len() as int),
            total(keep),
            ans.len() == k,
            out@ == picked(all, upper, ans, k as int),
            forall|i: int|
                0 <= i < k && dominated_in(#[trigger] all[i], upper) ==> answered(
                    keep,
                    all[i],
                    dominators_of(all[i], upper),
                    ans[i],
                ),
        decreases rest.len(),
    {
        let x = rest.pop().unwrap();
        assert(x == all[k as int]);
        let ghost before = ans;
        let ds = dominators(&x, &right);
        let stays = if ds.len() == 0 {
            true
        } else {
            let b = keep(&x, &ds);
            assert(answered(keep, x, dominators_of(x, upper), b)) by {
                assert(named(ds@) == dominators_of(x, upper) && call_ensures(*keep, (&x, &ds), b));
            }
            b
        };
        proof {
            ans = before.push(stays);
            lemma_picked_prefix(all, upper, before, ans, k as int);
            assert forall|i: int| 0 <= i < k + 1 && dominated_in(#[trigger] all[i], upper) implies answered(
                keep,
                all[i],
                dominators_of(all[i], upper),
                ans[i],
            ) by {
                if i < k {
                    assert(ans[i] == before[i]);
                }
            }
        }
        if stays {
            out.push(x);
        }
        k += 1;
    }
    let ghost kept = out@;
    proof {
        assert(merge_answers(keep, all, upper, ans));
        assert(kept == picked(all, upper, ans, all.len() as int));
    }
    out.append(&mut right);
    (out, Ghost(kept))
}

/// A thermal skyline of `data` by divide and conquer: where an item of a
/// lower half is dominated by items of the upper half's skyline, `keep`
/// decides whether it survives, given the item and those dominators.
pub fn thermal_of<T: CanDominate, F: Fn(&T, &Vec<&T>) -> bool>(data: Vec<T>, keep: &F) -> (out:
    Vec<T>)
    requires
        total(keep),
    ensures
        is_thermal(keep, data@, out@),
    decreases data.len(),
{
    if data.len() <= 1 {
        return data;
    }
    let ghost all = data@;
    let ghost mid = (all.len() / 2) as int;
    let mut left = data;
    let right = left.split_off(left.len() / 2);
    assert(left@ =~= all.take(mid));
    assert(right@ =~= all.skip(mid));
    let left_skyline = thermal_of(left, keep);
    let right_skyline = thermal_of(right, keep);
    let ghost ls = left_skyline@;
    let ghost rs = right_skyline@;
    let (out, Ghost(kept)) = thermal_merge(left_skyline, right_skyline, keep);
    proof {
        assert(is_thermal(keep, all.take(mid), ls) && is_thermal(keep, all.skip(mid), rs)
            && is_merge(keep, ls, rs, kept) && out@ == kept + rs);
    }
    out
}

/// The thermal skyline of `data`: the items are sorted by the first
/// coordinate of their scores and merged by divide and conquer; where an
/// item of a lower half is dominated by items of the upper half's skyline,
/// `keep` decides whether it survives, given the item and those dominators.
/// The result is a thermal skyline of the sorted items for answers that
/// `keep` gave; it holds no item more often than `data`, and every item of
/// `data` that no item at another position dominates. Where dominance is
/// transitive among the items, it holds all of Kung's skyline and is no
/// shorter. Where `keep` never lets a dominated item survive, it is Kung's
/// skyline, and where `keep` always does, it is all of `data`, sorted.
pub fn kung_recursive_mosa<T: CanDominate, F: Fn(&T, &Vec<&T>) -> bool>(data: Vec<T>, keep: &F) -> (out:
    Vec<T>)
    requires
        total(keep),
    ensures
        is_thermal(keep, sorted_by_first(data@), out@),
        out@.to_multiset().subset_of(data@.to_multiset()),
        forall|i: int| 0 <= i < out.len() ==> data@.contains(#[trigger] out[i]),
        out.len() <= data.len(),
        keeps_unbeaten(out@, data@),
        transitive_on(data@) ==> kung(data@).to_multiset().subset_of(out@.to_multiset())
            && kung(data@).len() <= out.len(),
        never(keep) ==> out@ == kung(data@),
        always(keep) ==> out@ == sorted_by_first(data@),
{
    let ghost all = data@;
    let sorted = sort_by_first(data);
    let out = thermal_of(sorted, keep);
    proof {
        let s = sorted_by_first(all);
        lemma_sorted_same(all);
        lemma_sorted_multiset(all);
        lemma_thermal_part(keep, s, out@);
        assert forall|i: int| 0 <= i < out.len() implies all.contains(#[trigger] out[i]) by {
            assert(s.contains(out[i]));
        }
        assert forall|i: int| 0 <= i < all.len() && unbeaten(all, i) implies out@.contains(
            #[trigger] all[i],
        ) by {
            assert(all.contains(all[i]));
            assert(s.contains(all[i]));
            let u = choose|u: int| 0 <= u < s.len() && s[u] == all[i];
            lemma_unbeaten_sorted(all, i, u);
            lemma_thermal_unbeaten(keep, s, out@, u);
        }
        if transitive_on(all) {
            lemma_thermal_holds_kung(keep, all, out@);
        }
        if never(keep) {
            lemma_thermal_never(keep, s, out@);
        }
        if always(keep) {
            lemma_thermal_always(keep, s, out@);
        }
    }
    out
}

} // verus!
