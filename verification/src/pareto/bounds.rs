//! What every thermal skyline holds: the items that no later item
//! dominates, and with them, where dominance is transitive, Kung's skyline.

use crate::pareto::dominance::{transitive_on, CanDominate};
use crate::pareto::order::{lemma_sorted_same, sorted_by_first};
use crate::pareto::skyline::{dominated_in, kung, skyline, survivors};
use crate::pareto::thermal::{
    is_merge, is_thermal, lemma_thermal_part, merge_answers, picked,
};
use vstd::prelude::*;

verus! {

/// The items of `s` that no later item of `s` dominates, in their order.
pub open spec fn undominated_later<T: CanDominate>(s: Seq<T>) -> Seq<T>
    decreases s.len(),
{
    if s.len() == 0 {
        s
    } else if dominated_in(s[0], s.skip(1)) {
        undominated_later(s.skip(1))
    } else {
        seq![s[0]] + undominated_later(s.skip(1))
    }
}

/// How often a sequence of one item holds an item.
proof fn lemma_single_count<T>(h: T, x: T)
    ensures
        seq![h].to_multiset().count(x) == if x == h {
            1nat
        } else {
            0nat
        },
{
    broadcast use vstd::multiset::group_multiset_axioms;

    let e = Seq::<T>::empty();
    vstd::seq_lib::to_multiset_build(e, h);
    assert(e.push(h) =~= seq![h]);
    e.to_multiset_ensures();
    assert(!e.contains(x));
}

/// How often two sequences, one after the other, hold an item.
proof fn lemma_concat_count<T>(a: Seq<T>, b: Seq<T>, x: T)
    ensures
        (a + b).to_multiset().count(x) == a.to_multiset().count(x) + b.to_multiset().count(x),
{
    broadcast use vstd::multiset::group_multiset_axioms;

    vstd::seq_lib::lemma_multiset_commutative(a, b);
}

/// How often a sequence with one more item holds an item.
proof fn lemma_push_count<T>(a: Seq<T>, h: T, x: T)
    ensures
        a.push(h).to_multiset().count(x) == a.to_multiset().count(x) + if x == h {
            1nat
        } else {
            0nat
        },
{
    broadcast use vstd::multiset::group_multiset_axioms;

    vstd::seq_lib::to_multiset_build(a, h);
}

/// An item that a sequence holds not at all is no item of it.
proof fn lemma_count_contains<T>(a: Seq<T>, x: T)
    ensures
        a.to_multiset().count(x) > 0 <==> a.contains(x),
{
    a.to_multiset_ensures();
}

/// What survives of `a` against `right` holds an item as often as `a`, or
/// not at all if an item of `right` dominates it.
pub proof fn lemma_survivors_count<T: CanDominate>(a: Seq<T>, right: Seq<T>, x: T)
    ensures
        survivors(a, right).to_multiset().count(x) == if dominated_in(x, right) {
            0nat
        } else {
            a.to_multiset().count(x)
        },
    decreases a.len(),
{
    if a.len() == 0 {
        lemma_count_contains(a, x);
    } else {
        lemma_survivors_count(a.drop_last(), right, x);
        assert(a.drop_last().push(a.last()) =~= a);
        lemma_push_count(a.drop_last(), a.last(), x);
        if !dominated_in(a.last(), right) {
            lemma_push_count(survivors(a.drop_last(), right), a.last(), x);
        }
    }
}

/// What a thermal merge leaves of the first `n` items holds an item that no
/// item of `right` dominates as often as those items do.
pub proof fn lemma_picked_count<T: CanDominate>(l: Seq<T>, right: Seq<T>, ans: Seq<bool>, n: int, x: T)
    requires
        0 <= n <= l.len(),
    ensures
        !dominated_in(x, right) ==> picked(l, right, ans, n).to_multiset().count(x) == l.take(
            n,
        ).to_multiset().count(x),
    decreases n,
{
    if n <= 0 {
        assert(l.take(n) =~= Seq::<T>::empty());
        assert(picked(l, right, ans, n) =~= Seq::<T>::empty());
    } else {
        lemma_picked_count(l, right, ans, n - 1, x);
        assert(l.take(n) =~= l.take(n - 1).push(l[n - 1]));
        lemma_push_count(l.take(n - 1), l[n - 1], x);
        if !dominated_in(l[n - 1], right) || ans[n - 1] {
            lemma_push_count(picked(l, right, ans, n - 1), l[n - 1], x);
        }
    }
}

/// An item is dominated in two sequences, one after the other, exactly if
/// it is dominated in one of them.
proof fn lemma_dominated_concat<T: CanDominate>(x: T, a: Seq<T>, b: Seq<T>)
    ensures
        dominated_in(x, a + b) <==> dominated_in(x, a) || dominated_in(x, b),
{
    let s = a + b;
    if dominated_in(x, s) {
        let j = choose|j: int| 0 <= j < s.len() && (#[trigger] s[j]).dominates_spec(&x);
        if j < a.len() {
            assert(a[j] == s[j]);
        } else {
            assert(b[j - a.len()] == s[j]);
        }
    }
    if dominated_in(x, a) {
        let j = choose|j: int| 0 <= j < a.len() && (#[trigger] a[j]).dominates_spec(&x);
        assert(s[j] == a[j]);
    }
    if dominated_in(x, b) {
        let j = choose|j: int| 0 <= j < b.len() && (#[trigger] b[j]).dominates_spec(&x);
        assert(s[j + a.len()] == b[j]);
    }
}

/// The items that no later item dominates, of two sequences one after the
/// other: those of the first that no item of the second dominates, and
/// those of the second.
pub proof fn lemma_later_split<T: CanDominate>(lo: Seq<T>, hi: Seq<T>, x: T)
    ensures
        undominated_later(lo + hi).to_multiset().count(x) == (if dominated_in(x, hi) {
            0nat
        } else {
            undominated_later(lo).to_multiset().count(x)
        }) + undominated_later(hi).to_multiset().count(x),
    decreases lo.len(),
{
    if lo.len() == 0 {
        assert(lo + hi =~= hi);
        lemma_count_contains(undominated_later(lo), x);
    } else {
        let s = lo + hi;
        let h = lo[0];
        assert(s[0] == h);
        assert(s.skip(1) =~= lo.skip(1) + hi);
        lemma_later_split(lo.skip(1), hi, x);
        lemma_dominated_concat(h, lo.skip(1), hi);
        let rest_s = undominated_later(s.skip(1));
        let rest_lo = undominated_later(lo.skip(1));
        lemma_concat_count(seq![h], rest_s, x);
        lemma_concat_count(seq![h], rest_lo, x);
        lemma_single_count(h, x);
    }
}

/// Every thermal skyline holds the items that no later item dominates,
/// each as often at least.
pub proof fn lemma_thermal_holds_later<T: CanDominate, F: Fn(&T, &Vec<&T>) -> bool>(
    keep: &F,
    s: Seq<T>,
    out: Seq<T>,
    x: T,
)
    requires
        is_thermal(keep, s, out),
    ensures
        undominated_later(s).to_multiset().count(x) <= out.to_multiset().count(x),
    decreases s.len(),
{
    if s.len() <= 1 {
        if s.len() == 1 {
            assert(s.skip(1) =~= Seq::<T>::empty());
            assert(!dominated_in(s[0], s.skip(1)));
            assert(undominated_later(s.skip(1)) =~= Seq::<T>::empty());
            assert(seq![s[0]] + undominated_later(s.skip(1)) =~= s);
        }
    } else {
        let mid = (s.len() / 2) as int;
        let lo = s.take(mid);
        let hi = s.skip(mid);
        let (l, r, kept) = choose|l: Seq<T>, r: Seq<T>, kept: Seq<T>|
            is_thermal(keep, lo, l) && is_thermal(keep, hi, r) && #[trigger] is_merge(
                keep,
                l,
                r,
                kept,
            ) && out == kept + r;
        let ans = choose|ans: Seq<bool>|
            merge_answers(keep, l, r, ans) && kept == #[trigger] picked(l, r, ans, l.len() as int);
        lemma_thermal_holds_later(keep, lo, l, x);
        lemma_thermal_holds_later(keep, hi, r, x);
        assert(lo + hi =~= s);
        lemma_later_split(lo, hi, x);
        lemma_concat_count(kept, r, x);
        lemma_picked_count(l, r, ans, l.len() as int, x);
        assert(l.take(l.len() as int) =~= l);
        lemma_thermal_part(keep, hi, r);
        if dominated_in(x, r) {
            let j = choose|j: int| 0 <= j < r.len() && (#[trigger] r[j]).dominates_spec(&x);
            assert(hi.contains(r[j]));
            let v = choose|v: int| 0 <= v < hi.len() && hi[v] == r[j];
            assert(hi[v].dominates_spec(&x));
            assert(dominated_in(x, hi));
        }
    }
}

/// Where dominance is transitive, every item is in the skyline or
/// dominated by an item of it.
pub proof fn lemma_skyline_covers<T: CanDominate>(s: Seq<T>, h: T)
    requires
        transitive_on(s),
        s.contains(h),
    ensures
        skyline(s).contains(h) || dominated_in(h, skyline(s)),
    decreases s.len(),
{
    if s.len() > 1 {
        let mid = (s.len() / 2) as int;
        let lo = s.take(mid);
        let hi = s.skip(mid);
        let sl = skyline(lo);
        let sh = skyline(hi);
        let kept = survivors(sl, sh);
        let out = kept + sh;
        lemma_transitive_halves(s, mid);
        crate::pareto::skyline::lemma_skyline(lo);
        crate::pareto::skyline::lemma_skyline(hi);
        let i = choose|i: int| 0 <= i < s.len() && s[i] == h;
        if i >= mid {
            assert(hi[i - mid] == h);
            lemma_skyline_covers(hi, h);
            if sh.contains(h) {
                let w = choose|w: int| 0 <= w < sh.len() && sh[w] == h;
                assert(out[kept.len() + w] == h);
            } else {
                let w = choose|w: int| 0 <= w < sh.len() && (#[trigger] sh[w]).dominates_spec(&h);
                assert(out[kept.len() + w] == sh[w]);
            }
        } else {
            assert(lo[i] == h);
            lemma_skyline_covers(lo, h);
            // an item of the lower skyline that is `h` or dominates it
            let z = if sl.contains(h) {
                h
            } else {
                sl[choose|w: int| 0 <= w < sl.len() && (#[trigger] sl[w]).dominates_spec(&h)]
            };
            assert(sl.contains(z));
            assert(lo.contains(z));
            let zi = choose|zi: int| 0 <= zi < lo.len() && lo[zi] == z;
            assert(s[zi] == z);
            assert(s.contains(z));
            crate::pareto::skyline::lemma_survivors_multiset(sl, sh);
            lemma_survivors_count(sl, sh, z);
            lemma_count_contains(sl, z);
            lemma_count_contains(kept, z);
            if !dominated_in(z, sh) {
                assert(kept.contains(z));
                let w = choose|w: int| 0 <= w < kept.len() && kept[w] == z;
                assert(out[w] == z);
            } else {
                let w = choose|w: int| 0 <= w < sh.len() && (#[trigger] sh[w]).dominates_spec(&z);
                assert(hi.contains(sh[w]));
                let v = choose|v: int| 0 <= v < hi.len() && hi[v] == sh[w];
                assert(s[v + mid] == sh[w]);
                assert(s.contains(sh[w]));
                assert(out[kept.len() + w] == sh[w]);
                if z != h {
                    assert(sh[w].dominates_spec(&z) && z.dominates_spec(&h));
                    assert(sh[w].dominates_spec(&h));
                }
            }
        }
    }
}

/// Dominance that is transitive among the items of a sequence is
/// transitive among those of its halves.
proof fn lemma_transitive_halves<T: CanDominate>(s: Seq<T>, mid: int)
    requires
        transitive_on(s),
        0 <= mid <= s.len(),
    ensures
        transitive_on(s.take(mid)),
        transitive_on(s.skip(mid)),
{
    let lo = s.take(mid);
    let hi = s.skip(mid);
    assert forall|x: T| lo.contains(x) implies s.contains(x) by {
        let i = choose|i: int| 0 <= i < lo.len() && lo[i] == x;
        assert(s[i] == x);
    }
    assert forall|x: T| hi.contains(x) implies s.contains(x) by {
        let i = choose|i: int| 0 <= i < hi.len() && hi[i] == x;
        assert(s[i + mid] == x);
    }
}

/// Where dominance is transitive, the skyline holds only items that no
/// later item dominates, and none more often.
pub proof fn lemma_skyline_within_later<T: CanDominate>(s: Seq<T>, x: T)
    requires
        transitive_on(s),
    ensures
        skyline(s).to_multiset().count(x) <= undominated_later(s).to_multiset().count(x),
    decreases s.len(),
{
    if s.len() <= 1 {
        if s.len() == 1 {
            assert(s.skip(1) =~= Seq::<T>::empty());
            assert(!dominated_in(s[0], s.skip(1)));
            assert(undominated_later(s.skip(1)) =~= Seq::<T>::empty());
            assert(seq![s[0]] + undominated_later(s.skip(1)) =~= s);
        }
    } else {
        let mid = (s.len() / 2) as int;
        let lo = s.take(mid);
        let hi = s.skip(mid);
        let sl = skyline(lo);
        let sh = skyline(hi);
        lemma_transitive_halves(s, mid);
        lemma_skyline_within_later(lo, x);
        lemma_skyline_within_later(hi, x);
        assert(lo + hi =~= s);
        lemma_later_split(lo, hi, x);
        lemma_concat_count(survivors(sl, sh), sh, x);
        lemma_survivors_count(sl, sh, x);
        lemma_count_contains(sl, x);
        if !dominated_in(x, sh) && sl.contains(x) && dominated_in(x, hi) {
            let j = choose|j: int| 0 <= j < hi.len() && (#[trigger] hi[j]).dominates_spec(&x);
            let h = hi[j];
            assert(hi.contains(h));
            lemma_skyline_covers(hi, h);
            crate::pareto::skyline::lemma_skyline(lo);
            crate::pareto::skyline::lemma_skyline(hi);
            assert(lo.contains(x));
            let xi = choose|xi: int| 0 <= xi < lo.len() && lo[xi] == x;
            assert(s[xi] == x);
            assert(s[j + mid] == h);
            if sh.contains(h) {
                let w = choose|w: int| 0 <= w < sh.len() && sh[w] == h;
                assert(sh[w].dominates_spec(&x));
            } else {
                let w = choose|w: int| 0 <= w < sh.len() && (#[trigger] sh[w]).dominates_spec(&h);
                assert(hi.contains(sh[w]));
                let v = choose|v: int| 0 <= v < hi.len() && hi[v] == sh[w];
                assert(s[v + mid] == sh[w]);
                assert(s.contains(sh[w]) && s.contains(h) && s.contains(x));
                assert(sh[w].dominates_spec(&h) && h.dominates_spec(&x));
                assert(sh[w].dominates_spec(&x));
            }
            assert(false);
        }
    }
}

/// A sequence that holds no item more often than another is no longer.
pub proof fn lemma_part_no_longer<T>(a: Seq<T>, b: Seq<T>)
    requires
        a.to_multiset().subset_of(b.to_multiset()),
    ensures
        a.len() <= b.len(),
    decreases a.len(),
{
    broadcast use vstd::multiset::group_multiset_axioms;

    if a.len() > 0 {
        let x = a.last();
        let init = a.drop_last();
        assert(init.push(x) =~= a);
        vstd::seq_lib::to_multiset_build(init, x);
        lemma_count_contains(b, x);
        assert(a.to_multiset().count(x) > 0);
        assert(b.contains(x));
        let j = choose|j: int| 0 <= j < b.len() && b[j] == x;
        vstd::seq_lib::to_multiset_remove(b, j);
        let rest = b.remove(j);
        assert forall|y: T| init.to_multiset().count(y) <= rest.to_multiset().count(y) by {
            assert(a.to_multiset().count(y) <= b.to_multiset().count(y));
        }
        lemma_part_no_longer(init, rest);
    }
}

/// Where dominance is transitive among the items, every thermal skyline of
/// the sorted items holds Kung's skyline: every item of it as often at
/// least, so that it is no shorter.
pub proof fn lemma_thermal_holds_kung<T: CanDominate, F: Fn(&T, &Vec<&T>) -> bool>(
    keep: &F,
    data: Seq<T>,
    out: Seq<T>,
)
    requires
        transitive_on(data),
        is_thermal(keep, sorted_by_first(data), out),
    ensures
        kung(data).to_multiset().subset_of(out.to_multiset()),
        kung(data).len() <= out.len(),
{
    let s = sorted_by_first(data);
    lemma_sorted_same(data);
    assert(transitive_on(s));
    assert forall|x: T| kung(data).to_multiset().count(x) <= out.to_multiset().count(x) by {
        lemma_skyline_within_later(s, x);
        lemma_thermal_holds_later(keep, s, out, x);
    }
    lemma_part_no_longer(kung(data), out);
}

} // verus!
