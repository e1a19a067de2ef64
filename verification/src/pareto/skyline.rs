//! Kung's divide-and-conquer skyline and what holds of it.

use crate::pareto::dominance::{first_follows, transitive_on, CanDominate};
use crate::pareto::order::{
    ascending, goes_before, holds_apart, in_order, lemma_sorted_apart, lemma_sorted_ascending,
    lemma_sorted_fixed, lemma_sorted_in_order, lemma_sorted_same, reversed, sort_by_first,
    sorted_by_first,
};
use vstd::prelude::*;

verus! {

/// Some item of `right` dominates `l`.
pub open spec fn dominated_in<T: CanDominate>(l: T, right: Seq<T>) -> bool {
    exists|j: int| 0 <= j < right.len() && (#[trigger] right[j]).dominates_spec(&l)
}

/// The items of `left` that no item of `right` dominates, in their order.
pub open spec fn survivors<T: CanDominate>(left: Seq<T>, right: Seq<T>) -> Seq<T>
    decreases left.len(),
{
    if left.len() == 0 {
        left
    } else if dominated_in(left.last(), right) {
        survivors(left.drop_last(), right)
    } else {
        survivors(left.drop_last(), right).push(left.last())
    }
}

/// The skyline of a sequence by divide and conquer: a sequence of one item
/// at most is its own skyline; a longer one is split in the middle, and its
/// skyline is what no item of the upper half's skyline dominates of the
/// lower half's skyline, followed by the upper half's skyline.
pub open spec fn skyline<T: CanDominate>(s: Seq<T>) -> Seq<T>
    decreases s.len(),
{
    if s.len() <= 1 {
        s
    } else {
        let mid = (s.len() / 2) as int;
        let right = skyline(s.skip(mid));
        survivors(skyline(s.take(mid)), right) + right
    }
}

/// Kung's skyline of `s`: the skyline of `s` sorted by the first coordinate.
pub open spec fn kung<T: CanDominate>(s: Seq<T>) -> Seq<T> {
    skyline(sorted_by_first(s))
}

/// No item dominates an item that comes before it.
pub open spec fn clean<T: CanDominate>(s: Seq<T>) -> bool {
    forall|i: int, j: int|
        #![trigger s[i], s[j]]
        0 <= i < j < s.len() ==> !s[j].dominates_spec(&s[i])
}

/// No item dominates another item.
pub open spec fn non_dominated<T: CanDominate>(s: Seq<T>) -> bool {
    forall|i: int, j: int|
        #![trigger s[i], s[j]]
        0 <= i < s.len() && 0 <= j < s.len() && i != j ==> !s[i].dominates_spec(&s[j])
}

/// No item at another position of `s` dominates the item at position `i`.
pub open spec fn unbeaten<T: CanDominate>(s: Seq<T>, i: int) -> bool {
    forall|j: int| 0 <= j < s.len() && j != i ==> !(#[trigger] s[j]).dominates_spec(&s[i])
}

/// Every item of `s` that no item at another position dominates is an item
/// of `out`.
pub open spec fn keeps_unbeaten<T: CanDominate>(out: Seq<T>, s: Seq<T>) -> bool {
    forall|i: int| 0 <= i < s.len() && unbeaten(s, i) ==> out.contains(#[trigger] s[i])
}

/// `b` holds `x` and, later, `y`.
pub open spec fn holds_in_order<T>(b: Seq<T>, x: T, y: T) -> bool {
    exists|u: int, v: int| 0 <= u < v < b.len() && #[trigger] b[u] == x && #[trigger] b[v] == y
}

/// Every item of `a` is an item of `b`, and every two items of `a` are two
/// items of `b` in the same order.
pub open spec fn embeds<T>(a: Seq<T>, b: Seq<T>) -> bool {
    &&& forall|i: int| 0 <= i < a.len() ==> b.contains(#[trigger] a[i])
    &&& forall|i: int, j: int|
        0 <= i < j < a.len() ==> holds_in_order(b, #[trigger] a[i], #[trigger] a[j])
}

/// What survives is part of `left`, in its order, and dominated by no item
/// of `right`.
pub proof fn lemma_survivors<T: CanDominate>(left: Seq<T>, right: Seq<T>)
    ensures
        embeds(survivors(left, right), left),
        survivors(left, right).len() <= left.len(),
        forall|i: int|
            0 <= i < survivors(left, right).len() ==> !dominated_in(
                #[trigger] survivors(left, right)[i],
                right,
            ),
    decreases left.len(),
{
    if left.len() > 0 {
        let init = left.drop_last();
        let head = survivors(init, right);
        let out = survivors(left, right);
        lemma_survivors(init, right);
        assert forall|i: int| 0 <= i < out.len() implies left.contains(#[trigger] out[i]) by {
            if i < head.len() {
                assert(init.contains(head[i]));
                let u = choose|u: int| 0 <= u < init.len() && init[u] == head[i];
                assert(left[u] == out[i]);
            } else {
                assert(left[left.len() - 1] == out[i]);
            }
        }
        assert forall|i: int, j: int| 0 <= i < j < out.len() implies holds_in_order(left, #[trigger] out[i], #[trigger] out[j]) by {
            if j < head.len() {
                let (u, v) = choose|u: int, v: int|
            0 <= u < v < init.len() && #[trigger] init[u] == head[i] && #[trigger] init[v] == head[j];
                assert(out[i] == left[u] && out[j] == left[v]);
            } else {
                assert(init.contains(head[i]));
                let u = choose|u: int| 0 <= u < init.len() && init[u] == head[i];
                assert(out[i] == left[u] && out[j] == left[left.len() - 1]);
            }
        }
    }
}

/// Where no item of `right` dominates an item of `left`, all of `left`
/// survives.
pub proof fn lemma_survivors_all<T: CanDominate>(left: Seq<T>, right: Seq<T>)
    requires
        forall|i: int| 0 <= i < left.len() ==> !dominated_in(#[trigger] left[i], right),
    ensures
        survivors(left, right) == left,
    decreases left.len(),
{
    if left.len() > 0 {
        let init = left.drop_last();
        assert forall|i: int| 0 <= i < init.len() implies !dominated_in(
            #[trigger] init[i],
            right,
        ) by {
            assert(init[i] == left[i]);
        }
        lemma_survivors_all(init, right);
        assert(!dominated_in(left[left.len() - 1], right));
        assert(init.push(left.last()) =~= left);
    }
}

/// Being part of a sequence in its order passes on.
pub proof fn lemma_embeds_trans<T>(a: Seq<T>, b: Seq<T>, c: Seq<T>)
    requires
        embeds(a, b),
        embeds(b, c),
    ensures
        embeds(a, c),
{
    assert forall|i: int| 0 <= i < a.len() implies c.contains(#[trigger] a[i]) by {
        assert(b.contains(a[i]));
        let u = choose|u: int| 0 <= u < b.len() && b[u] == a[i];
        assert(c.contains(b[u]));
    }
    assert forall|i: int, j: int| 0 <= i < j < a.len() implies holds_in_order(c, #[trigger] a[i], #[trigger] a[j]) by {
        let (u, v) = choose|u: int, v: int|
            0 <= u < v < b.len() && #[trigger] b[u] == a[i] && #[trigger] b[v] == a[j];
        let (x, y) = choose|x: int, y: int|
            0 <= x < y < c.len() && #[trigger] c[x] == b[u] && #[trigger] c[y] == b[v];
        assert(a[i] == c[x] && a[j] == c[y]);
    }
}

/// Parts of the two halves of a sequence, one after the other, are part of
/// the sequence.
pub proof fn lemma_embeds_halves<T>(a1: Seq<T>, a2: Seq<T>, s: Seq<T>, mid: int)
    requires
        0 <= mid <= s.len(),
        embeds(a1, s.take(mid)),
        embeds(a2, s.skip(mid)),
    ensures
        embeds(a1 + a2, s),
{
    let a = a1 + a2;
    let lo = s.take(mid);
    let hi = s.skip(mid);
    assert forall|i: int| 0 <= i < a.len() implies exists|u: int|
        0 <= u < s.len() && s[u] == #[trigger] a[i] && (i < a1.len() ==> u < mid) && (i
            >= a1.len() ==> u >= mid) by {
        if i < a1.len() {
            assert(lo.contains(a1[i]));
            let u = choose|u: int| 0 <= u < lo.len() && lo[u] == a1[i];
            assert(s[u] == a[i]);
        } else {
            assert(hi.contains(a2[i - a1.len()]));
            let u = choose|u: int| 0 <= u < hi.len() && hi[u] == a2[i - a1.len()];
            assert(s[u + mid] == a[i]);
        }
    }
    assert forall|i: int| 0 <= i < a.len() implies s.contains(#[trigger] a[i]) by {
        let u = choose|u: int|
            0 <= u < s.len() && s[u] == a[i] && (i < a1.len() ==> u < mid) && (i >= a1.len()
                ==> u >= mid);
        assert(s[u] == a[i]);
    }
    assert forall|i: int, j: int| 0 <= i < j < a.len() implies holds_in_order(s, #[trigger] a[i], #[trigger] a[j]) by {
        if j < a1.len() {
            let (u, v) = choose|u: int, v: int|
            0 <= u < v < lo.len() && #[trigger] lo[u] == a1[i] && #[trigger] lo[v] == a1[j];
            assert(a[i] == s[u] && a[j] == s[v]);
        } else if i >= a1.len() {
            let (u, v) = choose|u: int, v: int|
            0 <= u < v < hi.len() && #[trigger] hi[u] == a2[i - a1.len()] && #[trigger] hi[v] == a2[j - a1.len()];
            assert(a[i] == s[u + mid] && a[j] == s[v + mid]);
        } else {
            let u = choose|u: int|
                0 <= u < s.len() && s[u] == a[i] && (i < a1.len() ==> u < mid) && (i
                    >= a1.len() ==> u >= mid);
            let v = choose|v: int|
                0 <= v < s.len() && s[v] == a[j] && (j < a1.len() ==> v < mid) && (j
                    >= a1.len() ==> v >= mid);
            assert(a[i] == s[u] && a[j] == s[v]);
        }
    }
}

/// A sequence is part of itself.
pub proof fn lemma_embeds_self<T>(s: Seq<T>)
    ensures
        embeds(s, s),
{
    assert forall|i: int, j: int| 0 <= i < j < s.len() implies holds_in_order(s, #[trigger] s[i], #[trigger] s[j]) by {
        assert(s[i] == s[i] && s[j] == s[j]);
    }
}

/// The skyline is part of the sequence, in its order, and no longer; and in
/// it no item dominates an item that comes before it.
pub proof fn lemma_skyline<T: CanDominate>(s: Seq<T>)
    ensures
        embeds(skyline(s), s),
        skyline(s).len() <= s.len(),
        clean(skyline(s)),
    decreases s.len(),
{
    if s.len() <= 1 {
        lemma_embeds_self(s);
    } else {
        let mid = (s.len() / 2) as int;
        let left = skyline(s.take(mid));
        let right = skyline(s.skip(mid));
        let kept = survivors(left, right);
        lemma_skyline(s.take(mid));
        lemma_skyline(s.skip(mid));
        lemma_survivors(left, right);
        lemma_embeds_trans(kept, left, s.take(mid));
        lemma_embeds_halves(kept, right, s, mid);
        let out = kept + right;
        assert forall|i: int, j: int|
            #![trigger out[i], out[j]]
            0 <= i < j < out.len() implies !out[j].dominates_spec(&out[i]) by {
            if j < kept.len() {
                let (u, v) = choose|u: int, v: int|
            0 <= u < v < left.len() && #[trigger] left[u] == kept[i] && #[trigger] left[v] == kept[j];
                assert(!left[v].dominates_spec(&left[u]));
            } else if i >= kept.len() {
                assert(!right[j - kept.len()].dominates_spec(&right[i - kept.len()]));
            } else {
                assert(!dominated_in(kept[i], right));
                assert(out[j] == right[j - kept.len()]);
            }
        }
    }
}

/// Where no item dominates an item that comes before it, the skyline is the
/// whole sequence.
pub proof fn lemma_skyline_fixed<T: CanDominate>(s: Seq<T>)
    requires
        clean(s),
    ensures
        skyline(s) == s,
    decreases s.len(),
{
    if s.len() > 1 {
        let mid = (s.len() / 2) as int;
        let lo = s.take(mid);
        let hi = s.skip(mid);
        assert(clean(lo)) by {
            assert forall|i: int, j: int|
                #![trigger lo[i], lo[j]]
                0 <= i < j < lo.len() implies !lo[j].dominates_spec(&lo[i]) by {
                assert(lo[i] == s[i] && lo[j] == s[j]);
            }
        }
        assert(clean(hi)) by {
            assert forall|i: int, j: int|
                #![trigger hi[i], hi[j]]
                0 <= i < j < hi.len() implies !hi[j].dominates_spec(&hi[i]) by {
                assert(hi[i] == s[i + mid] && hi[j] == s[j + mid]);
            }
        }
        lemma_skyline_fixed(lo);
        lemma_skyline_fixed(hi);
        assert forall|i: int| 0 <= i < lo.len() implies !dominated_in(#[trigger] lo[i], hi) by {
            if dominated_in(lo[i], hi) {
                let j = choose|j: int| 0 <= j < hi.len() && (#[trigger] hi[j]).dominates_spec(&lo[i]);
                assert(hi[j] == s[j + mid] && lo[i] == s[i]);
            }
        }
        lemma_survivors_all(lo, hi);
        assert(lo + hi =~= s);
    }
}

/// What is part of a sequence with ascending keys has ascending keys.
pub proof fn lemma_embeds_ascending<T: CanDominate>(a: Seq<T>, b: Seq<T>)
    requires
        embeds(a, b),
        ascending(b),
    ensures
        ascending(a),
{
    assert forall|i: int, j: int| 0 <= i < j < a.len() implies (#[trigger] a[i]).first() <= (
    #[trigger] a[j]).first() by {
        let (u, v) = choose|u: int, v: int|
            0 <= u < v < b.len() && #[trigger] b[u] == a[i] && #[trigger] b[v] == a[j];
        assert(b[u].first() <= b[v].first());
    }
}

/// Kung's skyline holds only items of the input, and no more of them than
/// the input has; its keys ascend; and in it no item dominates an item that
/// comes before it.
pub proof fn lemma_kung<T: CanDominate>(s: Seq<T>)
    ensures
        forall|i: int| 0 <= i < kung(s).len() ==> s.contains(#[trigger] kung(s)[i]),
        kung(s).len() <= s.len(),
        ascending(kung(s)),
        clean(kung(s)),
{
    let sorted = sorted_by_first(s);
    lemma_sorted_same(s);
    lemma_sorted_ascending(s);
    lemma_skyline(sorted);
    lemma_embeds_ascending(kung(s), sorted);
    assert forall|i: int| 0 <= i < kung(s).len() implies s.contains(#[trigger] kung(s)[i]) by {
        assert(sorted.contains(kung(s)[i]));
    }
}

/// What is part of a sequence in which no item goes before an earlier one
/// is such a sequence.
pub proof fn lemma_embeds_in_order<T: CanDominate>(a: Seq<T>, b: Seq<T>)
    requires
        embeds(a, b),
        in_order(b),
    ensures
        in_order(a),
{
    assert forall|i: int, j: int|
        #![trigger a[i], a[j]]
        0 <= i < j < a.len() implies !goes_before(a[j], a[i]) by {
        let (u, v) = choose|u: int, v: int|
            0 <= u < v < b.len() && #[trigger] b[u] == a[i] && #[trigger] b[v] == a[j];
        assert(!goes_before(b[v], b[u]));
    }
}

/// Where dominance is transitive among the items, no item of Kung's
/// skyline goes before an earlier one.
pub proof fn lemma_kung_in_order<T: CanDominate>(s: Seq<T>)
    requires
        transitive_on(s),
    ensures
        in_order(kung(s)),
{
    lemma_sorted_in_order(s);
    lemma_skyline(sorted_by_first(s));
    lemma_embeds_in_order(kung(s), sorted_by_first(s));
}

/// Where dominance is transitive among the items and the first coordinate
/// of a dominator is no smaller, no item of Kung's skyline is dominated by
/// another item of it.
pub proof fn lemma_kung_non_dominated<T: CanDominate>(s: Seq<T>)
    requires
        transitive_on(s),
        first_follows(s),
    ensures
        non_dominated(kung(s)),
{
    lemma_kung(s);
    lemma_kung_in_order(s);
    let out = kung(s);
    assert forall|i: int, j: int|
        #![trigger out[i], out[j]]
        0 <= i < out.len() && 0 <= j < out.len() && i != j implies !out[i].dominates_spec(
        &out[j],
    ) by {
        if i < j {
            if out[i].dominates_spec(&out[j]) {
                assert(s.contains(out[i]) && s.contains(out[j]));
                assert(out[i].first() >= out[j].first());
                assert(out[i].first() <= out[j].first());
                assert(!goes_before(out[j], out[i]));
                assert(out[j].dominates_spec(&out[i]));
            }
        } else {
            assert(!out[i].dominates_spec(&out[j]));
        }
    }
}

/// A sequence that holds an item at two positions holds it twice at least,
/// and a sequence that holds an item twice at least holds it at two
/// positions.
proof fn lemma_twice<T>(a: Seq<T>, x: T)
    ensures
        a.to_multiset().count(x) >= 2 <==> holds_apart(a, x, x),
{
    broadcast use vstd::multiset::group_multiset_axioms;

    a.to_multiset_ensures();
    if a.to_multiset().count(x) >= 2 {
        assert(a.contains(x));
        let u = choose|u: int| 0 <= u < a.len() && a[u] == x;
        let rest = a.remove(u);
        vstd::seq_lib::to_multiset_remove(a, u);
        rest.to_multiset_ensures();
        assert(rest.to_multiset().count(x) >= 1);
        assert(rest.contains(x));
        let w = choose|w: int| 0 <= w < rest.len() && rest[w] == x;
        let v = if w < u {
            w
        } else {
            w + 1
        };
        assert(rest.len() == a.len() - 1);
        assert(rest[w] == a[v]);
        assert(a[v] == x && a[u] == x && u != v);
    }
    if holds_apart(a, x, x) {
        let (u, v) = choose|u: int, v: int|
            0 <= u < a.len() && 0 <= v < a.len() && u != v && #[trigger] a[u] == x && #[trigger] a[v]
                == x;
        let rest = a.remove(u);
        vstd::seq_lib::to_multiset_remove(a, u);
        rest.to_multiset_ensures();
        let w = if v < u {
            v
        } else {
            v - 1
        };
        assert(rest.len() == a.len() - 1);
        assert(rest[w] == a[v]);
        assert(rest.contains(x));
        assert(rest.to_multiset().count(x) >= 1);
        assert(a.to_multiset().contains(x));
        assert(rest.to_multiset() == a.to_multiset().remove(x));
        assert(a.to_multiset().count(x) == rest.to_multiset().count(x) + 1);
    }
}

/// Items taken from a sequence in which no item dominates another, none
/// more often than the sequence holds it, are such a sequence, in whatever
/// order.
pub proof fn lemma_part_non_dominated<T: CanDominate>(a: Seq<T>, b: Seq<T>)
    requires
        non_dominated(a),
        b.to_multiset().subset_of(a.to_multiset()),
    ensures
        non_dominated(b),
{
    a.to_multiset_ensures();
    b.to_multiset_ensures();
    assert forall|i: int, j: int|
        #![trigger b[i], b[j]]
        0 <= i < b.len() && 0 <= j < b.len() && i != j implies !b[i].dominates_spec(&b[j]) by {
        let x = b[i];
        let y = b[j];
        assert(b.contains(x) && b.contains(y));
        assert(b.to_multiset().count(x) <= a.to_multiset().count(x));
        assert(b.to_multiset().count(y) <= a.to_multiset().count(y));
        assert(a.contains(x) && a.contains(y));
        if x == y {
            lemma_twice(b, x);
            assert(holds_apart(b, x, x));
            lemma_twice(a, x);
            let (u, v) = choose|u: int, v: int|
                0 <= u < a.len() && 0 <= v < a.len() && u != v && #[trigger] a[u] == x
                    && #[trigger] a[v] == x;
            assert(!a[u].dominates_spec(&a[v]));
        } else {
            let u = choose|u: int| 0 <= u < a.len() && a[u] == x;
            let v = choose|v: int| 0 <= v < a.len() && a[v] == y;
            assert(!a[u].dominates_spec(&a[v]));
        }
    }
}

/// An item of `left` that no item of `right` dominates survives.
pub proof fn lemma_survives<T: CanDominate>(left: Seq<T>, right: Seq<T>, i: int)
    requires
        0 <= i < left.len(),
        !dominated_in(left[i], right),
    ensures
        survivors(left, right).contains(left[i]),
    decreases left.len(),
{
    let init = left.drop_last();
    let head = survivors(init, right);
    if i < left.len() - 1 {
        assert(init[i] == left[i]);
        lemma_survives(init, right, i);
        let k = choose|k: int| 0 <= k < head.len() && head[k] == left[i];
        if !dominated_in(left.last(), right) {
            assert(head.push(left.last())[k] == left[i]);
        }
    } else {
        assert(head.push(left.last())[head.len() as int] == left[i]);
    }
}

/// The skyline holds every item that no item at another position
/// dominates.
pub proof fn lemma_skyline_unbeaten<T: CanDominate>(s: Seq<T>, i: int)
    requires
        0 <= i < s.len(),
        unbeaten(s, i),
    ensures
        skyline(s).contains(s[i]),
    decreases s.len(),
{
    if s.len() <= 1 {
        assert(skyline(s)[i] == s[i]);
    } else {
        let mid = (s.len() / 2) as int;
        let lo = s.take(mid);
        let hi = s.skip(mid);
        let l = skyline(lo);
        let r = skyline(hi);
        let kept = survivors(l, r);
        let out = kept + r;
        if i < mid {
            assert(lo[i] == s[i]);
            assert(unbeaten(lo, i)) by {
                assert forall|j: int| 0 <= j < lo.len() && j != i implies !(
                #[trigger] lo[j]).dominates_spec(&lo[i]) by {
                    assert(lo[j] == s[j]);
                }
            }
            lemma_skyline_unbeaten(lo, i);
            let a = choose|a: int| 0 <= a < l.len() && l[a] == s[i];
            lemma_skyline(hi);
            assert(!dominated_in(l[a], r)) by {
                if dominated_in(l[a], r) {
                    let j = choose|j: int| 0 <= j < r.len() && (#[trigger] r[j]).dominates_spec(&l[a]);
                    assert(hi.contains(r[j]));
                    let v = choose|v: int| 0 <= v < hi.len() && hi[v] == r[j];
                    assert(s[v + mid] == r[j]);
                }
            }
            lemma_survives(l, r, a);
            let w = choose|w: int| 0 <= w < kept.len() && kept[w] == s[i];
            assert(out[w] == s[i]);
        } else {
            assert(hi[i - mid] == s[i]);
            assert(unbeaten(hi, i - mid)) by {
                assert forall|j: int| 0 <= j < hi.len() && j != i - mid implies !(
                #[trigger] hi[j]).dominates_spec(&hi[i - mid]) by {
                    assert(hi[j] == s[j + mid]);
                }
            }
            lemma_skyline_unbeaten(hi, i - mid);
            let w = choose|w: int| 0 <= w < r.len() && r[w] == s[i];
            assert(out[kept.len() + w] == s[i]);
        }
    }
}

/// An item that no item at another position dominates stays so after the
/// sort.
pub proof fn lemma_unbeaten_sorted<T: CanDominate>(s: Seq<T>, i: int, u: int)
    requires
        0 <= i < s.len(),
        unbeaten(s, i),
        0 <= u < sorted_by_first(s).len(),
        sorted_by_first(s)[u] == s[i],
    ensures
        unbeaten(sorted_by_first(s), u),
{
    let sorted = sorted_by_first(s);
    lemma_sorted_apart(s);
    assert forall|v: int| 0 <= v < sorted.len() && v != u implies !(
    #[trigger] sorted[v]).dominates_spec(&sorted[u]) by {
        assert(holds_apart(s, sorted[v], sorted[u]));
        let (a, b) = choose|a: int, b: int|
            0 <= a < s.len() && 0 <= b < s.len() && a != b && #[trigger] s[a] == sorted[v]
                && #[trigger] s[b] == sorted[u];
        if a != i {
            assert(!s[a].dominates_spec(&s[i]));
        } else {
            assert(!s[b].dominates_spec(&s[i]));
        }
    }
}

/// Kung's skyline holds every item of the input that no item at another
/// position dominates.
pub proof fn lemma_kung_unbeaten<T: CanDominate>(s: Seq<T>)
    ensures
        keeps_unbeaten(kung(s), s),
{
    let sorted = sorted_by_first(s);
    lemma_sorted_same(s);
    assert forall|i: int| 0 <= i < s.len() && unbeaten(s, i) implies kung(s).contains(
        #[trigger] s[i],
    ) by {
        assert(s.contains(s[i]));
        assert(sorted.contains(s[i]));
        let u = choose|u: int| 0 <= u < sorted.len() && sorted[u] == s[i];
        lemma_unbeaten_sorted(s, i, u);
        lemma_skyline_unbeaten(sorted, u);
    }
}

/// What survives holds no item more often than `left`.
pub proof fn lemma_survivors_multiset<T: CanDominate>(left: Seq<T>, right: Seq<T>)
    ensures
        survivors(left, right).to_multiset().subset_of(left.to_multiset()),
    decreases left.len(),
{
    broadcast use vstd::seq_lib::to_multiset_build;
    broadcast use vstd::multiset::group_multiset_axioms;

    if left.len() > 0 {
        lemma_survivors_multiset(left.drop_last(), right);
        assert(left.drop_last().push(left.last()) =~= left);
        assert(left.to_multiset() == left.drop_last().to_multiset().insert(left.last()));
    }
}

/// The skyline holds no item more often than the sequence.
pub proof fn lemma_skyline_multiset<T: CanDominate>(s: Seq<T>)
    ensures
        skyline(s).to_multiset().subset_of(s.to_multiset()),
    decreases s.len(),
{
    broadcast use vstd::seq_lib::lemma_multiset_commutative;
    broadcast use vstd::multiset::group_multiset_axioms;

    if s.len() > 1 {
        let mid = (s.len() / 2) as int;
        let left = skyline(s.take(mid));
        let right = skyline(s.skip(mid));
        lemma_skyline_multiset(s.take(mid));
        lemma_skyline_multiset(s.skip(mid));
        lemma_survivors_multiset(left, right);
        let kept = survivors(left, right);
        assert(s.take(mid) + s.skip(mid) =~= s);
        assert((kept + right).to_multiset() == kept.to_multiset().add(right.to_multiset()));
        assert((s.take(mid) + s.skip(mid)).to_multiset() == s.take(mid).to_multiset().add(
            s.skip(mid).to_multiset(),
        ));
    }
}

/// Kung's skyline holds no item more often than the input.
pub proof fn lemma_kung_multiset<T: CanDominate>(s: Seq<T>)
    ensures
        kung(s).to_multiset().subset_of(s.to_multiset()),
{
    crate::pareto::order::lemma_sorted_multiset(s);
    lemma_skyline_multiset(sorted_by_first(s));
}

/// Where every dominated item survives the merges, there are no fewer
/// items left than where none does: the sorted input is no shorter than
/// Kung's skyline.
pub proof fn lemma_all_no_fewer_than_skyline<T: CanDominate>(s: Seq<T>)
    ensures
        kung(s).len() <= sorted_by_first(s).len(),
{
    lemma_kung(s);
    lemma_sorted_same(s);
}

/// Kung's skyline is idempotent where dominance is transitive among the
/// items: the skyline of a skyline is that skyline.
pub proof fn lemma_kung_idempotent<T: CanDominate>(s: Seq<T>)
    requires
        transitive_on(s),
    ensures
        kung(kung(s)) == kung(s),
{
    lemma_kung(s);
    lemma_kung_in_order(s);
    lemma_sorted_fixed(kung(s));
    lemma_skyline_fixed(kung(s));
}

/// Whether some item of `right` dominates `l`.
pub fn is_dominated<T: CanDominate>(l: &T, right: &Vec<T>) -> (b: bool)
    ensures
        b == dominated_in(*l, right@),
{
    let mut j: usize = 0;
    while j < right.len()
        invariant
            j <= right.len(),
            forall|k: int| 0 <= k < j ==> !(#[trigger] right[k]).dominates_spec(l),
        decreases right.len() - j,
    {
        if right[j].dominates(l) {
            return true;
        }
        j += 1;
    }
    false
}

/// Merges the skylines of the two halves: what no item of `right` dominates
/// of `left`, followed by `right`.
fn merge<T: CanDominate>(left: Vec<T>, right: Vec<T>) -> (out: Vec<T>)
    ensures
        out@ == survivors(left@, right@) + right@,
{
    let ghost all = left@;
    let ghost upper = right@;
    let mut right = right;
    let mut rest = reversed(left);
    assert(rest.len() == all.len());
    let mut out: Vec<T> = Vec::new();
    let mut k: usize = 0;
    assert(all.take(0) =~= Seq::<T>::empty());
    while rest.len() > 0
        invariant
            k + rest.len() == all.len(),
            all.len() <= usize::MAX,
            right@ == upper,
            rest@ == all.reverse().take(rest.len() as int),
            out@ == survivors(all.take(k as int), upper),
        decreases rest.len(),
    {
        let x = rest.pop().unwrap();
        assert(x == all[k as int]);
        proof {
            let next = all.take(k + 1);
            assert(next.drop_last() =~= all.take(k as int));
            assert(next.last() == x);
        }
        if !is_dominated(&x, &right) {
            out.push(x);
        }
        k += 1;
    }
    assert(all.take(k as int) =~= all);
    out.append(&mut right);
    out
}

/// The skyline of `data` by divide and conquer.
pub fn skyline_of<T: CanDominate>(data: Vec<T>) -> (out: Vec<T>)
    ensures
        out@ == skyline(data@),
    decreases data.len(),
{
    if data.len() <= 1 {
        return data;
    }
    let ghost all = data@;
    let mut left = data;
    let right = left.split_off(left.len() / 2);
    assert(left@ =~= all.take((all.len() / 2) as int));
    assert(right@ =~= all.skip((all.len() / 2) as int));
    let left_skyline = skyline_of(left);
    let right_skyline = skyline_of(right);
    merge(left_skyline, right_skyline)
}

/// Kung's skyline of `data`: the items are sorted by the first coordinate of
/// their scores, a dominated item before its dominator where the first
/// coordinates are equal, and the skyline is found by divide and conquer.
/// The result holds only items of `data`, and no more of them than `data`
/// has; it holds every item that no item at another position dominates; in
/// it no item dominates an item that comes before it. Where dominance is
/// transitive among the items and the first coordinate of a dominator is no
/// smaller, no item of the result is dominated by another.
pub fn kung_recursive<T: CanDominate>(data: Vec<T>) -> (out: Vec<T>)
    ensures
        out@ == kung(data@),
        forall|i: int| 0 <= i < out.len() ==> data@.contains(#[trigger] out[i]),
        out@.to_multiset().subset_of(data@.to_multiset()),
        out.len() <= data.len(),
        keeps_unbeaten(out@, data@),
        clean(out@),
        transitive_on(data@) && first_follows(data@) ==> non_dominated(out@),
{
    proof {
        lemma_kung(data@);
        lemma_kung_multiset(data@);
        lemma_kung_unbeaten(data@);
        if transitive_on(data@) && first_follows(data@) {
            lemma_kung_non_dominated(data@);
        }
    }
    skyline_of(sort_by_first(data))
}

} // verus!
