//! The sort by the first coordinate of the score, in which a dominated
//! item comes before its dominator where their first coordinates are equal.

use crate::pareto::dominance::{less_by_first, transitive_on, CanDominate};
use vstd::prelude::*;

verus! {

/// `x` goes before `y`: its key is less, or the keys are equal and `y`
/// dominates `x` while `x` does not dominate `y`.
pub open spec fn goes_before<T: CanDominate>(x: T, y: T) -> bool {
    x.first() < y.first() || (x.first() == y.first() && y.dominates_spec(&x) && !x.dominates_spec(
        &y,
    ))
}

/// Where `x` goes in `s`: before the first item that it goes before, at
/// the end where there is none.
pub open spec fn insert_pos<T: CanDominate>(s: Seq<T>, x: T) -> int
    decreases s.len(),
{
    if s.len() == 0 {
        0
    } else if goes_before(x, s[0]) {
        0
    } else {
        1 + insert_pos(s.skip(1), x)
    }
}

/// `s` in ascending order of the keys. Items of one key are in the order in
/// which `s` has them, but that an item goes before the first item of its
/// key that dominates it and that it does not dominate.
pub open spec fn sorted_by_first<T: CanDominate>(s: Seq<T>) -> Seq<T>
    decreases s.len(),
{
    if s.len() == 0 {
        s
    } else {
        let head = sorted_by_first(s.drop_last());
        head.insert(insert_pos(head, s.last()), s.last())
    }
}

/// The keys of `s` ascend.
pub open spec fn ascending<T: CanDominate>(s: Seq<T>) -> bool {
    forall|i: int, j: int| 0 <= i < j < s.len() ==> (#[trigger] s[i]).first() <= (#[trigger] s[j]).first()
}

/// No item of `s` goes before an earlier one: the keys ascend, and an item
/// dominates a later item of its key only if that dominates it too.
pub open spec fn in_order<T: CanDominate>(s: Seq<T>) -> bool {
    forall|i: int, j: int|
        #![trigger s[i], s[j]]
        0 <= i < j < s.len() ==> !goes_before(s[j], s[i])
}

/// `insert_pos` is a position of `s` or its end; `x` goes before the item
/// there, and before none of the items in front of it.
pub proof fn lemma_insert_pos<T: CanDominate>(s: Seq<T>, x: T)
    ensures
        0 <= insert_pos(s, x) <= s.len(),
        forall|i: int| 0 <= i < insert_pos(s, x) ==> !goes_before(x, #[trigger] s[i]),
        insert_pos(s, x) < s.len() ==> goes_before(x, s[insert_pos(s, x)]),
    decreases s.len(),
{
    if s.len() > 0 && !goes_before(x, s[0]) {
        let rest = s.skip(1);
        lemma_insert_pos(rest, x);
        let p = insert_pos(s, x);
        assert forall|i: int| 0 <= i < p implies !goes_before(x, #[trigger] s[i]) by {
            if i > 0 {
                assert(rest[i - 1] == s[i]);
            }
        }
        if p < s.len() {
            assert(rest[p - 1] == s[p]);
        }
    }
}

/// Sorting keeps the items: the result has the length of `s` and holds what
/// `s` holds.
pub proof fn lemma_sorted_same<T: CanDominate>(s: Seq<T>)
    ensures
        sorted_by_first(s).len() == s.len(),
        forall|x: T| sorted_by_first(s).contains(x) <==> s.contains(x),
    decreases s.len(),
{
    if s.len() > 0 {
        let head = sorted_by_first(s.drop_last());
        lemma_sorted_same(s.drop_last());
        lemma_insert_pos(head, s.last());
        let p = insert_pos(head, s.last());
        let r = head.insert(p, s.last());
        assert(r.len() == head.len() + 1);
        assert forall|x: T| r.contains(x) <==> s.contains(x) by {
            if r.contains(x) {
                let i = choose|i: int| 0 <= i < r.len() && r[i] == x;
                if i < p {
                    assert(head[i] == x);
                    assert(head.contains(x));
                    assert(s.drop_last().contains(x));
                    let j = choose|j: int| 0 <= j < s.drop_last().len() && s.drop_last()[j] == x;
                    assert(s.drop_last()[j] == s[j]);
                    assert(s[j] == x);
                } else if i == p {
                    assert(s[s.len() - 1] == x);
                } else {
                    assert(head[i - 1] == x);
                    assert(head.contains(x));
                    assert(s.drop_last().contains(x));
                    let j = choose|j: int| 0 <= j < s.drop_last().len() && s.drop_last()[j] == x;
                    assert(s.drop_last()[j] == s[j]);
                    assert(s[j] == x);
                }
            }
            if s.contains(x) {
                let j = choose|j: int| 0 <= j < s.len() && s[j] == x;
                if j == s.len() - 1 {
                    assert(r[p] == x);
                } else {
                    assert(s.drop_last()[j] == x);
                    assert(s.drop_last().contains(x));
                    assert(head.contains(x));
                    let i = choose|i: int| 0 <= i < head.len() && head[i] == x;
                    if i < p {
                        assert(r[i] == x);
                    } else {
                        assert(r[i + 1] == x);
                    }
                }
            }
        }
    }
}

/// Sorting keeps the items, each as often.
pub proof fn lemma_sorted_multiset<T: CanDominate>(s: Seq<T>)
    ensures
        sorted_by_first(s).to_multiset() == s.to_multiset(),
    decreases s.len(),
{
    broadcast use vstd::seq_lib::to_multiset_insert;
    broadcast use vstd::seq_lib::to_multiset_build;

    if s.len() > 0 {
        let init = s.drop_last();
        let head = sorted_by_first(init);
        lemma_sorted_multiset(init);
        lemma_insert_pos(head, s.last());
        assert(init.push(s.last()) =~= s);
        assert(init.push(s.last()).to_multiset() == init.to_multiset().insert(s.last()));
    }
}

/// `b` holds `x` and `y` at two different positions.
pub open spec fn holds_apart<T>(b: Seq<T>, x: T, y: T) -> bool {
    exists|u: int, v: int|
        0 <= u < b.len() && 0 <= v < b.len() && u != v && #[trigger] b[u] == x && #[trigger] b[v]
            == y
}

/// Sorting keeps the positions apart: two items at different positions of
/// the sorted sequence are at different positions of `s`.
pub proof fn lemma_sorted_apart<T: CanDominate>(s: Seq<T>)
    ensures
        forall|u: int, v: int|
            0 <= u < sorted_by_first(s).len() && 0 <= v < sorted_by_first(s).len() && u != v
                ==> holds_apart(s, #[trigger] sorted_by_first(s)[u], #[trigger] sorted_by_first(s)[v]),
    decreases s.len(),
{
    if s.len() > 0 {
        let init = s.drop_last();
        let head = sorted_by_first(init);
        lemma_sorted_apart(init);
        lemma_sorted_same(init);
        lemma_insert_pos(head, s.last());
        let p = insert_pos(head, s.last());
        let r = head.insert(p, s.last());
        assert forall|u: int, v: int| 0 <= u < r.len() && 0 <= v < r.len() && u != v implies holds_apart(
            s,
            #[trigger] r[u],
            #[trigger] r[v],
        ) by {
            let a = if u < p {
                u
            } else {
                u - 1
            };
            let b = if v < p {
                v
            } else {
                v - 1
            };
            if u != p && v != p {
                assert(r[u] == head[a] && r[v] == head[b]);
                assert(holds_apart(init, head[a], head[b]));
                let (x, y) = choose|x: int, y: int|
                    0 <= x < init.len() && 0 <= y < init.len() && x != y && #[trigger] init[x]
                        == head[a] && #[trigger] init[y] == head[b];
                assert(s[x] == r[u] && s[y] == r[v]);
            } else if u == p {
                assert(r[v] == head[b]);
                assert(head.contains(head[b]));
                assert(init.contains(head[b]));
                let y = choose|y: int| 0 <= y < init.len() && init[y] == head[b];
                assert(s[s.len() - 1] == r[u] && s[y] == r[v]);
            } else {
                assert(r[u] == head[a]);
                assert(head.contains(head[a]));
                assert(init.contains(head[a]));
                let x = choose|x: int| 0 <= x < init.len() && init[x] == head[a];
                assert(s[x] == r[u] && s[s.len() - 1] == r[v]);
            }
        }
    }
}

/// The keys of the sorted sequence ascend.
pub proof fn lemma_sorted_ascending<T: CanDominate>(s: Seq<T>)
    ensures
        ascending(sorted_by_first(s)),
    decreases s.len(),
{
    if s.len() > 0 {
        let head = sorted_by_first(s.drop_last());
        lemma_sorted_ascending(s.drop_last());
        lemma_insert_pos(head, s.last());
        let p = insert_pos(head, s.last());
        let r = head.insert(p, s.last());
        assert forall|i: int, j: int| 0 <= i < j < r.len() implies (#[trigger] r[i]).first() <= (
        #[trigger] r[j]).first() by {
            let a = if i < p {
                i
            } else {
                i - 1
            };
            let b = if j < p {
                j
            } else {
                j - 1
            };
            if i != p && j != p {
                assert(r[i] == head[a] && r[j] == head[b]);
            } else if i == p {
                assert(r[j] == head[b]);
                assert(goes_before(s.last(), head[p]));
                assert(head[p].first() <= head[b].first() || b == p);
            } else {
                assert(r[i] == head[a]);
                assert(!goes_before(s.last(), head[a]));
            }
        }
    }
}

/// Where dominance is transitive among the items, no item of the sorted
/// sequence goes before an earlier one.
pub proof fn lemma_sorted_in_order<T: CanDominate>(s: Seq<T>)
    requires
        transitive_on(s),
    ensures
        in_order(sorted_by_first(s)),
    decreases s.len(),
{
    if s.len() > 0 {
        let init = s.drop_last();
        let x = s.last();
        let head = sorted_by_first(init);
        assert forall|y: T| init.contains(y) implies s.contains(y) by {
            let k = choose|k: int| 0 <= k < init.len() && init[k] == y;
            assert(s[k] == y);
        }
        assert(transitive_on(init));
        lemma_sorted_in_order(init);
        lemma_sorted_ascending(init);
        lemma_sorted_same(init);
        lemma_insert_pos(head, x);
        let p = insert_pos(head, x);
        let r = head.insert(p, x);
        assert(s.contains(s[s.len() - 1]));
        assert forall|i: int, j: int|
            #![trigger r[i], r[j]]
            0 <= i < j < r.len() implies !goes_before(r[j], r[i]) by {
            let a = if i < p {
                i
            } else {
                i - 1
            };
            let b = if j < p {
                j
            } else {
                j - 1
            };
            if i != p && j != p {
                assert(r[i] == head[a] && r[j] == head[b]);
                assert(!goes_before(head[b], head[a]));
            } else if i == p {
                let h = head[b];
                assert(r[j] == h && r[i] == x);
                assert(goes_before(x, head[p]));
                assert(head[p].first() <= h.first() || b == p);
                if goes_before(h, x) {
                    assert(b > p);
                    assert(head.contains(h) && head.contains(head[p]));
                    assert(s.contains(h) && s.contains(head[p]) && s.contains(x));
                    assert(head[p].dominates_spec(&x) && x.dominates_spec(&h));
                    assert(head[p].dominates_spec(&h));
                    assert(!goes_before(head[b], head[p]));
                    assert(h.dominates_spec(&head[p]) && head[p].dominates_spec(&x));
                    assert(h.dominates_spec(&x));
                }
            } else {
                assert(r[i] == head[a] && r[j] == x);
                assert(!goes_before(x, head[a]));
            }
        }
    }
}

/// Sorting a sequence in which no item goes before an earlier one changes
/// nothing.
pub proof fn lemma_sorted_fixed<T: CanDominate>(s: Seq<T>)
    requires
        in_order(s),
    ensures
        sorted_by_first(s) == s,
    decreases s.len(),
{
    if s.len() > 0 {
        let init = s.drop_last();
        assert(in_order(init)) by {
            assert forall|i: int, j: int|
                #![trigger init[i], init[j]]
                0 <= i < j < init.len() implies !goes_before(init[j], init[i]) by {
                assert(init[i] == s[i] && init[j] == s[j]);
            }
        }
        lemma_sorted_fixed(init);
        lemma_insert_pos(init, s.last());
        assert(insert_pos(init, s.last()) == init.len()) by {
            let p = insert_pos(init, s.last());
            if p < init.len() {
                assert(init[p] == s[p]);
                assert(!goes_before(s[s.len() - 1], s[p]));
            }
        }
        assert(init.insert(init.len() as int, s.last()) =~= s);
    }
}

/// The items of `v` in the opposite order.
pub fn reversed<T>(v: Vec<T>) -> (r: Vec<T>)
    ensures
        r@ == v@.reverse(),
{
    let mut v = v;
    let ghost all = v@;
    let mut r: Vec<T> = Vec::new();
    while v.len() > 0
        invariant
            v.len() <= all.len(),
            v@ == all.take(v.len() as int),
            r.len() == all.len() - v.len(),
            forall|i: int| 0 <= i < r.len() ==> r[i] == all[all.len() - 1 - i],
        decreases v.len(),
    {
        let x = v.pop().unwrap();
        r.push(x);
    }
    assert(r@ =~= all.reverse());
    r
}

/// Whether `x` goes before `y`.
pub fn precedes<T: CanDominate>(x: &T, y: &T) -> (r: bool)
    ensures
        r == goes_before(*x, *y),
{
    if less_by_first(x, y) {
        true
    } else if less_by_first(y, x) {
        false
    } else {
        y.dominates(x) && !x.dominates(y)
    }
}

/// Sorts `data` by the first coordinate of the scores, ascending. Items with
/// equal first coordinates stay in their order, but that an item goes
/// before the first of them that dominates it and that it does not
/// dominate.
pub fn sort_by_first<T: CanDominate>(data: Vec<T>) -> (sorted: Vec<T>)
    ensures
        sorted@ == sorted_by_first(data@),
{
    let ghost all = data@;
    let mut rest = reversed(data);
    assert(rest.len() == all.len());
    let mut sorted: Vec<T> = Vec::new();
    let mut k: usize = 0;
    assert(all.take(0) =~= Seq::<T>::empty());
    while rest.len() > 0
        invariant
            k + rest.len() == all.len(),
            all.len() <= usize::MAX,
            rest@ == all.reverse().take(rest.len() as int),
            sorted@ == sorted_by_first(all.take(k as int)),
        decreases rest.len(),
    {
        let x = rest.pop().unwrap();
        assert(x == all[k as int]);
        let mut pos: usize = 0;
        assert(sorted@.skip(0) =~= sorted@);
        while pos < sorted.len() && !precedes(&x, &sorted[pos])
            invariant
                pos <= sorted.len(),
                insert_pos(sorted@, x) == pos + insert_pos(sorted@.skip(pos as int), x),
            decreases sorted.len() - pos,
        {
            proof {
                let cur = sorted@.skip(pos as int);
                assert(cur[0] == sorted[pos as int]);
                assert(cur.skip(1) =~= sorted@.skip(pos + 1));
            }
            pos += 1;
        }
        proof {
            let cur = sorted@.skip(pos as int);
            if pos < sorted.len() {
                assert(cur[0] == sorted[pos as int]);
            }
            assert(insert_pos(cur, x) == 0);
            let next = all.take(k + 1);
            assert(next.drop_last() =~= all.take(k as int));
            assert(next.last() == x);
        }
        sorted.insert(pos, x);
        k += 1;
    }
    assert(all.take(k as int) =~= all);
    sorted
}

} // verus!
