//! The entry points: a skyline of distinct items, in a random order and cut
//! to size.

use crate::pareto::dominance::{first_follows, transitive_on, CanDominate};
use crate::pareto::order::{reversed, sorted_by_first};
use crate::pareto::skyline::{
    dominated_in, is_dominated, kung, kung_recursive, lemma_kung_multiset,
    lemma_part_non_dominated, non_dominated,
};
use crate::pareto::thermal::{is_thermal, kung_recursive_mosa, never, total};
use crate::random::shuffle;
use vstd::prelude::*;
use vstd::std_specs::cmp::PartialEqSpec;

verus! {

/// Some item of `head` equals `x`.
pub open spec fn has_equal<T: PartialEq>(head: Seq<T>, x: T) -> bool {
    exists|k: int| 0 <= k < head.len() && x.eq_spec(&#[trigger] head[k])
}

/// `s` without every item that equals an earlier one: of equal items the
/// first stays.
pub open spec fn dedup_spec<T: PartialEq>(s: Seq<T>) -> Seq<T>
    decreases s.len(),
{
    if s.len() == 0 {
        s
    } else if has_equal(dedup_spec(s.drop_last()), s.last()) {
        dedup_spec(s.drop_last())
    } else {
        dedup_spec(s.drop_last()).push(s.last())
    }
}

/// `out` is what is left of some reordering of `from` after it is cut to
/// `max` items.
pub open spec fn drawn_from<T>(out: Seq<T>, from: Seq<T>, max: int) -> bool {
    exists|order: Seq<T>| #[trigger]
        order.to_multiset() == from.to_multiset() && out == order.take(
            if max < order.len() {
                max
            } else {
                order.len() as int
            },
        )
}

/// `out` is what `random_mosa` may give for `solutions`: items drawn from a
/// thermal skyline, for answers that `keep` gave, of the sorted solutions
/// without those that equal an earlier one.
pub open spec fn mosa_drawn<T: CanDominate + PartialEq, F: Fn(&T, &Vec<&T>) -> bool>(
    keep: &F,
    solutions: Seq<T>,
    max: int,
    out: Seq<T>,
) -> bool {
    exists|d: Seq<T>, t: Seq<T>| #[trigger]
        is_thermal(keep, sorted_by_first(d), t) && (T::obeys_eq_spec() ==> d == dedup_spec(
            solutions,
        )) && d.to_multiset().subset_of(solutions.to_multiset()) && drawn_from(out, t, max)
}

/// Shuffles `items` and cuts them to `max` items.
fn draw<T>(items: Vec<T>, max: usize) -> (out: Vec<T>)
    ensures
        drawn_from(out@, items@, max as int),
        out.len() == if max < items.len() {
            max
        } else {
            items.len()
        },
        out@.to_multiset().subset_of(items@.to_multiset()),
        forall|i: int| 0 <= i < out.len() ==> items@.contains(#[trigger] out[i]),
{
    broadcast use vstd::seq_lib::lemma_multiset_commutative;
    broadcast use vstd::multiset::group_multiset_axioms;

    let mut items = items;
    let ghost from = items@;
    shuffle(&mut items);
    let ghost order = items@;
    items.truncate(max);
    proof {
        assert(order.to_multiset() == from.to_multiset());
        crate::utils::lemma_same_items(order, from);
        let n = items.len() as int;
        if max <= order.len() {
            assert(items@ =~= order.take(max as int));
        } else {
            assert(items@ =~= order.take(order.len() as int));
        }
        assert(order.take(n) + order.skip(n) =~= order);
        assert((order.take(n) + order.skip(n)).to_multiset() == order.take(n).to_multiset().add(
            order.skip(n).to_multiset(),
        ));
        assert(items@.to_multiset().subset_of(from.to_multiset()));
        assert forall|i: int| 0 <= i < items.len() implies from.contains(#[trigger] items[i]) by {
            assert(order[i] == items[i]);
            assert(order.contains(items[i]));
        }
    }
    items
}

/// Kung's skyline of `solutions` without those that equal an earlier one,
/// in a random order, cut to `max` items. Where dominance is transitive
/// among the solutions and the first coordinate of a dominator is no
/// smaller, no item of the result is dominated by another.
pub fn random_frontline<T: CanDominate + PartialEq>(solutions: Vec<T>, max: usize) -> (out: Vec<T>)
    ensures
        transitive_on(solutions@) && first_follows(solutions@) ==> non_dominated(out@),
        out.len() <= max,
        out.len() <= solutions.len(),
        forall|i: int| 0 <= i < out.len() ==> solutions@.contains(#[trigger] out[i]),
        out@.to_multiset().subset_of(solutions@.to_multiset()),
        T::obeys_eq_spec() ==> drawn_from(out@, kung(dedup_spec(solutions@)), max as int),
        T::obeys_eq_spec() ==> out@.to_multiset().subset_of(
            kung(dedup_spec(solutions@)).to_multiset(),
        ),
        T::obeys_eq_spec() ==> out.len() == if max < kung(dedup_spec(solutions@)).len() {
            max as int
        } else {
            kung(dedup_spec(solutions@)).len() as int
        },
{
    broadcast use vstd::multiset::group_multiset_axioms;

    let ghost all = solutions@;
    let distinct = dedup(solutions);
    let ghost d = distinct@;
    proof {
        assert forall|x: T| d.contains(x) implies all.contains(x) by {
            let v = choose|v: int| 0 <= v < d.len() && d[v] == x;
            assert(all.contains(d[v]));
        }
        assert(transitive_on(all) ==> transitive_on(d));
        assert(first_follows(all) ==> first_follows(d));
    }
    let front = kung_recursive(distinct);
    let ghost f = front@;
    let out = draw(front, max);
    proof {
        if transitive_on(all) && first_follows(all) {
            lemma_part_non_dominated(f, out@);
        }
        lemma_kung_multiset(d);
        assert forall|i: int| 0 <= i < out.len() implies all.contains(#[trigger] out[i]) by {
            assert(f.contains(out[i]));
            let u = choose|u: int| 0 <= u < f.len() && f[u] == out[i];
            assert(d.contains(f[u]));
            let v = choose|v: int| 0 <= v < d.len() && d[v] == f[u];
            assert(all.contains(d[v]));
        }
        assert(out@.to_multiset().subset_of(all.to_multiset()));
    }
    out
}

/// The thermal skyline of `solutions` without those that equal an earlier
/// one, in a random order, cut to `max` items. Of a dominated item `keep`
/// decides whether it survives a merge. Where `keep` never lets one survive,
/// the items are drawn from Kung's skyline. Where dominance is transitive
/// among the solutions, the result is no shorter than the cut from Kung's
/// skyline, whatever `keep` answers.
pub fn random_mosa<T: CanDominate + PartialEq, F: Fn(&T, &Vec<&T>) -> bool>(
    solutions: Vec<T>,
    max: usize,
    keep: &F,
) -> (out: Vec<T>)
    requires
        total(keep),
    ensures
        mosa_drawn(keep, solutions@, max as int, out@),
        out.len() <= max,
        out.len() <= solutions.len(),
        forall|i: int| 0 <= i < out.len() ==> solutions@.contains(#[trigger] out[i]),
        out@.to_multiset().subset_of(solutions@.to_multiset()),
        T::obeys_eq_spec() && never(keep) ==> drawn_from(
            out@,
            kung(dedup_spec(solutions@)),
            max as int,
        ),
        T::obeys_eq_spec() && transitive_on(solutions@) ==> out.len() >= if max < kung(
            dedup_spec(solutions@),
        ).len() {
            max as int
        } else {
            kung(dedup_spec(solutions@)).len() as int
        },
{
    broadcast use vstd::multiset::group_multiset_axioms;

    let ghost all = solutions@;
    let distinct = dedup(solutions);
    let ghost d = distinct@;
    proof {
        if transitive_on(all) {
            assert forall|x: T| d.contains(x) implies all.contains(x) by {
                let v = choose|v: int| 0 <= v < d.len() && d[v] == x;
                assert(all.contains(d[v]));
            }
            assert(transitive_on(d));
        }
    }
    let front = kung_recursive_mosa(distinct, keep);
    let ghost f = front@;
    let out = draw(front, max);
    proof {
        assert forall|i: int| 0 <= i < out.len() implies all.contains(#[trigger] out[i]) by {
            assert(f.contains(out[i]));
            let u = choose|u: int| 0 <= u < f.len() && f[u] == out[i];
            assert(d.contains(f[u]));
            let v = choose|v: int| 0 <= v < d.len() && d[v] == f[u];
            assert(all.contains(d[v]));
        }
        assert(out@.to_multiset().subset_of(all.to_multiset()));
        assert(is_thermal(keep, sorted_by_first(d), f) && (T::obeys_eq_spec() ==> d == dedup_spec(
            all,
        )) && d.to_multiset().subset_of(all.to_multiset()) && drawn_from(out@, f, max as int));
    }
    out
}

/// Whether some item of `head` equals `x`.
fn holds_equal<T: PartialEq>(head: &Vec<T>, x: &T) -> (found: bool)
    ensures
        T::obeys_eq_spec() ==> found == has_equal(head@, *x),
{
    let mut k: usize = 0;
    while k < head.len()
        invariant
            k <= head.len(),
            T::obeys_eq_spec() ==> forall|j: int| 0 <= j < k ==> !x.eq_spec(&#[trigger] head[j]),
        decreases head.len() - k,
    {
        if *x == head[k] {
            return true;
        }
        k += 1;
    }
    false
}

/// Removes every item that equals an earlier one: of equal items the first
/// stays.
pub fn dedup<T: PartialEq>(items: Vec<T>) -> (out: Vec<T>)
    ensures
        T::obeys_eq_spec() ==> out@ == dedup_spec(items@),
        out.len() <= items.len(),
        out@.to_multiset().subset_of(items@.to_multiset()),
        forall|i: int| 0 <= i < out.len() ==> items@.contains(#[trigger] out[i]),
{
    broadcast use vstd::seq_lib::to_multiset_build;
    broadcast use vstd::multiset::group_multiset_axioms;

    let ghost all = items@;
    let mut rest = reversed(items);
    assert(rest.len() == all.len());
    let mut out: Vec<T> = Vec::new();
    let mut k: usize = 0;
    assert(all.take(0) =~= Seq::<T>::empty());
    proof {
        out@.to_multiset_ensures();
        assert forall|x: T| out@.to_multiset().count(x) == 0 by {
            assert(!out@.contains(x));
        }
    }
    while rest.len() > 0
        invariant
            k + rest.len() == all.len(),
            all.len() <= usize::MAX,
            rest@ == all.reverse().take(rest.len() as int),
            out.len() <= k,
            T::obeys_eq_spec() ==> out@ == dedup_spec(all.take(k as int)),
            out@.to_multiset().subset_of(all.take(k as int).to_multiset()),
            forall|i: int| 0 <= i < out.len() ==> all.contains(#[trigger] out[i]),
        decreases rest.len(),
    {
        let x = rest.pop().unwrap();
        assert(x == all[k as int]);
        proof {
            let next = all.take(k + 1);
            assert(next.drop_last() =~= all.take(k as int));
            assert(next.last() == x);
            assert(next =~= all.take(k as int).push(x));
            vstd::seq_lib::to_multiset_build(all.take(k as int), x);
            assert(next.to_multiset() == all.take(k as int).to_multiset().insert(x));
        }
        let repeated = holds_equal(&out, &x);
        let ghost before = out@;
        if !repeated {
            out.push(x);
            proof {
                vstd::seq_lib::to_multiset_build(before, x);
            }
        }
        proof {
            broadcast use vstd::multiset::group_multiset_axioms;

            assert(out@.to_multiset().subset_of(all.take(k + 1).to_multiset()));
        }
        k += 1;
    }
    assert(all.take(k as int) =~= all);
    out
}

/// The skyline of `data` by comparing every item with those kept so far: an
/// item joins unless one of them dominates it, and those it dominates leave.
pub open spec fn naive_spec<T: CanDominate>(s: Seq<T>) -> Seq<T>
    decreases s.len(),
{
    if s.len() == 0 {
        s
    } else {
        let head = naive_spec(s.drop_last());
        let kept = crate::pareto::skyline::survivors(head, Seq::empty().push(s.last()));
        if dominated_in(s.last(), head) {
            kept
        } else {
            kept.push(s.last())
        }
    }
}

/// The skyline of `data` by comparing every item with those kept so far.
pub fn naive<T: CanDominate>(data: Vec<T>) -> (out: Vec<T>)
    ensures
        out@ == naive_spec(data@),
{
    let ghost all = data@;
    let mut rest = reversed(data);
    assert(rest.len() == all.len());
    let mut pareto_set: Vec<T> = Vec::new();
    let mut k: usize = 0;
    assert(all.take(0) =~= Seq::<T>::empty());
    while rest.len() > 0
        invariant
            k + rest.len() == all.len(),
            all.len() <= usize::MAX,
            rest@ == all.reverse().take(rest.len() as int),
            pareto_set@ == naive_spec(all.take(k as int)),
        decreases rest.len(),
    {
        let sol = rest.pop().unwrap();
        assert(sol == all[k as int]);
        proof {
            let next = all.take(k + 1);
            assert(next.drop_last() =~= all.take(k as int));
            assert(next.last() == sol);
        }
        let flag = !is_dominated(&sol, &pareto_set);
        let mut one: Vec<T> = Vec::new();
        one.push(sol);
        assert(one@ =~= Seq::empty().push(sol));
        let mut kept = keep_survivors(pareto_set, &one);
        if flag {
            let sol = one.pop().unwrap();
            kept.push(sol);
        }
        pareto_set = kept;
        k += 1;
    }
    assert(all.take(k as int) =~= all);
    pareto_set
}

/// What no item of `right` dominates of `left`, in its order.
fn keep_survivors<T: CanDominate>(left: Vec<T>, right: &Vec<T>) -> (out: Vec<T>)
    ensures
        out@ == crate::pareto::skyline::survivors(left@, right@),
{
    let ghost all = left@;
    let mut rest = reversed(left);
    assert(rest.len() == all.len());
    let mut out: Vec<T> = Vec::new();
    let mut k: usize = 0;
    assert(all.take(0) =~= Seq::<T>::empty());
    while rest.len() > 0
        invariant
            k + rest.len() == all.len(),
            all.len() <= usize::MAX,
            rest@ == all.reverse().take(rest.len() as int),
            out@ == crate::pareto::skyline::survivors(all.take(k as int), right@),
        decreases rest.len(),
    {
        let x = rest.pop().unwrap();
        assert(x == all[k as int]);
        proof {
            let next = all.take(k + 1);
            assert(next.drop_last() =~= all.take(k as int));
            assert(next.last() == x);
        }
        if !is_dominated(&x, right) {
            out.push(x);
        }
        k += 1;
    }
    assert(all.take(k as int) =~= all);
    out
}

} // verus!
