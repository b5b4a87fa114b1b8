//! Lists by their views: sorting, sorted sets and removal of repetitions.

use vstd::prelude::*;

verus! {

/// The views of the elements of a list.
pub open spec fn views<T: View>(s: Seq<T>) -> Seq<T::V> {
    Seq::new(s.len(), |i: int| s[i]@)
}

pub broadcast proof fn lemma_views_push<T: View>(s: Seq<T>, x: T)
    ensures
        #[trigger] views(s.push(x)) == views(s).push(x@),
{
    assert(views(s.push(x)) =~= views(s).push(x@));
}

pub broadcast proof fn lemma_views_empty<T: View>(s: Seq<T>)
    requires
        s.len() == 0,
    ensures
        #[trigger] views(s) == Seq::<T::V>::empty(),
{
    assert(views(s) =~= Seq::<T::V>::empty());
}

pub broadcast proof fn lemma_views_add<T: View>(a: Seq<T>, b: Seq<T>)
    ensures
        #[trigger] views(a + b) == views(a) + views(b),
{
    assert(views(a + b) =~= views(a) + views(b));
}

pub broadcast proof fn lemma_views_insert<T: View>(s: Seq<T>, at: int, x: T)
    requires
        0 <= at <= s.len(),
    ensures
        #[trigger] views(s.insert(at, x)) == views(s).insert(at, x@),
{
    assert(views(s.insert(at, x)) =~= views(s).insert(at, x@));
}

pub broadcast proof fn lemma_views_remove<T: View>(s: Seq<T>, at: int)
    requires
        0 <= at < s.len(),
    ensures
        #[trigger] views(s.remove(at)) == views(s).remove(at),
{
    assert(views(s.remove(at)) =~= views(s).remove(at));
}

pub broadcast proof fn lemma_views_update<T: View>(s: Seq<T>, at: int, x: T)
    requires
        0 <= at < s.len(),
    ensures
        #[trigger] views(s.update(at, x)) == views(s).update(at, x@),
{
    assert(views(s.update(at, x)) =~= views(s).update(at, x@));
}

pub broadcast group group_views {
    lemma_views_push,
    lemma_views_empty,
    lemma_views_add,
    lemma_views_insert,
    lemma_views_remove,
    lemma_views_update,
}

/// A type whose views are put in order by `leq`, where views may share a place.
pub trait Ordered: View + Sized {
    spec fn leq(a: Self::V, b: Self::V) -> bool;

    proof fn leq_total(a: Self::V, b: Self::V)
        ensures
            Self::leq(a, b) || Self::leq(b, a),
    ;

    proof fn leq_transitive(a: Self::V, b: Self::V, c: Self::V)
        requires
            Self::leq(a, b),
            Self::leq(b, c),
        ensures
            Self::leq(a, c),
    ;

    fn at_most(&self, other: &Self) -> (r: bool)
        ensures
            r == Self::leq(self@, other@),
    ;
}

/// Whether `a` and `b` share a place in the order.
pub open spec fn ties<T: Ordered>(a: T::V, b: T::V) -> bool {
    T::leq(a, b) && T::leq(b, a)
}

pub open spec fn is_sorted<T: Ordered>(s: Seq<T::V>) -> bool {
    forall|i: int, j: int| 0 <= i <= j < s.len() ==> T::leq(#[trigger] s[i], #[trigger] s[j])
}

/// `s` with `x` put behind the last element that is not greater.
pub open spec fn placed<T: Ordered>(s: Seq<T::V>, x: T::V) -> Seq<T::V>
    decreases s.len(),
{
    if s.len() == 0 {
        seq![x]
    } else if T::leq(s.last(), x) {
        s.push(x)
    } else {
        placed::<T>(s.drop_last(), x).push(s.last())
    }
}

/// The elements of `s` in order; those that tie keep their order.
pub open spec fn sorted<T: Ordered>(s: Seq<T::V>) -> Seq<T::V>
    decreases s.len(),
{
    if s.len() == 0 {
        Seq::empty()
    } else {
        placed::<T>(sorted::<T>(s.drop_last()), s.last())
    }
}

pub open spec fn has_tie<T: Ordered>(s: Seq<T::V>, x: T::V) -> bool {
    exists|i: int| 0 <= i < s.len() && ties::<T>(#[trigger] s[i], x)
}

/// The sorted set `s` with `x`, unless an element that ties with `x` is in it.
pub open spec fn with_member<T: Ordered>(s: Seq<T::V>, x: T::V) -> Seq<T::V> {
    if has_tie::<T>(s, x) {
        s
    } else {
        placed::<T>(s, x)
    }
}

/// The sorted set of the elements of `s`; of those that tie the first stays.
pub open spec fn sorted_set<T: Ordered>(s: Seq<T::V>) -> Seq<T::V>
    decreases s.len(),
{
    if s.len() == 0 {
        Seq::empty()
    } else {
        with_member::<T>(sorted_set::<T>(s.drop_last()), s.last())
    }
}

proof fn lemma_placed_at<T: Ordered>(s: Seq<T::V>, x: T::V, at: int)
    requires
        0 <= at <= s.len(),
        at == 0 || T::leq(s[at - 1], x),
        forall|i: int| at <= i < s.len() ==> !T::leq(#[trigger] s[i], x),
    ensures
        placed::<T>(s, x) == s.insert(at, x),
    decreases s.len(),
{
    if s.len() == 0 {
        assert(s.insert(at, x) =~= seq![x]);
    } else if at == s.len() {
        assert(s.insert(at, x) =~= s.push(x));
    } else {
        lemma_placed_at::<T>(s.drop_last(), x, at);
        assert(s.drop_last().insert(at, x).push(s.last()) =~= s.insert(at, x));
    }
}

/// Puts `x` behind the last element that is not greater.
pub fn place<T: Ordered>(v: &mut Vec<T>, x: T)
    ensures
        views(final(v)@) == placed::<T>(views(old(v)@), x@),
{
    broadcast use group_views;

    let mut at: usize = v.len();
    while at > 0 && !v[at - 1].at_most(&x)
        invariant
            v == old(v),
            0 <= at <= v.len(),
            forall|i: int| at <= i < v.len() ==> !T::leq(#[trigger] views(v@)[i], x@),
        decreases at,
    {
        at -= 1;
    }
    proof {
        assert(at > 0 ==> views(v@)[at - 1] == v@[at - 1]@);
        lemma_placed_at::<T>(views(v@), x@, at as int);
    }
    v.insert(at, x);
}

pub fn tie_in<T: Ordered>(v: &Vec<T>, x: &T) -> (r: bool)
    ensures
        r == has_tie::<T>(views(v@), x@),
{
    let mut i: usize = 0;
    while i < v.len()
        invariant
            0 <= i <= v.len(),
            forall|k: int| 0 <= k < i ==> !ties::<T>(#[trigger] views(v@)[k], x@),
        decreases v.len() - i,
    {
        if v[i].at_most(x) && x.at_most(&v[i]) {
            assert(ties::<T>(views(v@)[i as int], x@));
            return true;
        }
        i += 1;
    }
    false
}

/// Adds `x` to the sorted set `v`, unless an element ties with it.
pub fn add_member<T: Ordered>(v: &mut Vec<T>, x: T)
    ensures
        views(final(v)@) == with_member::<T>(views(old(v)@), x@),
{
    if !tie_in(v, &x) {
        place(v, x);
    }
}

pub fn sort<T: Ordered>(v: Vec<T>) -> (r: Vec<T>)
    ensures
        views(r@) == sorted::<T>(views(v@)),
{
    broadcast use group_views;

    let mut rest: Vec<T> = v;
    let mut r: Vec<T> = Vec::new();
    let ghost all = views(v@);
    let ghost mut done: int = 0;
    while rest.len() > 0
        invariant
            0 <= done,
            done + rest.len() == all.len(),
            all.skip(done) == views(rest@),
            views(r@) == sorted::<T>(all.take(done)),
        decreases rest.len(),
    {
        let x: T = rest.remove(0);
        proof {
            assert(x@ == all.skip(done)[0]);
            assert(all.take(done + 1).drop_last() =~= all.take(done));
            assert(all.skip(done + 1) =~= all.skip(done).remove(0));
            done = done + 1;
        }
        place(&mut r, x);
    }
    assert(all.take(done) =~= all);
    r
}

pub fn sort_to_set<T: Ordered>(v: Vec<T>) -> (r: Vec<T>)
    ensures
        views(r@) == sorted_set::<T>(views(v@)),
{
    broadcast use group_views;

    let mut rest: Vec<T> = v;
    let mut r: Vec<T> = Vec::new();
    let ghost all = views(v@);
    let ghost mut done: int = 0;
    while rest.len() > 0
        invariant
            0 <= done,
            done + rest.len() == all.len(),
            all.skip(done) == views(rest@),
            views(r@) == sorted_set::<T>(all.take(done)),
        decreases rest.len(),
    {
        let x: T = rest.remove(0);
        proof {
            assert(x@ == all.skip(done)[0]);
            assert(all.take(done + 1).drop_last() =~= all.take(done));
            assert(all.skip(done + 1) =~= all.skip(done).remove(0));
            done = done + 1;
        }
        add_member(&mut r, x);
    }
    assert(all.take(done) =~= all);
    r
}

proof fn lemma_placed<T: Ordered>(s: Seq<T::V>, x: T::V)
    ensures
        placed::<T>(s, x).to_multiset() == s.to_multiset().insert(x),
        is_sorted::<T>(s) ==> is_sorted::<T>(placed::<T>(s, x)),
    decreases s.len(),
{
    broadcast use vstd::seq_lib::group_to_multiset_ensures;

    if s.len() == 0 {
        assert(s.push(x) =~= seq![x]);
        T::leq_total(x, x);
    } else if T::leq(s.last(), x) {
        if is_sorted::<T>(s) {
            T::leq_total(x, x);
            let r = s.push(x);
            assert forall|i: int, j: int| 0 <= i <= j < r.len() implies T::leq(
                #[trigger] r[i],
                #[trigger] r[j],
            ) by {
                if i < s.len() && j == s.len() {
                    assert(T::leq(s[i], s[s.len() - 1]));
                    T::leq_transitive(s[i], s.last(), x);
                }
            }
        }
    } else {
        let t = s.drop_last();
        lemma_placed::<T>(t, x);
        assert(t.push(s.last()) =~= s);
        assert(t.to_multiset().insert(x).insert(s.last()) =~= t.to_multiset().insert(
            s.last(),
        ).insert(x));
        if is_sorted::<T>(s) {
            let p = placed::<T>(t, x);
            let r = p.push(s.last());
            T::leq_total(x, s.last());
            T::leq_total(s.last(), s.last());
            assert forall|i: int, j: int| 0 <= i <= j < r.len() implies T::leq(
                #[trigger] r[i],
                #[trigger] r[j],
            ) by {
                if i < p.len() && j == p.len() {
                    assert(p.to_multiset().contains(p[i])) by {
                        assert(p.contains(p[i]));
                    }
                    if p[i] != x {
                        assert(t.to_multiset().contains(p[i]));
                        assert(t.contains(p[i]));
                        let k = choose|k: int| 0 <= k < t.len() && t[k] == p[i];
                        assert(T::leq(s[k], s[s.len() - 1]));
                    }
                }
            }
        }
    }
}

/// Sorting keeps the elements, each as often as before, and puts them in order.
pub proof fn sorting_orders_and_keeps<T: Ordered>(s: Seq<T::V>)
    ensures
        is_sorted::<T>(sorted::<T>(s)),
        sorted::<T>(s).to_multiset() == s.to_multiset(),
    decreases s.len(),
{
    broadcast use vstd::seq_lib::group_to_multiset_ensures;

    if s.len() > 0 {
        sorting_orders_and_keeps::<T>(s.drop_last());
        lemma_placed::<T>(sorted::<T>(s.drop_last()), s.last());
        assert(s.drop_last().push(s.last()) =~= s);
    } else {
        assert(sorted::<T>(s) =~= s);
    }
}

pub open spec fn is_sorted_set<T: Ordered>(s: Seq<T::V>) -> bool {
    &&& is_sorted::<T>(s)
    &&& forall|i: int, j: int|
        0 <= i < j < s.len() ==> !ties::<T>(#[trigger] s[i], #[trigger] s[j])
}

pub proof fn lemma_contains_placed<T: Ordered>(s: Seq<T::V>, x: T::V, y: T::V)
    ensures
        placed::<T>(s, x).contains(y) <==> s.contains(y) || y == x,
{
    broadcast use vstd::seq_lib::group_to_multiset_ensures;

    lemma_placed::<T>(s, x);
    let p = placed::<T>(s, x);
    assert(p.contains(y) <==> p.to_multiset().contains(y));
    assert(s.contains(y) <==> s.to_multiset().contains(y));
}

proof fn lemma_placed_apart<T: Ordered>(s: Seq<T::V>, x: T::V)
    requires
        is_sorted_set::<T>(s),
        !has_tie::<T>(s, x),
    ensures
        is_sorted_set::<T>(placed::<T>(s, x)),
    decreases s.len(),
{
    lemma_placed::<T>(s, x);
    if s.len() > 0 && !T::leq(s.last(), x) {
        let t = s.drop_last();
        assert forall|i: int| 0 <= i < t.len() implies !ties::<T>(#[trigger] t[i], x) by {
            assert(!ties::<T>(s[i], x));
        }
        assert forall|i: int, j: int| 0 <= i < j < t.len() implies !ties::<T>(
            #[trigger] t[i],
            #[trigger] t[j],
        ) by {
            assert(!ties::<T>(s[i], s[j]));
        }
        lemma_placed_apart::<T>(t, x);
        let p = placed::<T>(t, x);
        let r = p.push(s.last());
        assert forall|i: int, j: int| 0 <= i < j < r.len() implies !ties::<T>(
            #[trigger] r[i],
            #[trigger] r[j],
        ) by {
            if j == p.len() {
                lemma_contains_placed::<T>(t, x, p[i]);
                assert(p.contains(p[i]));
                if p[i] != x {
                    let k = choose|k: int| 0 <= k < t.len() && t[k] == p[i];
                    assert(!ties::<T>(s[k], s[s.len() - 1]));
                } else {
                    assert(!ties::<T>(s[s.len() - 1], x));
                }
            }
        }
    } else if s.len() > 0 {
        let r = s.push(x);
        assert forall|i: int, j: int| 0 <= i < j < r.len() implies !ties::<T>(
            #[trigger] r[i],
            #[trigger] r[j],
        ) by {
            if j == s.len() {
                assert(!ties::<T>(s[i], x));
            }
        }
    }
}

/// Adding to a sorted set gives a sorted set that has what it had, and the new element or one
/// that ties with it.
pub proof fn adding_keeps_a_sorted_set<T: Ordered>(s: Seq<T::V>, x: T::V)
    requires
        is_sorted_set::<T>(s),
    ensures
        is_sorted_set::<T>(with_member::<T>(s, x)),
        has_tie::<T>(with_member::<T>(s, x), x),
        forall|y: T::V| s.contains(y) ==> #[trigger] with_member::<T>(s, x).contains(y),
        forall|y: T::V| #[trigger]
            with_member::<T>(s, x).contains(y) ==> s.contains(y) || y == x,
{
    if !has_tie::<T>(s, x) {
        lemma_placed_apart::<T>(s, x);
        assert forall|y: T::V| #[trigger]
            with_member::<T>(s, x).contains(y) <==> s.contains(y) || y == x by {
            lemma_contains_placed::<T>(s, x, y);
        }
        let r = with_member::<T>(s, x);
        assert(r.contains(x));
        let i = choose|i: int| 0 <= i < r.len() && r[i] == x;
        T::leq_total(x, x);
        assert(ties::<T>(r[i], x));
    }
}

} // verus!
