//! Stable sorting by rank.
//!
//! The rules sort often and always for the same reason: a walk whose order
//! came from a hash map or an entity store has to be put into an order of
//! its own before anything in it may break a tie.

use vstd::prelude::*;

verus! {

/// A thing that knows whether it comes strictly before another. The order is
/// strict and any two things neither of which is ahead are interchangeable.
pub trait Ranked: Copy {
    spec fn ahead(self, other: Self) -> bool;

    proof fn ranks(a: Self, b: Self, c: Self)
        ensures
            !a.ahead(a),
            a.ahead(b) ==> !b.ahead(a),
            !b.ahead(a) && !c.ahead(b) ==> !c.ahead(a),
    ;

    fn is_ahead(&self, other: &Self) -> (r: bool)
        ensures
            r == self.ahead(*other),
    ;
}

/// Where `x` goes in a list: before the first thing it is ahead of.
pub open spec fn place<T: Ranked>(s: Seq<T>, x: T) -> int
    decreases s.len(),
{
    if s.len() == 0 || x.ahead(s[0]) {
        0
    } else {
        1 + place(s.skip(1), x)
    }
}

/// The list in rank order, things of equal rank in the order they came.
pub open spec fn ranked<T: Ranked>(s: Seq<T>) -> Seq<T>
    decreases s.len(),
{
    if s.len() == 0 {
        s
    } else {
        let before = ranked(s.drop_last());
        before.insert(place(before, s.last()), s.last())
    }
}

proof fn lemma_place<T: Ranked>(s: Seq<T>, x: T)
    ensures
        0 <= place(s, x) <= s.len(),
        forall|i: int| 0 <= i < place(s, x) ==> !x.ahead(#[trigger] s[i]),
        place(s, x) < s.len() ==> x.ahead(s[place(s, x)]),
    decreases s.len(),
{
    if s.len() == 0 || x.ahead(s[0]) {
    } else {
        let rest = s.skip(1);
        lemma_place(rest, x);
        assert forall|i: int| 0 <= i < place(s, x) implies !x.ahead(#[trigger] s[i]) by {
            if i > 0 {
                assert(rest[i - 1] == s[i]);
            }
        }
    }
}

/// Nothing comes after something it is ahead of.
pub open spec fn in_order<T: Ranked>(s: Seq<T>) -> bool {
    forall|i: int, j: int| 0 <= i <= j < s.len() ==> !(#[trigger] s[j]).ahead(#[trigger] s[i])
}

/// Ranking puts a list in order and neither loses nor adds anything.
pub proof fn ranking_sorts<T: Ranked>(s: Seq<T>)
    ensures
        ranked(s).len() == s.len(),
        in_order(ranked(s)),
        ranked(s).to_multiset() == s.to_multiset(),
    decreases s.len(),
{
    broadcast use vstd::seq_lib::group_to_multiset_ensures;

    if s.len() > 0 {
        let before = ranked(s.drop_last());
        let x = s.last();
        ranking_sorts(s.drop_last());
        lemma_place(before, x);
        let p = place(before, x);
        let after = ranked(s);
        assert forall|i: int, j: int| 0 <= i <= j < after.len() implies !(#[trigger] after[j]).ahead(
            #[trigger] after[i],
        ) by {
            T::ranks(x, x, x);
            if i < p && j > p {
                assert(!before[j - 1].ahead(before[i]));
            } else if i == p && j > p {
                T::ranks(x, before[p], before[j - 1]);
                assert(!before[j - 1].ahead(before[p]));
                if before[j - 1].ahead(x) {
                    T::ranks(before[p], before[j - 1], x);
                    T::ranks(x, before[p], before[j - 1]);
                }
            } else if j == p && i < p {
                assert(!x.ahead(before[i]));
            } else if i > p {
                assert(!before[j - 1].ahead(before[i - 1]));
            } else if j < p {
                assert(!before[j].ahead(before[i]));
            }
        }
        assert(s =~= s.drop_last().push(x));
        assert(after.to_multiset() =~= before.to_multiset().insert(x));
    }
}

/// Put a list in rank order.
pub fn sort_ranked<T: Ranked>(v: &Vec<T>) -> (sorted: Vec<T>)
    ensures
        sorted@ == ranked(v@),
        in_order(sorted@),
        sorted@.to_multiset() == v@.to_multiset(),
{
    let mut out: Vec<T> = Vec::new();
    let mut n: usize = 0;
    while n < v.len()
        invariant
            n <= v@.len(),
            out@ == ranked(v@.take(n as int)),
        decreases v@.len() - n,
    {
        let x: T = v[n];
        let mut p: usize = 0;
        proof {
            lemma_place(out@, x);
        }
        while p < out.len() && !x.is_ahead(&out[p])
            invariant
                p <= out@.len(),
                forall|i: int| 0 <= i < p ==> !x.ahead(#[trigger] out@[i]),
            decreases out@.len() - p,
        {
            p += 1;
        }
        proof {
            lemma_place(out@, x);
            let q = place(out@, x);
            if q < p {
                assert(!x.ahead(out@[q]));
            }
            if p < q {
                assert(!x.ahead(out@[p as int]));
            }
            assert(v@.take(n + 1).drop_last() =~= v@.take(n as int));
        }
        out.insert(p, x);
        n += 1;
    }
    assert(v@.take(n as int) =~= v@);
    proof {
        ranking_sorts(v@);
    }
    out
}

/// Two lists with the same contents have the same members.
pub proof fn same_members<T>(a: Seq<T>, b: Seq<T>, k: int)
    requires
        a.to_multiset() == b.to_multiset(),
        0 <= k < a.len(),
    ensures
        b.contains(a[k]),
{
    broadcast use vstd::seq_lib::group_to_multiset_ensures;

    assert(a.contains(a[k]));
    assert(a.to_multiset().count(a[k]) > 0);
    assert(b.to_multiset().count(a[k]) > 0);
}

/// A list with one more thing holds that thing and what it held.
pub(crate) proof fn lemma_pushed<T>(before: Seq<T>, x: T, w: T)
    ensures
        before.push(x).contains(w) <==> before.contains(w) || w == x,
{
    let now = before.push(x);
    if before.contains(w) {
        let k = choose|k: int| 0 <= k < before.len() && before[k] == w;
        assert(now[k] == w);
    }
    assert(now[before.len() as int] == x);
    if now.contains(w) && w != x {
        let k = choose|k: int| 0 <= k < now.len() && now[k] == w;
        assert(before[k] == w);
    }
}

} // verus!
