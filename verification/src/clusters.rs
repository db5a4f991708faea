//! Which tanks are bunched up: groups that are transitively close.

use vstd::prelude::*;

use crate::ranking::{same_members, sort_ranked, Ranked};

verus! {

/// Two tanks are joined by a list of close pairs.
pub open spec fn joined(pairs: Seq<(int, int)>, i: int, j: int) -> bool
    decreases pairs.len(),
{
    if pairs.len() == 0 {
        i == j
    } else {
        let (a, b) = pairs.last();
        let rest = pairs.drop_last();
        joined(rest, i, j) || (joined(rest, i, a) && joined(rest, b, j)) || (joined(rest, i, b)
            && joined(rest, a, j))
    }
}

/// The close pairs of tank `a` with those after it, up to `b`.
pub open spec fn pairs_of(near: Seq<Vec<bool>>, a: int, b: int) -> Seq<(int, int)>
    decreases b - a,
{
    if b <= a + 1 {
        Seq::empty()
    } else {
        let before = pairs_of(near, a, b - 1);
        if near[a]@[b - 1] {
            before.push((a, b - 1))
        } else {
            before
        }
    }
}

/// Every close pair among `n` tanks, of the first `a` with the rest.
pub open spec fn close_pairs(near: Seq<Vec<bool>>, n: int, a: int) -> Seq<(int, int)>
    decreases a,
{
    if a <= 0 {
        Seq::empty()
    } else {
        close_pairs(near, n, a - 1) + pairs_of(near, a - 1, n)
    }
}

/// Two of `n` tanks are in one bunch.
pub open spec fn bunched(near: Seq<Vec<bool>>, n: int, i: int, j: int) -> bool {
    joined(close_pairs(near, n, n), i, j)
}

proof fn lemma_joined_reflexive(pairs: Seq<(int, int)>, i: int)
    ensures
        joined(pairs, i, i),
    decreases pairs.len(),
{
    if pairs.len() > 0 {
        lemma_joined_reflexive(pairs.drop_last(), i);
    }
}

proof fn lemma_joined_symmetric(pairs: Seq<(int, int)>, i: int, j: int)
    requires
        joined(pairs, i, j),
    ensures
        joined(pairs, j, i),
    decreases pairs.len(),
{
    if pairs.len() > 0 {
        let (a, b) = pairs.last();
        let rest = pairs.drop_last();
        if joined(rest, i, j) {
            lemma_joined_symmetric(rest, i, j);
        } else if joined(rest, i, a) && joined(rest, b, j) {
            lemma_joined_symmetric(rest, i, a);
            lemma_joined_symmetric(rest, b, j);
        } else {
            lemma_joined_symmetric(rest, i, b);
            lemma_joined_symmetric(rest, a, j);
        }
    }
}

proof fn lemma_joined_transitive(pairs: Seq<(int, int)>, i: int, j: int, k: int)
    requires
        joined(pairs, i, j),
        joined(pairs, j, k),
    ensures
        joined(pairs, i, k),
    decreases pairs.len(),
{
    if pairs.len() > 0 {
        let (a, b) = pairs.last();
        let rest = pairs.drop_last();
        if joined(rest, i, j) {
            if joined(rest, j, k) {
                lemma_joined_transitive(rest, i, j, k);
            } else if joined(rest, j, a) && joined(rest, b, k) {
                lemma_joined_transitive(rest, i, j, a);
            } else {
                lemma_joined_transitive(rest, i, j, b);
            }
        } else if joined(rest, i, a) && joined(rest, b, j) {
            if joined(rest, j, k) {
                lemma_joined_transitive(rest, b, j, k);
            } else if joined(rest, j, a) && joined(rest, b, k) {
            } else {
                lemma_joined_symmetric(rest, b, j);
                lemma_joined_transitive(rest, i, a, k);
            }
        } else {
            if joined(rest, j, k) {
                lemma_joined_transitive(rest, a, j, k);
            } else if joined(rest, j, a) && joined(rest, b, k) {
                lemma_joined_transitive(rest, i, b, k);
            } else {
            }
        }
    }
}

/// Being joined is an equivalence that joins every pair of the list.
pub proof fn joined_is_an_equivalence(pairs: Seq<(int, int)>, i: int, j: int, k: int)
    ensures
        joined(pairs, i, i),
        joined(pairs, i, j) ==> joined(pairs, j, i),
        joined(pairs, i, j) && joined(pairs, j, k) ==> joined(pairs, i, k),
        forall|p: int|
            0 <= p < pairs.len() ==> joined(pairs, (#[trigger] pairs[p]).0, pairs[p].1),
    decreases pairs.len(),
{
    lemma_joined_reflexive(pairs, i);
    if joined(pairs, i, j) {
        lemma_joined_symmetric(pairs, i, j);
        if joined(pairs, j, k) {
            lemma_joined_transitive(pairs, i, j, k);
        }
    }
    if pairs.len() > 0 {
        let rest = pairs.drop_last();
        joined_is_an_equivalence(rest, i, j, k);
        assert forall|p: int| 0 <= p < pairs.len() implies joined(
            pairs,
            (#[trigger] pairs[p]).0,
            pairs[p].1,
        ) by {
            if p < rest.len() {
                assert(rest[p] == pairs[p]);
            } else {
                lemma_joined_reflexive(rest, pairs[p].0);
                lemma_joined_reflexive(rest, pairs[p].1);
            }
        }
    }
}

/// Being joined is no more than that: whatever relation is an equivalence and
/// relates every pair of the list relates all that are joined.
pub proof fn joined_is_the_least(
    pairs: Seq<(int, int)>,
    related: spec_fn(int, int) -> bool,
    i: int,
    j: int,
)
    requires
        joined(pairs, i, j),
        forall|x: int| #[trigger] related(x, x),
        forall|x: int, y: int| #[trigger] related(x, y) ==> related(y, x),
        forall|x: int, y: int, z: int|
            #[trigger] related(x, y) && #[trigger] related(y, z) ==> related(x, z),
        forall|p: int| 0 <= p < pairs.len() ==> related((#[trigger] pairs[p]).0, pairs[p].1),
    ensures
        related(i, j),
    decreases pairs.len(),
{
    if pairs.len() > 0 {
        let (a, b) = pairs.last();
        let rest = pairs.drop_last();
        assert(related(pairs[pairs.len() - 1].0, pairs[pairs.len() - 1].1));
        assert forall|p: int| 0 <= p < rest.len() implies related((#[trigger] rest[p]).0, rest[p].1) by {
            assert(rest[p] == pairs[p]);
        }
        if joined(rest, i, j) {
            joined_is_the_least(rest, related, i, j);
        } else if joined(rest, i, a) && joined(rest, b, j) {
            joined_is_the_least(rest, related, i, a);
            joined_is_the_least(rest, related, b, j);
            assert(related(i, b));
        } else {
            joined_is_the_least(rest, related, i, b);
            joined_is_the_least(rest, related, a, j);
            assert(related(b, a));
            assert(related(i, a));
        }
    }
}

/// A label per tank: the same one exactly for those joined so far.
spec fn labelled(labels: Seq<usize>, pairs: Seq<(int, int)>) -> bool {
    forall|i: int, j: int|
        0 <= i < labels.len() && 0 <= j < labels.len() ==> ((#[trigger] labels[i] == #[trigger] labels[j])
            == joined(pairs, i, j))
}

fn unite(labels: &mut Vec<usize>, a: usize, b: usize, Ghost(pairs): Ghost<Seq<(int, int)>>)
    requires
        a < old(labels)@.len(),
        b < old(labels)@.len(),
        labelled(old(labels)@, pairs),
    ensures
        final(labels)@.len() == old(labels)@.len(),
        labelled(final(labels)@, pairs.push((a as int, b as int))),
{
    let keep: usize = labels[a];
    let lose: usize = labels[b];
    let ghost before = labels@;
    let mut k: usize = 0;
    while k < labels.len()
        invariant
            k <= labels@.len(),
            labels@.len() == before.len(),
            forall|i: int|
                0 <= i < k ==> #[trigger] labels@[i] == (if before[i] == lose {
                    keep
                } else {
                    before[i]
                }),
            forall|i: int| k <= i < before.len() ==> #[trigger] labels@[i] == before[i],
        decreases labels@.len() - k,
    {
        if labels[k] == lose {
            labels.set(k, keep);
        }
        k += 1;
    }
    proof {
        let more = pairs.push((a as int, b as int));
        assert(more.drop_last() =~= pairs);
        assert forall|i: int, j: int|
            0 <= i < labels@.len() && 0 <= j < labels@.len() implies ((#[trigger] labels@[i]
            == #[trigger] labels@[j]) == joined(more, i, j)) by {
            assert((before[i] == before[j]) == joined(pairs, i, j));
            assert((before[i] == before[a as int]) == joined(pairs, i, a as int));
            assert((before[b as int] == before[j]) == joined(pairs, b as int, j));
            assert((before[i] == before[b as int]) == joined(pairs, i, b as int));
            assert((before[a as int] == before[j]) == joined(pairs, a as int, j));
        }
    }
}

fn label_bunches(n: usize, near: &Vec<Vec<bool>>) -> (labels: Vec<usize>)
    requires
        near@.len() == n,
        forall|i: int| 0 <= i < n ==> (#[trigger] near@[i])@.len() == n,
    ensures
        labels@.len() == n,
        labelled(labels@, close_pairs(near@, n as int, n as int)),
{
    let mut labels: Vec<usize> = Vec::new();
    let mut k: usize = 0;
    while k < n
        invariant
            k <= n,
            labels@.len() == k,
            forall|i: int| 0 <= i < k ==> #[trigger] labels@[i] == i,
        decreases n - k,
    {
        labels.push(k);
        k += 1;
    }
    let mut a: usize = 0;
    while a < n
        invariant
            a <= n,
            labels@.len() == n,
            near@.len() == n,
            forall|i: int| 0 <= i < n ==> (#[trigger] near@[i])@.len() == n,
            labelled(labels@, close_pairs(near@, n as int, a as int)),
        decreases n - a,
    {
        let ghost done = close_pairs(near@, n as int, a as int);
        let mut b: usize = a + 1;
        assert(done + pairs_of(near@, a as int, b as int) =~= done);
        while b < n
            invariant
                a < b <= n,
                a < n,
                labels@.len() == n,
                near@.len() == n,
                forall|i: int| 0 <= i < n ==> (#[trigger] near@[i])@.len() == n,
                labelled(labels@, done + pairs_of(near@, a as int, b as int)),
            decreases n - b,
        {
            let ghost so_far = done + pairs_of(near@, a as int, b as int);
            if near[a][b] {
                unite(&mut labels, a, b, Ghost(so_far));
                assert(so_far.push((a as int, b as int)) =~= done + pairs_of(
                    near@,
                    a as int,
                    b + 1,
                ));
            } else {
                assert(so_far =~= done + pairs_of(near@, a as int, b + 1));
            }
            b += 1;
        }
        a += 1;
    }
    labels
}

/// A tank by its slot and its place in the list.
#[derive(Clone, Copy, Debug, PartialEq, Eq, Structural)]
struct Place {
    slot: usize,
    at: usize,
}

impl Ranked for Place {
    closed spec fn ahead(self, other: Place) -> bool {
        self.slot < other.slot
    }

    proof fn ranks(a: Place, b: Place, c: Place) {
    }

    fn is_ahead(&self, other: &Place) -> (r: bool) {
        self.slot < other.slot
    }
}

/// The group's slots count up.
pub open spec fn ascending(group: Seq<usize>) -> bool {
    forall|x: int, y: int| 0 <= x < y < group.len() ==> group[x] < group[y]
}

/// Places in slot order, one per tank.
spec fn placed(order: Seq<Place>, slots: Seq<usize>) -> bool {
    &&& order.len() == slots.len()
    &&& forall|m: int|
        0 <= m < order.len() ==> (#[trigger] order[m]).at < slots.len() && slots[order[m].at as int]
            == order[m].slot
    &&& forall|x: int, y: int|
        0 <= x < y < order.len() ==> (#[trigger] order[x]).slot < (#[trigger] order[y]).slot
    &&& forall|i: int| 0 <= i < slots.len() ==> #[trigger] stands(order, i)
}

/// Some place is the `i`-th tank's.
spec fn stands(order: Seq<Place>, i: int) -> bool {
    exists|m: int| 0 <= m < order.len() && (#[trigger] order[m]).at == i
}

fn slot_order(slots: &Vec<usize>) -> (order: Vec<Place>)
    requires
        slots@.no_duplicates(),
    ensures
        placed(order@, slots@),
{
    let mut places: Vec<Place> = Vec::new();
    let mut n: usize = 0;
    while n < slots.len()
        invariant
            n <= slots@.len(),
            places@.len() == n,
            forall|i: int|
                0 <= i < n ==> (#[trigger] places@[i]).at == i && places@[i].slot == slots@[i],
        decreases slots@.len() - n,
    {
        places.push(Place { slot: slots[n], at: n });
        n += 1;
    }
    let order: Vec<Place> = sort_ranked(&places);
    proof {
        broadcast use vstd::seq_lib::group_to_multiset_ensures;

        assert(order@.len() == places@.len()) by {
            assert(order@.to_multiset().len() == places@.to_multiset().len());
        }
        assert forall|m: int| 0 <= m < order@.len() implies (#[trigger] order@[m]).at < slots@.len()
            && slots@[order@[m].at as int] == order@[m].slot by {
            same_members(order@, places@, m);
            let i = choose|i: int| 0 <= i < places@.len() && places@[i] == order@[m];
        }
        assert forall|i: int| 0 <= i < slots@.len() implies #[trigger] stands(order@, i) by {
            same_members(places@, order@, i);
            let m = choose|m: int| 0 <= m < order@.len() && order@[m] == places@[i];
            assert(order@[m].at == i);
        }
        lemma_once(order@, places@);
        assert forall|x: int, y: int| 0 <= x < y < order@.len() implies (#[trigger] order@[x]).slot
            < (#[trigger] order@[y]).slot by {
            assert(!order@[y].ahead(order@[x]));
            if order@[x].slot == order@[y].slot {
                assert(slots@[order@[x].at as int] == slots@[order@[y].at as int]);
                assert(order@[x] == order@[y]);
            }
        }
    }
    order
}

proof fn lemma_once(order: Seq<Place>, places: Seq<Place>)
    requires
        order.to_multiset() == places.to_multiset(),
        forall|i: int, j: int| 0 <= i < j < places.len() ==> (#[trigger] places[i]) != (#[trigger] places[j]),
    ensures
        order.no_duplicates(),
{
    broadcast use vstd::seq_lib::group_to_multiset_ensures;

    places.lemma_multiset_has_no_duplicates();
    order.lemma_multiset_has_no_duplicates_conv();
}

/// A group holds the slots of the tanks from the `k`-th place on that share
/// its label.
spec fn gathers(order: Seq<Place>, labels: Seq<usize>, k: int, group: Seq<usize>) -> bool {
    &&& group.len() > 0
    &&& group[0] == order[k].slot
    &&& ascending(group)
    &&& forall|m: int|
        k <= m < order.len() && labels[(#[trigger] order[m]).at as int] == labels[order[k].at as int]
            ==> group.contains(order[m].slot)
    &&& forall|x: int|
        0 <= x < group.len() ==> exists|m: int|
            k <= m < order.len() && (#[trigger] order[m]).slot == #[trigger] group[x]
                && labels[order[m].at as int] == labels[order[k].at as int]
}

fn gather(order: &Vec<Place>, labels: &Vec<usize>, k: usize, Ghost(slots): Ghost<Seq<usize>>) -> (group:
    Vec<usize>)
    requires
        placed(order@, slots),
        labels@.len() == slots.len(),
        k < order@.len(),
    ensures
        gathers(order@, labels@, k as int, group@),
{
    let count: usize = order.len();
    let label: usize = labels[order[k].at];
    let mut group: Vec<usize> = Vec::new();
    group.push(order[k].slot);
    assert(k < count);
    let mut m: usize = k + 1;
    assert(group@[0] == order@[k as int].slot);
    while m < order.len()
        invariant
            placed(order@, slots),
            labels@.len() == slots.len(),
            k < m <= order@.len(),
            label == labels@[order@[k as int].at as int],
            group@.len() > 0,
            group@[0] == order@[k as int].slot,
            ascending(group@),
            forall|i: int|
                k <= i < m && labels@[(#[trigger] order@[i]).at as int] == label
                    ==> group@.contains(order@[i].slot),
            forall|x: int|
                0 <= x < group@.len() ==> exists|i: int|
                    k <= i < m && (#[trigger] order@[i]).slot == #[trigger] group@[x]
                        && labels@[order@[i].at as int] == label,
        decreases order@.len() - m,
    {
        let place: Place = order[m];
        assert(order@[m as int].at < slots.len());
        if labels[place.at] == label {
            let ghost before = group@;
            assert forall|x: int| 0 <= x < before.len() implies before[x] < place.slot by {
                let i = choose|i: int|
                    k <= i < m && (#[trigger] order@[i]).slot == before[x]
                        && labels@[order@[i].at as int] == label;
                assert(order@[i].slot < order@[m as int].slot);
            }
            group.push(place.slot);
            assert(group@[before.len() as int] == place.slot);
            assert forall|i: int|
                k <= i < m + 1 && labels@[(#[trigger] order@[i]).at as int] == label implies group@.contains(
            order@[i].slot) by {
                if i < m {
                    let x = choose|x: int| 0 <= x < before.len() && before[x] == order@[i].slot;
                    assert(group@[x] == order@[i].slot);
                }
            }
            assert forall|x: int| 0 <= x < group@.len() implies exists|i: int|
                k <= i < m + 1 && (#[trigger] order@[i]).slot == #[trigger] group@[x]
                    && labels@[order@[i].at as int] == label by {
                if x < before.len() {
                    assert(group@[x] == before[x]);
                    let i = choose|i: int|
                        k <= i < m && (#[trigger] order@[i]).slot == before[x]
                            && labels@[order@[i].at as int] == label;
                    assert(order@[i].slot == group@[x]);
                } else {
                    assert(order@[m as int].slot == group@[x]);
                }
            }
        }
        m += 1;
    }
    group
}

fn seen_before(order: &Vec<Place>, labels: &Vec<usize>, k: usize, Ghost(slots): Ghost<Seq<usize>>) -> (r:
    bool)
    requires
        placed(order@, slots),
        labels@.len() == slots.len(),
        k < order@.len(),
    ensures
        r == exists|m: int|
            0 <= m < k && labels@[(#[trigger] order@[m]).at as int] == labels@[order@[k as int].at as int],
{
    let label: usize = labels[order[k].at];
    let mut m: usize = 0;
    while m < k
        invariant
            placed(order@, slots),
            labels@.len() == slots.len(),
            m <= k < order@.len(),
            label == labels@[order@[k as int].at as int],
            forall|i: int| 0 <= i < m ==> labels@[(#[trigger] order@[i]).at as int] != label,
        decreases k - m,
    {
        assert(order@[m as int].at < slots.len());
        if labels[order[m].at] == label {
            return true;
        }
        m += 1;
    }
    false
}

/// Two slots stand in one group.
pub open spec fn grouped(groups: Seq<Vec<usize>>, a: usize, b: usize) -> bool {
    exists|g: int|
        0 <= g < groups.len() && (#[trigger] groups[g])@.contains(a) && groups[g]@.contains(b)
}

/// No slot stands in two groups.
pub open spec fn apart(groups: Seq<Vec<usize>>) -> bool {
    forall|g: int, h: int, slot: usize|
        0 <= g < h < groups.len() && #[trigger] groups[g]@.contains(slot)
            ==> !#[trigger] groups[h]@.contains(slot)
}

/// The groups say exactly which tanks are bunched up with another.
pub open spec fn clustered(slots: Seq<usize>, near: Seq<Vec<bool>>, groups: Seq<Vec<usize>>) -> bool {
    let n = slots.len() as int;
    &&& forall|g: int|
        0 <= g < groups.len() ==> (#[trigger] groups[g])@.len() >= 2 && ascending(groups[g]@)
    &&& forall|g: int, h: int|
        0 <= g < h < groups.len() ==> (#[trigger] groups[g])@[0] < (#[trigger] groups[h])@[0]
    &&& forall|g: int, x: int|
        0 <= g < groups.len() && 0 <= x < groups[g]@.len() ==> slots.contains(
            #[trigger] groups[g]@[x],
        )
    &&& apart(groups)
    &&& forall|i: int, j: int|
        0 <= i < n && 0 <= j < n && i != j ==> #[trigger] bunched(near, n, i, j) == grouped(
            groups,
            slots[i],
            slots[j],
        )
}

/// The label of the tank at a place.
spec fn label_at(order: Seq<Place>, labels: Seq<usize>, m: int) -> usize {
    labels[order[m].at as int]
}

/// A place is the first with its label.
spec fn leads(order: Seq<Place>, labels: Seq<usize>, k: int) -> bool {
    forall|m: int| 0 <= m < k ==> #[trigger] label_at(order, labels, m) != label_at(order, labels, k)
}

proof fn lemma_leader(order: Seq<Place>, labels: Seq<usize>, m: int) -> (f: int)
    requires
        0 <= m < order.len(),
    ensures
        0 <= f <= m,
        label_at(order, labels, f) == label_at(order, labels, m),
        leads(order, labels, f),
    decreases m,
{
    if leads(order, labels, m) {
        m
    } else {
        let k = choose|k: int|
            0 <= k < m && #[trigger] label_at(order, labels, k) == label_at(order, labels, m);
        lemma_leader(order, labels, k)
    }
}

/// The groups led by the places before `k`.
spec fn grouping(
    order: Seq<Place>,
    labels: Seq<usize>,
    groups: Seq<Vec<usize>>,
    firsts: Seq<int>,
    k: int,
) -> bool {
    &&& firsts.len() == groups.len()
    &&& forall|g: int|
        0 <= g < groups.len() ==> 0 <= #[trigger] firsts[g] < k && gathers(
            order,
            labels,
            firsts[g],
            groups[g]@,
        ) && groups[g]@.len() >= 2 && leads(order, labels, firsts[g])
    &&& forall|g: int, h: int| 0 <= g < h < firsts.len() ==> firsts[g] < firsts[h]
    &&& forall|m: int, o: int|
        0 <= m < k && m < o < order.len() && #[trigger] leads(order, labels, m)
            && #[trigger] label_at(order, labels, o) == label_at(order, labels, m)
            ==> firsts.contains(m)
}

proof fn lemma_clustered(
    slots: Seq<usize>,
    near: Seq<Vec<bool>>,
    order: Seq<Place>,
    labels: Seq<usize>,
    groups: Seq<Vec<usize>>,
    firsts: Seq<int>,
)
    requires
        slots.no_duplicates(),
        placed(order, slots),
        labels.len() == slots.len(),
        labelled(labels, close_pairs(near, slots.len() as int, slots.len() as int)),
        grouping(order, labels, groups, firsts, order.len() as int),
    ensures
        clustered(slots, near, groups),
{
    let n = slots.len() as int;
    assert forall|g: int| 0 <= g < groups.len() implies (#[trigger] groups[g])@.len() >= 2
        && ascending(groups[g]@) by {
        assert(0 <= firsts[g]);
    }
    assert forall|g: int, h: int| 0 <= g < h < groups.len() implies (#[trigger] groups[g])@[0]
        < (#[trigger] groups[h])@[0] by {
        assert(firsts[g] < firsts[h]);
        assert(order[firsts[g]].slot < order[firsts[h]].slot);
    }
    assert forall|g: int, x: int|
        0 <= g < groups.len() && 0 <= x < groups[g]@.len() implies slots.contains(
        #[trigger] groups[g]@[x],
    ) by {
        assert(0 <= firsts[g]);
        let m = choose|m: int|
            firsts[g] <= m < order.len() && (#[trigger] order[m]).slot == groups[g]@[x]
                && labels[order[m].at as int] == labels[order[firsts[g]].at as int];
        assert(slots[order[m].at as int] == groups[g]@[x]);
    }
    assert forall|g: int, h: int, slot: usize|
        0 <= g < h < groups.len() && #[trigger] groups[g]@.contains(slot) implies !#[trigger] groups[h]@.contains(
    slot) by {
        if groups[h]@.contains(slot) {
            assert(0 <= firsts[g] && 0 <= firsts[h] && firsts[g] < firsts[h]);
            let x = choose|x: int| 0 <= x < groups[g]@.len() && groups[g]@[x] == slot;
            let y = choose|y: int| 0 <= y < groups[h]@.len() && groups[h]@[y] == slot;
            let a = choose|m: int|
                firsts[g] <= m < order.len() && (#[trigger] order[m]).slot == groups[g]@[x]
                    && labels[order[m].at as int] == labels[order[firsts[g]].at as int];
            let b = choose|m: int|
                firsts[h] <= m < order.len() && (#[trigger] order[m]).slot == groups[h]@[y]
                    && labels[order[m].at as int] == labels[order[firsts[h]].at as int];
            assert(a == b);
            assert(label_at(order, labels, firsts[g]) == label_at(order, labels, firsts[h]));
        }
    }
    assert forall|i: int, j: int| 0 <= i < n && 0 <= j < n && i != j implies #[trigger] bunched(
        near,
        n,
        i,
        j,
    ) == grouped(groups, slots[i], slots[j]) by {
        assert((labels[i] == labels[j]) == bunched(near, n, i, j));
        if grouped(groups, slots[i], slots[j]) {
            let g = choose|g: int|
                0 <= g < groups.len() && (#[trigger] groups[g])@.contains(slots[i])
                    && groups[g]@.contains(slots[j]);
            assert(0 <= firsts[g]);
            let x = choose|x: int| 0 <= x < groups[g]@.len() && groups[g]@[x] == slots[i];
            let y = choose|y: int| 0 <= y < groups[g]@.len() && groups[g]@[y] == slots[j];
            let a = choose|m: int|
                firsts[g] <= m < order.len() && (#[trigger] order[m]).slot == groups[g]@[x]
                    && labels[order[m].at as int] == labels[order[firsts[g]].at as int];
            let b = choose|m: int|
                firsts[g] <= m < order.len() && (#[trigger] order[m]).slot == groups[g]@[y]
                    && labels[order[m].at as int] == labels[order[firsts[g]].at as int];
            assert(order[a].at == i);
            assert(order[b].at == j);
        }
        if labels[i] == labels[j] {
            assert(stands(order, i) && stands(order, j));
            let a = choose|m: int| 0 <= m < order.len() && (#[trigger] order[m]).at == i;
            let b = choose|m: int| 0 <= m < order.len() && (#[trigger] order[m]).at == j;
            let f = lemma_leader(order, labels, if a < b {
                    a
                } else {
                    b
                });
            let later = if a < b {
                b
            } else {
                a
            };
            assert(label_at(order, labels, later) == label_at(order, labels, f));
            assert(leads(order, labels, f));
            assert(firsts.contains(f));
            let g = choose|g: int| 0 <= g < firsts.len() && firsts[g] == f;
            assert(0 <= firsts[g]);
            assert(groups[g]@.contains(order[a].slot));
            assert(groups[g]@.contains(order[b].slot));
        }
    }
}

/// Groups of two or more tanks transitively close to each other, each group's
/// slots ascending and the groups by their first slot. `near` says of each
/// pair of tanks, the earlier first, whether they are close.
pub fn clusters(slots: &Vec<usize>, near: &Vec<Vec<bool>>) -> (groups: Vec<Vec<usize>>)
    requires
        slots@.no_duplicates(),
        near@.len() == slots@.len(),
        forall|i: int| 0 <= i < near@.len() ==> (#[trigger] near@[i])@.len() == slots@.len(),
    ensures
        clustered(slots@, near@, groups@),
{
    let labels: Vec<usize> = label_bunches(slots.len(), near);
    let order: Vec<Place> = slot_order(slots);
    let mut groups: Vec<Vec<usize>> = Vec::new();
    let ghost mut firsts: Seq<int> = Seq::empty();
    let mut k: usize = 0;
    while k < order.len()
        invariant
            k <= order@.len(),
            placed(order@, slots@),
            labels@.len() == slots@.len(),
            grouping(order@, labels@, groups@, firsts, k as int),
        decreases order@.len() - k,
    {
        let ghost before = firsts;
        let ghost had = groups@;
        let seen: bool = seen_before(&order, &labels, k, Ghost(slots@));
        proof {
            if seen {
                let m = choose|m: int|
                    0 <= m < k && labels@[(#[trigger] order@[m]).at as int]
                        == labels@[order@[k as int].at as int];
                assert(label_at(order@, labels@, m) == label_at(order@, labels@, k as int));
                assert(!leads(order@, labels@, k as int));
            } else {
                assert forall|m: int| 0 <= m < k implies #[trigger] label_at(order@, labels@, m)
                    != label_at(order@, labels@, k as int) by {
                    assert(order@[m].at < slots@.len());
                }
            }
        }
        if !seen {
            let group: Vec<usize> = gather(&order, &labels, k, Ghost(slots@));
            let size: usize = group.len();
            if size >= 2 {
                groups.push(group);
                proof {
                    firsts = firsts.push(k as int);
                    assert(firsts[before.len() as int] == k);
                }
            } else {
                proof {
                    assert forall|o: int| k < o < order@.len() implies #[trigger] label_at(
                        order@,
                        labels@,
                        o,
                    ) != label_at(order@, labels@, k as int) by {
                        if label_at(order@, labels@, o) == label_at(order@, labels@, k as int) {
                            assert(labels@[order@[o].at as int] == labels@[order@[k as int].at as int]);
                            assert(group@.contains(order@[o].slot));
                            assert(order@[k as int].slot < order@[o].slot);
                        }
                    }
                }
            }
        }
        proof {
            assert forall|g: int| 0 <= g < groups@.len() implies 0 <= #[trigger] firsts[g] < k + 1
                && gathers(order@, labels@, firsts[g], groups@[g]@) && groups@[g]@.len() >= 2 by {
                if g < before.len() {
                    assert(firsts[g] == before[g]);
                    assert(groups@[g] == had[g]);
                }
            }
            assert forall|m: int, o: int|
                0 <= m < k + 1 && m < o < order@.len() && #[trigger] leads(order@, labels@, m)
                    && #[trigger] label_at(order@, labels@, o) == label_at(
                    order@,
                    labels@,
                    m,
                ) implies firsts.contains(m) by {
                if m < k {
                    assert(before.contains(m));
                    let g = choose|g: int| 0 <= g < before.len() && before[g] == m;
                    assert(firsts[g] == m);
                }
            }
        }
        k += 1;
    }
    proof {
        lemma_clustered(slots@, near@, order@, labels@, groups@, firsts);
    }
    groups
}

proof fn lemma_pairs_of(near: Seq<Vec<bool>>, a: int, b: int)
    ensures
        forall|p: int|
            0 <= p < pairs_of(near, a, b).len() ==> {
                let pair = #[trigger] pairs_of(near, a, b)[p];
                pair.0 == a && a < pair.1 < b && near[a]@[pair.1]
            },
        forall|y: int|
            a < y < b && #[trigger] near[a]@[y] ==> pairs_of(near, a, b).contains((a, y)),
    decreases b - a,
{
    if b > a + 1 {
        lemma_pairs_of(near, a, b - 1);
        let before = pairs_of(near, a, b - 1);
        let now = pairs_of(near, a, b);
        assert forall|p: int| 0 <= p < now.len() implies {
            let pair = #[trigger] now[p];
            pair.0 == a && a < pair.1 < b && near[a]@[pair.1]
        } by {
            if p < before.len() {
                assert(now[p] == before[p]);
            }
        }
        assert forall|y: int| a < y < b && #[trigger] near[a]@[y] implies now.contains((a, y)) by {
            if y < b - 1 {
                let p = choose|p: int| 0 <= p < before.len() && before[p] == (a, y);
                assert(now[p] == (a, y));
            } else {
                assert(now[before.len() as int] == (a, y));
            }
        }
    }
}

proof fn lemma_close_pairs(near: Seq<Vec<bool>>, n: int, a: int)
    requires
        a <= n,
    ensures
        forall|p: int|
            0 <= p < close_pairs(near, n, a).len() ==> {
                let pair = #[trigger] close_pairs(near, n, a)[p];
                0 <= pair.0 < a && pair.0 < pair.1 < n && near[pair.0]@[pair.1]
            },
        forall|x: int, y: int|
            0 <= x < a && x < y < n && #[trigger] near[x]@[y] ==> close_pairs(
                near,
                n,
                a,
            ).contains((x, y)),
    decreases a,
{
    if a > 0 {
        lemma_close_pairs(near, n, a - 1);
        lemma_pairs_of(near, a - 1, n);
        let before = close_pairs(near, n, a - 1);
        let more = pairs_of(near, a - 1, n);
        let now = close_pairs(near, n, a);
        assert forall|p: int| 0 <= p < now.len() implies {
            let pair = #[trigger] now[p];
            0 <= pair.0 < a && pair.0 < pair.1 < n && near[pair.0]@[pair.1]
        } by {
            if p < before.len() {
                assert(now[p] == before[p]);
            } else {
                assert(now[p] == more[p - before.len()]);
            }
        }
        assert forall|x: int, y: int| 0 <= x < a && x < y < n && #[trigger] near[x]@[y] implies now.contains(
            (x, y),
        ) by {
            if x < a - 1 {
                let p = choose|p: int| 0 <= p < before.len() && before[p] == (x, y);
                assert(now[p] == (x, y));
            } else {
                let p = choose|p: int| 0 <= p < more.len() && more[p] == (x, y);
                assert(now[before.len() + p] == (x, y));
            }
        }
    }
}

/// Two tanks are close, whichever of them comes first.
pub open spec fn close_by(near: Seq<Vec<bool>>, i: int, j: int) -> bool {
    if i < j {
        near[i]@[j]
    } else {
        near[j]@[i]
    }
}

/// The same tanks in another order: the `i`-th of the second list is the
/// `to(i)`-th of the first, and as close to the others.
pub open spec fn reordered(
    a_slots: Seq<usize>,
    a_near: Seq<Vec<bool>>,
    b_slots: Seq<usize>,
    b_near: Seq<Vec<bool>>,
    to: spec_fn(int) -> int,
) -> bool {
    let n = a_slots.len() as int;
    &&& b_slots.len() == n
    &&& forall|i: int|
        0 <= i < n ==> 0 <= #[trigger] to(i) < n && b_slots[i] == a_slots[to(i)]
    &&& forall|i: int, j: int|
        0 <= i < n && 0 <= j < n && i != j ==> #[trigger] to(i) != #[trigger] to(j) && close_by(
            b_near,
            i,
            j,
        ) == close_by(a_near, to(i), to(j))
}

proof fn lemma_bunched_moves(
    a_slots: Seq<usize>,
    a_near: Seq<Vec<bool>>,
    b_slots: Seq<usize>,
    b_near: Seq<Vec<bool>>,
    to: spec_fn(int) -> int,
    i: int,
    j: int,
)
    requires
        reordered(a_slots, a_near, b_slots, b_near, to),
        bunched(b_near, a_slots.len() as int, i, j),
        0 <= i < a_slots.len(),
        0 <= j < a_slots.len(),
    ensures
        bunched(a_near, a_slots.len() as int, to(i), to(j)),
{
    let n = a_slots.len() as int;
    let a_pairs = close_pairs(a_near, n, n);
    let b_pairs = close_pairs(b_near, n, n);
    let related = |x: int, y: int| joined(a_pairs, to(x), to(y));
    lemma_close_pairs(a_near, n, n);
    lemma_close_pairs(b_near, n, n);
    assert forall|x: int| #[trigger] related(x, x) by {
        lemma_joined_reflexive(a_pairs, to(x));
    }
    assert forall|x: int, y: int| #[trigger] related(x, y) implies related(y, x) by {
        lemma_joined_symmetric(a_pairs, to(x), to(y));
    }
    assert forall|x: int, y: int, z: int| #[trigger] related(x, y) && #[trigger] related(
        y,
        z,
    ) implies related(x, z) by {
        lemma_joined_transitive(a_pairs, to(x), to(y), to(z));
    }
    assert forall|p: int| 0 <= p < b_pairs.len() implies related(
        (#[trigger] b_pairs[p]).0,
        b_pairs[p].1,
    ) by {
        let (x, y) = b_pairs[p];
        assert(b_near[x]@[y]);
        assert(close_by(b_near, x, y));
        let (u, v) = (to(x), to(y));
        assert(u != v && close_by(a_near, u, v));
        if u < v {
            assert(a_near[u]@[v]);
            let q = choose|q: int| 0 <= q < a_pairs.len() && a_pairs[q] == (u, v);
            joined_is_an_equivalence(a_pairs, u, v, u);
            assert(joined(a_pairs, a_pairs[q].0, a_pairs[q].1));
        } else {
            assert(a_near[v]@[u]);
            let q = choose|q: int| 0 <= q < a_pairs.len() && a_pairs[q] == (v, u);
            joined_is_an_equivalence(a_pairs, v, u, v);
            assert(joined(a_pairs, a_pairs[q].0, a_pairs[q].1));
        }
    }
    joined_is_the_least(b_pairs, related, i, j);
}

/// Two lists that count up and hold the same are the same.
proof fn lemma_ascending_same(a: Seq<usize>, b: Seq<usize>)
    requires
        ascending(a),
        ascending(b),
        forall|x: usize| #[trigger] a.contains(x) ==> b.contains(x),
        forall|x: usize| #[trigger] b.contains(x) ==> a.contains(x),
    ensures
        a == b,
    decreases a.len(),
{
    if a.len() == 0 {
        if b.len() > 0 {
            assert(b.contains(b[0]));
        }
        assert(a =~= b);
    } else {
        assert(a.contains(a.last()));
        let i = choose|i: int| 0 <= i < b.len() && b[i] == a.last();
        assert(b.contains(b.last()));
        let k = choose|k: int| 0 <= k < a.len() && a[k] == b.last();
        assert(a.last() == b.last()) by {
            if i < b.len() - 1 {
                assert(b[i] < b.last());
                if k < a.len() - 1 {
                    assert(a[k] < a.last());
                }
            }
        }
        let (x, y) = (a.drop_last(), b.drop_last());
        assert forall|s: usize| #[trigger] x.contains(s) implies y.contains(s) by {
            let p = choose|p: int| 0 <= p < x.len() && x[p] == s;
            assert(a[p] == s && a[p] < a.last());
            assert(a.contains(s));
            let q = choose|q: int| 0 <= q < b.len() && b[q] == s;
            assert(y[q] == s);
        }
        assert forall|s: usize| #[trigger] y.contains(s) implies x.contains(s) by {
            let p = choose|p: int| 0 <= p < y.len() && y[p] == s;
            assert(b[p] == s && b[p] < b.last());
            assert(b.contains(s));
            let q = choose|q: int| 0 <= q < a.len() && a[q] == s;
            assert(x[q] == s);
        }
        lemma_ascending_same(x, y);
        assert(a =~= x.push(a.last()));
        assert(b =~= y.push(b.last()));
    }
}

/// What two groupings agree on: they group the same slots.
spec fn agree(a: Seq<Vec<usize>>, b: Seq<Vec<usize>>) -> bool {
    forall|x: usize, y: usize| x != y && #[trigger] grouped(a, x, y) ==> grouped(b, x, y)
}

/// A grouping in order.
spec fn in_groups(groups: Seq<Vec<usize>>) -> bool {
    &&& forall|g: int|
        0 <= g < groups.len() ==> (#[trigger] groups[g])@.len() >= 2 && ascending(groups[g]@)
    &&& forall|g: int, h: int|
        0 <= g < h < groups.len() ==> (#[trigger] groups[g])@[0] < (#[trigger] groups[h])@[0]
    &&& apart(groups)
}

proof fn lemma_same_group(a: Seq<Vec<usize>>, b: Seq<Vec<usize>>, g: int) -> (h: int)
    requires
        in_groups(a),
        in_groups(b),
        agree(a, b),
        agree(b, a),
        0 <= g < a.len(),
    ensures
        0 <= h < b.len(),
        a[g]@ == b[h]@,
{
    let (s, t) = (a[g]@[0], a[g]@[1]);
    assert(s < t);
    assert(a[g]@.contains(s) && a[g]@.contains(t));
    assert(grouped(a, s, t));
    let h = choose|h: int| 0 <= h < b.len() && (#[trigger] b[h])@.contains(s) && b[h]@.contains(t);
    assert forall|x: usize| #[trigger] a[g]@.contains(x) implies b[h]@.contains(x) by {
        if x != s {
            assert(grouped(a, s, x));
            let k = choose|k: int|
                0 <= k < b.len() && (#[trigger] b[k])@.contains(s) && b[k]@.contains(x);
            assert(k == h);
        }
    }
    assert forall|x: usize| #[trigger] b[h]@.contains(x) implies a[g]@.contains(x) by {
        if x != s {
            assert(grouped(b, s, x));
            let k = choose|k: int|
                0 <= k < a.len() && (#[trigger] a[k])@.contains(s) && a[k]@.contains(x);
            assert(k == g);
        }
    }
    lemma_ascending_same(a[g]@, b[h]@);
    h
}

proof fn lemma_same_groups(a: Seq<Vec<usize>>, b: Seq<Vec<usize>>)
    requires
        in_groups(a),
        in_groups(b),
        agree(a, b),
        agree(b, a),
    ensures
        a.len() == b.len(),
        forall|g: int| 0 <= g < a.len() ==> (#[trigger] a[g])@ == b[g]@,
{
    let x = Seq::new(a.len(), |g: int| a[g]@[0]);
    let y = Seq::new(b.len(), |g: int| b[g]@[0]);
    assert forall|s: usize| #[trigger] x.contains(s) implies y.contains(s) by {
        let g = choose|g: int| 0 <= g < x.len() && x[g] == s;
        let h = lemma_same_group(a, b, g);
        assert(y[h] == s);
    }
    assert forall|s: usize| #[trigger] y.contains(s) implies x.contains(s) by {
        let g = choose|g: int| 0 <= g < y.len() && y[g] == s;
        let h = lemma_same_group(b, a, g);
        assert(x[h] == s);
    }
    assert forall|i: int, j: int| 0 <= i < j < x.len() implies x[i] < x[j] by {
        assert(a[i]@[0] < a[j]@[0]);
    }
    assert forall|i: int, j: int| 0 <= i < j < y.len() implies y[i] < y[j] by {
        assert(b[i]@[0] < b[j]@[0]);
    }
    lemma_ascending_same(x, y);
    assert forall|g: int| 0 <= g < a.len() implies (#[trigger] a[g])@ == b[g]@ by {
        let h = lemma_same_group(a, b, g);
        assert(x[g] == y[g]);
        if h < g {
            assert(b[h]@[0] < b[g]@[0]);
        } else if g < h {
            assert(b[g]@[0] < b[h]@[0]);
        }
    }
}

proof fn lemma_agrees(
    a_slots: Seq<usize>,
    a_near: Seq<Vec<bool>>,
    a: Seq<Vec<usize>>,
    b_slots: Seq<usize>,
    b_near: Seq<Vec<bool>>,
    b: Seq<Vec<usize>>,
    to: spec_fn(int) -> int,
)
    requires
        clustered(a_slots, a_near, a),
        clustered(b_slots, b_near, b),
        reordered(a_slots, a_near, b_slots, b_near, to),
    ensures
        agree(b, a),
{
    let n = a_slots.len() as int;
    assert forall|x: usize, y: usize| x != y && #[trigger] grouped(b, x, y) implies grouped(
        a,
        x,
        y,
    ) by {
        let g = choose|g: int|
            0 <= g < b.len() && (#[trigger] b[g])@.contains(x) && b[g]@.contains(y);
        let p = choose|p: int| 0 <= p < b[g]@.len() && b[g]@[p] == x;
        let q = choose|q: int| 0 <= q < b[g]@.len() && b[g]@[q] == y;
        assert(b_slots.contains(b[g]@[p]) && b_slots.contains(b[g]@[q]));
        let i = choose|i: int| 0 <= i < b_slots.len() && b_slots[i] == x;
        let j = choose|j: int| 0 <= j < b_slots.len() && b_slots[j] == y;
        assert(bunched(b_near, n, i, j));
        lemma_bunched_moves(a_slots, a_near, b_slots, b_near, to, i, j);
        assert(to(i) != to(j));
        assert(bunched(a_near, n, to(i), to(j)) == grouped(a, a_slots[to(i)], a_slots[to(j)]));
    }
}

/// Who is bunched up does not depend on the order the tanks are listed in: the
/// same tanks, as close to one another, come out as the same groups in the same
/// order. `to` says where each tank of the second list stands in the first, and
/// `back` the other way round.
pub proof fn the_groups_do_not_depend_on_the_order(
    a_slots: Seq<usize>,
    a_near: Seq<Vec<bool>>,
    a: Seq<Vec<usize>>,
    b_slots: Seq<usize>,
    b_near: Seq<Vec<bool>>,
    b: Seq<Vec<usize>>,
    to: spec_fn(int) -> int,
    back: spec_fn(int) -> int,
)
    requires
        clustered(a_slots, a_near, a),
        clustered(b_slots, b_near, b),
        reordered(a_slots, a_near, b_slots, b_near, to),
        reordered(b_slots, b_near, a_slots, a_near, back),
    ensures
        a.len() == b.len(),
        forall|g: int| 0 <= g < a.len() ==> (#[trigger] a[g])@ == b[g]@,
{
    lemma_agrees(a_slots, a_near, a, b_slots, b_near, b, to);
    lemma_agrees(b_slots, b_near, b, a_slots, a_near, a, back);
    lemma_same_groups(a, b);
}

/// Two tanks that are close are in one group, and so is everyone close to
/// either of them; a tank close to nobody is in no group with another.
pub proof fn close_tanks_are_grouped(
    slots: Seq<usize>,
    near: Seq<Vec<bool>>,
    groups: Seq<Vec<usize>>,
    i: int,
    j: int,
    k: int,
)
    requires
        clustered(slots, near, groups),
        0 <= i < j < slots.len(),
        0 <= k < slots.len(),
        i != k,
        j != k,
    ensures
        near[i]@[j] ==> grouped(groups, slots[i], slots[j]),
        near[i]@[j] && (if j < k {
            near[j]@[k]
        } else {
            near[k]@[j]
        }) ==> grouped(groups, slots[i], slots[k]),
        (forall|x: int| 0 <= x < k ==> !(#[trigger] near[x]@[k])) && (forall|x: int|
            k < x < slots.len() ==> !(#[trigger] near[k]@[x])) ==> !grouped(
            groups,
            slots[k],
            slots[i],
        ) && !grouped(groups, slots[k], slots[j]),
{
    let n = slots.len() as int;
    let pairs = close_pairs(near, n, n);
    lemma_close_pairs(near, n, n);
    joined_is_an_equivalence(pairs, i, j, k);
    joined_is_an_equivalence(pairs, k, j, i);
    joined_is_an_equivalence(pairs, j, k, i);
    assert(bunched(near, n, i, j) == grouped(groups, slots[i], slots[j]));
    assert(bunched(near, n, i, k) == grouped(groups, slots[i], slots[k]));
    assert(bunched(near, n, k, i) == grouped(groups, slots[k], slots[i]));
    assert(bunched(near, n, k, j) == grouped(groups, slots[k], slots[j]));
    if near[i]@[j] {
        assert(pairs.contains((i, j)));
        let p = choose|p: int| 0 <= p < pairs.len() && pairs[p] == (i, j);
        assert(joined(pairs, pairs[p].0, pairs[p].1));
        if j < k && near[j]@[k] {
            assert(pairs.contains((j, k)));
            let q = choose|q: int| 0 <= q < pairs.len() && pairs[q] == (j, k);
            assert(joined(pairs, pairs[q].0, pairs[q].1));
        }
        if k < j && near[k]@[j] {
            assert(pairs.contains((k, j)));
            let q = choose|q: int| 0 <= q < pairs.len() && pairs[q] == (k, j);
            assert(joined(pairs, pairs[q].0, pairs[q].1));
        }
    }
    if (forall|x: int| 0 <= x < k ==> !(#[trigger] near[x]@[k])) && (forall|x: int|
        k < x < slots.len() ==> !(#[trigger] near[k]@[x])) {
        let related = |x: int, y: int| (x == k) == (y == k);
        assert forall|p: int| 0 <= p < pairs.len() implies related(
            (#[trigger] pairs[p]).0,
            pairs[p].1,
        ) by {
            let (a, b) = pairs[p];
            assert(near[a]@[b]);
        }
        if joined(pairs, k, i) {
            joined_is_the_least(pairs, related, k, i);
        }
        if joined(pairs, k, j) {
            joined_is_the_least(pairs, related, k, j);
        }
    }
}

} // verus!
