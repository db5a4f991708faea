//! Portals: a live tank that reaches one, with its cooldown run out, is placed
//! beside a different one chosen at random among those with room.
//!
//! Where there is room is the host's to say; who goes, in what order, where
//! they come out and what is drawn for it are decided here. A map with fewer
//! than two portals behaves exactly as one with none.

use rand::rngs::SmallRng;
use vstd::prelude::*;

use crate::dice::pick_index;
use crate::event::Event;
use crate::frame::{Frame, Record, ShockKind};
use crate::ranking::{ranked, sort_ranked, Ranked};
use crate::scalar::{Point, Scalar};

verus! {

/// The network works only with two or more portals.
#[verifier::allow_in_spec]
pub fn portals_active(portals: usize) -> bool
    returns
        (portals >= 2),
{
    portals >= 2
}

/// The nearest of the first `n` portals within the radius, the earliest of
/// equals.
pub open spec fn nearest_portal(distances: Seq<Scalar>, radius: Scalar, n: int) -> Option<int>
    decreases n,
{
    if n <= 0 {
        None
    } else {
        let best = nearest_portal(distances, radius, n - 1);
        if distances[n - 1].at_most(radius) && (match best {
            Some(b) => distances[n - 1].total_rank() < distances[b].total_rank(),
            None => true,
        }) {
            Some(n - 1)
        } else {
            best
        }
    }
}

/// The portal a tank has reached, if any.
pub fn entrance(distances: &Vec<Scalar>, radius: Scalar) -> (r: Option<usize>)
    ensures
        match nearest_portal(distances@, radius, distances@.len() as int) {
            Some(i) => r == Some(i as usize) && 0 <= i < distances@.len(),
            None => r is None,
        },
{
    let mut best: Option<usize> = None;
    let mut n: usize = 0;
    while n < distances.len()
        invariant
            n <= distances@.len(),
            match nearest_portal(distances@, radius, n as int) {
                Some(i) => best == Some(i as usize) && 0 <= i < n,
                None => best is None,
            },
        decreases distances@.len() - n,
    {
        let nearer: bool = match best {
            Some(b) => distances[n].total_key() < distances[b].total_key(),
            None => true,
        };
        if distances[n].le(radius) && nearer {
            best = Some(n);
        }
        n += 1;
    }
    best
}

/// A tank as the portals see it.
#[derive(Clone, Copy, Debug, PartialEq, Eq, Structural)]
pub struct PortalTank {
    pub entity: u64,
    pub slot: usize,
    pub position: Point,
    pub wreck: bool,
    pub has_body: bool,
    pub cooldown: Scalar,
    /// The portal it has reached.
    pub entrance: Option<usize>,
}

impl PortalTank {
    /// Goes through this frame if there is room.
    pub open spec fn ready(self) -> bool {
        !self.wreck && self.has_body && !Scalar::zero().below(self.cooldown) && self.entrance
            is Some
    }

    fn is_ready(&self) -> (r: bool)
        ensures
            r == self.ready(),
    {
        !self.wreck && self.has_body && !self.cooldown.positive() && self.entrance.is_some()
    }
}

impl Ranked for PortalTank {
    /// By round slot.
    open spec fn ahead(self, other: PortalTank) -> bool {
        self.slot < other.slot
    }

    proof fn ranks(a: PortalTank, b: PortalTank, c: PortalTank) {
    }

    fn is_ahead(&self, other: &PortalTank) -> (r: bool) {
        self.slot < other.slot
    }
}

/// Those of the first `n` tanks that go through.
pub open spec fn ready_ones(tanks: Seq<PortalTank>, n: int) -> Seq<PortalTank>
    decreases n,
{
    if n <= 0 {
        Seq::empty()
    } else if tanks[n - 1].ready() {
        ready_ones(tanks, n - 1).push(tanks[n - 1])
    } else {
        ready_ones(tanks, n - 1)
    }
}

/// Who goes through, in order: the seats as they sit, and then the enemies by
/// slot. Nobody on a map with fewer than two portals.
pub open spec fn travellers(
    portals: usize,
    seats: Seq<PortalTank>,
    enemies: Seq<PortalTank>,
) -> Seq<PortalTank> {
    if portals_active(portals) {
        ready_ones(seats, seats.len() as int) + ready_ones(
            ranked(enemies),
            enemies.len() as int,
        )
    } else {
        Seq::empty()
    }
}

/// Who goes through this frame, in order.
pub fn portal_queue(
    portals: usize,
    seats: &Vec<PortalTank>,
    enemies: &Vec<PortalTank>,
) -> (queue: Vec<PortalTank>)
    ensures
        queue@ == travellers(portals, seats@, enemies@),
{
    let mut queue: Vec<PortalTank> = Vec::new();
    if !portals_active(portals) {
        return queue;
    }
    let mut n: usize = 0;
    while n < seats.len()
        invariant
            n <= seats@.len(),
            queue@ == ready_ones(seats@, n as int),
        decreases seats@.len() - n,
    {
        if seats[n].is_ready() {
            queue.push(seats[n]);
        }
        n += 1;
    }
    let order: Vec<PortalTank> = sort_ranked(enemies);
    proof {
        crate::ranking::ranking_sorts(enemies@);
    }
    let ghost first = queue@;
    let mut k: usize = 0;
    assert(first + Seq::<PortalTank>::empty() =~= first);
    while k < order.len()
        invariant
            k <= order@.len(),
            queue@ == first + ready_ones(order@, k as int),
        decreases order@.len() - k,
    {
        if order[k].is_ready() {
            queue.push(order[k]);
        }
        k += 1;
        assert(queue@ =~= first + ready_ones(order@, k as int));
    }
    queue
}

/// Something that takes up ground.
#[derive(Clone, Copy, Debug, PartialEq, Eq, Structural)]
pub struct Occupant {
    pub entity: u64,
    pub at: Point,
}

/// The ground taken up once an entity has moved.
pub open spec fn moved_to(occupied: Seq<Occupant>, entity: u64, to: Point) -> Seq<Occupant>
    decreases occupied.len(),
{
    if occupied.len() == 0 {
        occupied
    } else if occupied[0].entity == entity {
        occupied.update(0, Occupant { entity, at: to })
    } else {
        seq![occupied[0]] + moved_to(occupied.skip(1), entity, to)
    }
}

proof fn lemma_moved_to(occupied: Seq<Occupant>, entity: u64, to: Point, i: int)
    requires
        0 <= i <= occupied.len(),
        forall|j: int| 0 <= j < i ==> (#[trigger] occupied[j]).entity != entity,
        i < occupied.len() ==> occupied[i].entity == entity,
    ensures
        moved_to(occupied, entity, to) == (if i < occupied.len() {
            occupied.update(i, Occupant { entity, at: to })
        } else {
            occupied
        }),
    decreases occupied.len(),
{
    if occupied.len() == 0 {
    } else if occupied[0].entity == entity {
        assert(i == 0);
    } else {
        let rest = occupied.skip(1);
        assert(i > 0);
        assert forall|j: int| 0 <= j < i - 1 implies (#[trigger] rest[j]).entity != entity by {
            assert(occupied[j + 1].entity != entity);
        }
        lemma_moved_to(rest, entity, to, i - 1);
        assert(moved_to(occupied, entity, to) =~= (if i < occupied.len() {
            occupied.update(i, Occupant { entity, at: to })
        } else {
            occupied
        }));
    }
}

/// What a teleport records: a ripple at each end, and the jump.
pub open spec fn teleport_recorded(f: Record, t: PortalTank, to: Point) -> Record {
    f.with_shock(t.position, ShockKind::Teleport).with_shock(
        to,
        ShockKind::Teleport,
    ).with_event(
        Event::Teleported {
            slot: t.slot,
            x: t.position.x,
            y: t.position.y,
            to_x: to.x,
            to_y: to.y,
        },
    )
}

/// Send a tank through. `arrivals` holds, for each other portal with room, the
/// place beside it where the tank would stand. One is picked, each as likely
/// as any other; with no room anywhere nothing happens and nothing is drawn.
/// The ground it now takes up is remembered, so two tanks entering on one
/// frame never share a place.
pub fn teleport(
    f: &mut Frame,
    occupied: &mut Vec<Occupant>,
    t: &PortalTank,
    arrivals: &Vec<Point>,
    rng: &mut SmallRng,
) -> (to: Option<Point>)
    ensures
        arrivals@.len() == 0 ==> to is None,
        arrivals@.len() > 0 ==> (to matches Some(p) && arrivals@.contains(p)),
        to is None ==> *final(rng) == *old(rng) && final(f)@ == old(f)@ && final(occupied)@ == old(
            occupied,
        )@,
        to matches Some(p) ==> final(f)@ == teleport_recorded(old(f)@, *t, p) && final(occupied)@
            == moved_to(old(occupied)@, t.entity, p),
{
    let pick: usize = match pick_index(rng, arrivals.len()) {
        Some(i) => i,
        None => return None,
    };
    let to: Point = arrivals[pick];
    assert(arrivals@.contains(to));
    let mut i: usize = 0;
    while i < occupied.len() && occupied[i].entity != t.entity
        invariant
            i <= occupied@.len(),
            forall|j: int| 0 <= j < i ==> (#[trigger] occupied@[j]).entity != t.entity,
        decreases occupied@.len() - i,
    {
        i += 1;
    }
    proof {
        lemma_moved_to(occupied@, t.entity, to, i as int);
    }
    if i < occupied.len() {
        occupied.set(i, Occupant { entity: t.entity, at: to });
    }
    f.shock(t.position, ShockKind::Teleport);
    f.shock(to, ShockKind::Teleport);
    f.record(
        Event::Teleported {
            slot: t.slot,
            x: t.position.x,
            y: t.position.y,
            to_x: to.x,
            to_y: to.y,
        },
    );
    Some(to)
}

proof fn lemma_nearest_portal(distances: Seq<Scalar>, radius: Scalar, n: int)
    ensures
        nearest_portal(distances, radius, n) matches Some(b) ==> 0 <= b < n
            && distances[b].at_most(radius) && (forall|i: int|
            0 <= i < n && (#[trigger] distances[i]).at_most(radius) ==> distances[b].total_rank()
                <= distances[i].total_rank()),
        nearest_portal(distances, radius, n) is None ==> forall|i: int|
            0 <= i < n ==> !(#[trigger] distances[i]).at_most(radius),
    decreases n,
{
    if n > 0 {
        lemma_nearest_portal(distances, radius, n - 1);
    }
}

/// A tank enters the nearest portal it has reached, and none only when it has
/// reached none.
pub proof fn a_tank_enters_the_nearest_portal(distances: Seq<Scalar>, radius: Scalar)
    ensures
        nearest_portal(distances, radius, distances.len() as int) matches Some(b) ==> 0 <= b
            < distances.len() && distances[b].at_most(radius) && (forall|i: int|
            0 <= i < distances.len() && (#[trigger] distances[i]).at_most(radius)
                ==> distances[b].total_rank() <= distances[i].total_rank()),
        nearest_portal(distances, radius, distances.len() as int) is None ==> forall|i: int|
            0 <= i < distances.len() ==> !(#[trigger] distances[i]).at_most(radius),
{
    lemma_nearest_portal(distances, radius, distances.len() as int);
}

proof fn lemma_ready_ones(tanks: Seq<PortalTank>, n: int, k: int)
    requires
        0 <= n <= tanks.len(),
        0 <= k < ready_ones(tanks, n).len(),
    ensures
        ready_ones(tanks, n)[k].ready(),
    decreases n,
{
    if n > 0 && k < ready_ones(tanks, n - 1).len() {
        lemma_ready_ones(tanks, n - 1, k);
    }
}

/// Only tanks that stand on the field, are no wrecks, have run their cooldown
/// out and have reached a portal go through, and nobody does on a map with
/// fewer than two portals.
pub proof fn only_ready_tanks_travel(
    portals: usize,
    seats: Seq<PortalTank>,
    enemies: Seq<PortalTank>,
    k: int,
)
    requires
        0 <= k < travellers(portals, seats, enemies).len(),
    ensures
        portals >= 2,
        travellers(portals, seats, enemies)[k].ready(),
{
    let first = ready_ones(seats, seats.len() as int);
    crate::ranking::ranking_sorts(enemies);
    if k < first.len() {
        lemma_ready_ones(seats, seats.len() as int, k);
    } else {
        lemma_ready_ones(ranked(enemies), enemies.len() as int, k - first.len());
    }
}

/// A tank's portal cooldown runs only while it is off every portal: one that
/// drifts onto its exit has to leave and come back before it travels again.
pub fn cooldown_runs(cooldown: Scalar, distances: &Vec<Scalar>, radius: Scalar) -> (r: bool)
    ensures
        r == (Scalar::zero().below(cooldown) && !(distances@.len() >= 2
            && exists|i: int|
            0 <= i < distances@.len() && (#[trigger] distances@[i]).at_most(radius))),
{
    if !cooldown.positive() {
        return false;
    }
    if !portals_active(distances.len()) {
        return true;
    }
    let mut i: usize = 0;
    while i < distances.len()
        invariant
            i <= distances@.len(),
            distances@.len() >= 2,
            forall|j: int| 0 <= j < i ==> !(#[trigger] distances@[j]).at_most(radius),
        decreases distances@.len() - i,
    {
        if distances[i].le(radius) {
            assert(distances@[i as int].at_most(radius));
            return false;
        }
        i += 1;
    }
    true
}

proof fn lemma_who_is_ready(tanks: Seq<PortalTank>, n: int, t: PortalTank)
    requires
        0 <= n <= tanks.len(),
    ensures
        ready_ones(tanks, n).contains(t) <==> t.ready() && exists|i: int|
            0 <= i < n && #[trigger] tanks[i] == t,
    decreases n,
{
    if n > 0 {
        lemma_who_is_ready(tanks, n - 1, t);
        let (now, before) = (ready_ones(tanks, n), ready_ones(tanks, n - 1));
        if before.contains(t) {
            let k = choose|k: int| 0 <= k < before.len() && before[k] == t;
            assert(now[k] == t);
        }
        if tanks[n - 1].ready() {
            assert(now[before.len() as int] == tanks[n - 1]);
            if now.contains(t) {
                let k = choose|k: int| 0 <= k < now.len() && now[k] == t;
                if k < before.len() {
                    assert(before[k] == t);
                }
            }
        }
    }
}

/// On a map with two portals or more every tank goes through that runs, stands
/// on the field, has run its cooldown out and has reached one, a seat's and an
/// enemy's alike; no other does.
pub proof fn every_ready_tank_travels(
    portals: usize,
    seats: Seq<PortalTank>,
    enemies: Seq<PortalTank>,
    t: PortalTank,
)
    ensures
        travellers(portals, seats, enemies).contains(t) <==> {
            &&& portals >= 2
            &&& seats.contains(t) || enemies.contains(t)
            &&& !t.wreck && t.has_body && !Scalar::zero().below(t.cooldown)
            &&& t.entrance is Some
        },
        portals >= 2 ==> forall|i: int|
            ready_ones(seats, seats.len() as int).len() <= i < travellers(
                portals,
                seats,
                enemies,
            ).len() ==> enemies.contains(#[trigger] travellers(portals, seats, enemies)[i]),
{
    if portals >= 2 {
        let order = ranked(enemies);
        crate::ranking::ranking_sorts(enemies);
        let first = ready_ones(seats, seats.len() as int);
        let second = ready_ones(order, order.len() as int);
        let all = travellers(portals, seats, enemies);
        lemma_who_is_ready(seats, seats.len() as int, t);
        lemma_who_is_ready(order, order.len() as int, t);
        if enemies.contains(t) {
            let k = choose|k: int| 0 <= k < enemies.len() && enemies[k] == t;
            crate::ranking::same_members(enemies, order, k);
        }
        if order.contains(t) {
            let k = choose|k: int| 0 <= k < order.len() && order[k] == t;
            crate::ranking::same_members(order, enemies, k);
        }
        if first.contains(t) {
            let k = choose|k: int| 0 <= k < first.len() && first[k] == t;
            assert(all[k] == t);
        }
        if second.contains(t) {
            let k = choose|k: int| 0 <= k < second.len() && second[k] == t;
            assert(all[first.len() + k] == t);
        }
        if all.contains(t) {
            let k = choose|k: int| 0 <= k < all.len() && all[k] == t;
            if k < first.len() {
                assert(first[k] == t);
            } else {
                assert(second[k - first.len()] == t);
            }
        }
        assert forall|i: int| first.len() <= i < all.len() implies enemies.contains(
            #[trigger] all[i],
        ) by {
            let u = all[i];
            assert(second[i - first.len()] == u);
            lemma_who_is_ready(order, order.len() as int, u);
            let k = choose|k: int| 0 <= k < order.len() && #[trigger] order[k] == u;
            crate::ranking::same_members(order, enemies, k);
        }
    }
}

/// A jump is told with both its ends, and shakes the ground at each.
pub proof fn a_jump_is_told_at_both_ends(f: Record, t: PortalTank, to: Point)
    ensures
        ({
            let g = teleport_recorded(f, t, to);
            let n = f.shocks.len() as int;
            &&& g.events == f.events.push(
                Event::Teleported {
                    slot: t.slot,
                    x: t.position.x,
                    y: t.position.y,
                    to_x: to.x,
                    to_y: to.y,
                },
            )
            &&& g.shocks.len() == n + 2
            &&& g.shocks[n].at == t.position && g.shocks[n].kind is Teleport
            &&& g.shocks[n + 1].at == to && g.shocks[n + 1].kind is Teleport
            &&& g.kills == f.kills
        }),
{
}

/// Ground taken up moves with the tank that takes it up, and nobody else's does.
pub proof fn only_the_travellers_ground_moves(occupied: Seq<Occupant>, entity: u64, to: Point)
    ensures
        moved_to(occupied, entity, to).len() == occupied.len(),
        forall|i: int|
            0 <= i < occupied.len() ==> (#[trigger] moved_to(occupied, entity, to)[i]).entity
                == occupied[i].entity,
        forall|i: int|
            0 <= i < occupied.len() && occupied[i].entity != entity ==> #[trigger] moved_to(
                occupied,
                entity,
                to,
            )[i] == occupied[i],
        forall|i: int|
            0 <= i < occupied.len() && occupied[i].entity == entity && (forall|j: int|
                0 <= j < i ==> (#[trigger] occupied[j]).entity != entity) ==> (#[trigger] moved_to(
                occupied,
                entity,
                to,
            )[i]).at == to,
    decreases occupied.len(),
{
    if occupied.len() > 0 && occupied[0].entity != entity {
        let rest = occupied.skip(1);
        only_the_travellers_ground_moves(rest, entity, to);
        let now = moved_to(occupied, entity, to);
        assert forall|i: int| 0 <= i < occupied.len() implies now[i].entity == occupied[i].entity
            && (occupied[i].entity != entity ==> #[trigger] now[i] == occupied[i]) && (
        occupied[i].entity == entity && (forall|j: int|
            0 <= j < i ==> (#[trigger] occupied[j]).entity != entity) ==> now[i].at == to) by {
            if i > 0 {
                assert(now[i] == moved_to(rest, entity, to)[i - 1]);
                assert(rest[i - 1] == occupied[i]);
                if occupied[i].entity == entity && (forall|j: int|
                    0 <= j < i ==> (#[trigger] occupied[j]).entity != entity) {
                    assert forall|j: int| 0 <= j < i - 1 implies (
                    #[trigger] rest[j]).entity != entity by {
                        assert(occupied[j + 1].entity != entity);
                    }
                }
            }
        }
    } else if occupied.len() > 0 {
        assert forall|i: int|
            0 <= i < occupied.len() && occupied[i].entity == entity && (forall|j: int|
                0 <= j < i ==> (#[trigger] occupied[j]).entity != entity) implies (
        #[trigger] moved_to(occupied, entity, to)[i]).at == to by {
            if i > 0 {
                assert(occupied[0].entity != entity);
            }
        }
    }
}

} // verus!
