//! The portal phase: who goes through, one after the other, and where they
//! come out.

use rand::rngs::SmallRng;
use vstd::prelude::*;

use crate::engage::{EngageRing, EngageSlot};
use crate::field::{selects, thing, Kind};
use crate::frame::{Frame, Record};
use crate::game::{on_field, Game, Pack};
use crate::kinds::{Owner, MAX_SEATS};
use crate::pieces::{Mind, Piece, Tank};
use crate::portals::{
    entrance, moved_to, nearest_portal, portal_queue, teleport, teleport_recorded, travellers, Occupant, PortalTank,
};
use crate::scalar::{Point, Scalar};

verus! {

/// A tank as the portals see it, before the host has said which one it has
/// reached.
pub open spec fn portal_view(entity: u64, t: Tank) -> PortalTank {
    PortalTank {
        entity,
        slot: t.slot(),
        position: t.position,
        wreck: t.wreck,
        has_body: t.has_body,
        cooldown: t.portal_cooldown,
        entrance: None,
    }
}

fn view_of(entity: u64, t: &Tank) -> (v: PortalTank)
    ensures
        v == portal_view(entity, *t),
{
    PortalTank {
        entity,
        slot: t.owner_slot(),
        position: t.position,
        wreck: t.wreck,
        has_body: t.has_body,
        cooldown: t.portal_cooldown,
        entrance: None,
    }
}

/// The first `n` seats on the field, as the portals see them.
pub open spec fn seat_views(seats: Seq<Option<u64>>, pieces: Map<u64, Piece>, n: int) -> Seq<
    PortalTank,
>
    decreases n,
{
    if n <= 0 {
        Seq::empty()
    } else {
        let before = seat_views(seats, pieces, n - 1);
        match on_field(seats[n - 1], pieces) {
            Some(e) => match thing::<Tank>(pieces, e) {
                Some(t) => before.push(portal_view(e, t)),
                None => before,
            },
            None => before,
        }
    }
}

/// An enemy in the fight.
pub open spec fn fights() -> spec_fn(Tank) -> bool {
    |t: Tank| t.mind is Some
}

impl Game {
    /// The seats' tanks as the portals see them, in seat order.
    pub fn portal_seats(&self) -> (tanks: Vec<PortalTank>)
        ensures
            tanks@ == seat_views(self.round.seats@, self.field@, 8),
    {
        let seats: [Option<u64>; 8] = self.seats_on_field();
        let mut tanks: Vec<PortalTank> = Vec::new();
        let mut i: usize = 0;
        while i < MAX_SEATS
            invariant
                i <= MAX_SEATS,
                forall|k: int|
                    0 <= k < MAX_SEATS ==> #[trigger] seats@[k] == on_field(
                        self.round.seats@[k],
                        self.field@,
                    ),
                tanks@ == seat_views(self.round.seats@, self.field@, i as int),
            decreases MAX_SEATS - i,
        {
            if let Some(e) = seats[i] {
                let tank: Option<Tank> = self.field.get(e);
                if let Some(t) = tank {
                    tanks.push(view_of(e, &t));
                }
            }
            i += 1;
        }
        tanks
    }

    /// The enemies as the portals see them, in no particular order.
    pub fn portal_enemies(&self) -> (tanks: Vec<PortalTank>)
        ensures
            exists|all: Seq<(u64, Tank)>| #[trigger]
                selects::<Tank>(self.field@, fights(), all) && tanks@ == enemy_views(all),
    {
        let test = |t: Tank| -> (b: bool)
            ensures
                b == (t.mind is Some),
        { t.mind.is_some() };
        let all = self.field.select(Ghost(fights()), test);
        let mut tanks: Vec<PortalTank> = Vec::new();
        let mut n: usize = 0;
        while n < all.len()
            invariant
                n <= all@.len(),
                tanks@.len() == n,
                forall|i: int|
                    0 <= i < n ==> #[trigger] tanks@[i] == portal_view(all@[i].0, all@[i].1),
            decreases all@.len() - n,
        {
            let (e, t) = all[n];
            tanks.push(view_of(e, &t));
            n += 1;
        }
        assert(tanks@ =~= enemy_views(all@));
        tanks
    }
}

/// A mind that plans afresh: whom it fights and what it is there for is all it
/// keeps.
pub open spec fn replanned(mind: Option<Mind>) -> Option<Mind> {
    match mind {
        Some(m) => Some(Mind { hit_alerted: false, retreating: false, ..m }),
        None => None,
    }
}

/// A tank that came out at `to`: heading as it was, standing still, planning
/// afresh, and not to travel again until its cooldown has run.
pub open spec fn arrived(t: Tank, to: Point, cooldown: Scalar) -> Tank {
    Tank {
        position: to,
        commanded: Point { x: Scalar::zero(), y: Scalar::zero() },
        asked: Point { x: Scalar::zero(), y: Scalar::zero() },
        velocity: Point { x: Scalar::zero(), y: Scalar::zero() },
        portal_cooldown: cooldown,
        mind: replanned(t.mind),
        ..t
    }
}

/// A tank keeps its heading through a portal, and all it carries.
pub proof fn a_heading_is_kept_through_a_portal(t: Tank, to: Point, cooldown: Scalar)
    ensures
        arrived(t, to, cooldown).rotation == t.rotation,
        arrived(t, to, cooldown).damage == t.damage,
        arrived(t, to, cooldown).weapon == t.weapon,
        arrived(t, to, cooldown).portal_cooldown == cooldown,
{
}

/// What each ring's tanks hold.
pub open spec fn holdings(rings: Seq<EngageRing>) -> Seq<Map<u64, EngageSlot>> {
    Seq::new(rings.len(), |i: int| rings[i].held())
}

/// The same with one tank's slot given up.
pub open spec fn let_go(rings: Seq<Map<u64, EngageSlot>>, entity: u64) -> Seq<Map<u64, EngageSlot>> {
    Seq::new(rings.len(), |i: int| rings[i].remove(entity))
}

impl Pack {
    /// A tank gives up its slot on every ring.
    fn release(&mut self, entity: u64)
        requires
            old(self).wf(),
        ensures
            final(self).wf(),
            holdings(final(self).rings@) == let_go(holdings(old(self).rings@), entity),
            final(self).frog_ring.held() == old(self).frog_ring.held().remove(entity),
            final(self).report == old(self).report,
            final(self).commander == old(self).commander,
    {
        let mut i: usize = 0;
        while i < self.rings.len()
            invariant
                i <= self.rings@.len(),
                self.rings@.len() == MAX_SEATS,
                old(self).rings@.len() == MAX_SEATS,
                self.report == old(self).report,
                self.commander == old(self).commander,
                self.frog_ring == old(self).frog_ring,
                forall|k: int| 0 <= k < MAX_SEATS ==> (#[trigger] self.rings@[k]).wf(),
                forall|k: int|
                    0 <= k < i ==> (#[trigger] self.rings@[k]).held()
                        == old(self).rings@[k].held().remove(entity),
                forall|k: int|
                    i <= k < MAX_SEATS ==> #[trigger] self.rings@[k] == old(self).rings@[k],
            decreases MAX_SEATS - i,
        {
            let ghost were = self.rings@;
            assert(were[i as int].wf());
            self.rings[i].release(entity);
            assert forall|k: int| 0 <= k < MAX_SEATS && k != i implies #[trigger] self.rings@[k]
                == were[k] by {}
            i += 1;
        }
        self.frog_ring.release(entity);
        assert(holdings(self.rings@) =~= let_go(holdings(old(self).rings@), entity));
    }
}

/// The field, the record and the ground taken up, part of the way through.
#[verifier::ext_equal]
pub struct Passage {
    pub pieces: Map<u64, Piece>,
    pub record: Record,
    pub occupied: Seq<Occupant>,
    pub rings: Seq<Map<u64, EngageSlot>>,
    pub frog_ring: Map<u64, EngageSlot>,
}

/// The first `n` travellers have gone, each to where `tos` says, if anywhere,
/// and given up the slots they held.
pub open spec fn passed(
    at: Passage,
    queue: Seq<PortalTank>,
    cooldown: Scalar,
    tos: Seq<Option<Point>>,
    n: int,
) -> Passage
    decreases n,
{
    if n <= 0 {
        at
    } else {
        let now = passed(at, queue, cooldown, tos, n - 1);
        let t = queue[n - 1];
        match tos[n - 1] {
            Some(to) => Passage {
                pieces: match thing::<Tank>(now.pieces, t.entity) {
                    Some(tank) => now.pieces.insert(
                        t.entity,
                        arrived(tank, to, cooldown).as_piece(),
                    ),
                    None => now.pieces,
                },
                record: teleport_recorded(now.record, t, to),
                occupied: moved_to(now.occupied, t.entity, to),
                rings: let_go(now.rings, t.entity),
                frog_ring: now.frog_ring.remove(t.entity),
            },
            None => now,
        }
    }
}

/// The portals, and what the host says of the ground around them.
pub struct Network<D, C> {
    pub portals: Seq<Point>,
    /// How near a portal is reached.
    pub radius: Scalar,
    /// How far apart two tanks have to stand.
    pub clearance: Scalar,
    pub dist: D,
    /// The open cells that can be reached from a portal, the nearest first.
    pub cells: C,
}

/// An occupant, as measured from a cell, leaves it clear or does not. The
/// traveller is never in its own way.
pub open spec fn keeps_off<D: Fn(Point, Point) -> Scalar>(
    dist: D,
    clearance: Scalar,
    entity: u64,
    o: Occupant,
    cell: Point,
    clear: bool,
) -> bool {
    if o.entity == entity {
        clear
    } else {
        exists|d: Scalar| #[trigger]
            call_ensures(dist, (o.at, cell), d) && clear == clearance.at_most(d)
    }
}

/// A cell beside an exit, as measured, is free or is not: free outside the
/// exit's own radius, with everybody else far enough away.
pub open spec fn judged<D: Fn(Point, Point) -> Scalar, C: Fn(usize) -> Vec<Point>>(
    net: Network<D, C>,
    exit: Point,
    entity: u64,
    occupied: Seq<Occupant>,
    cell: Point,
    free: bool,
) -> bool {
    if free {
        &&& exists|d: Scalar| #[trigger]
            call_ensures(net.dist, (cell, exit), d) && net.radius.below(d)
        &&& forall|k: int|
            0 <= k < occupied.len() ==> keeps_off(
                net.dist,
                net.clearance,
                entity,
                #[trigger] occupied[k],
                cell,
                true,
            )
    } else {
        ||| exists|d: Scalar| #[trigger]
            call_ensures(net.dist, (cell, exit), d) && !net.radius.below(d)
        ||| exists|k: int|
            0 <= k < occupied.len() && keeps_off(
                net.dist,
                net.clearance,
                entity,
                #[trigger] occupied[k],
                cell,
                false,
            )
    }
}

/// The first free cell of some, none where no cell is free.
pub open spec fn first_free<D: Fn(Point, Point) -> Scalar, C: Fn(usize) -> Vec<Point>>(
    net: Network<D, C>,
    exit: Point,
    entity: u64,
    occupied: Seq<Occupant>,
    cells: Seq<Point>,
    to: Option<Point>,
) -> bool {
    match to {
        Some(p) => exists|i: int|
            {
                &&& 0 <= i < cells.len()
                &&& #[trigger] cells[i] == p
                &&& judged(net, exit, entity, occupied, p, true)
                &&& forall|k: int|
                    0 <= k < i ==> judged(net, exit, entity, occupied, #[trigger] cells[k], false)
            },
        None => forall|k: int|
            0 <= k < cells.len() ==> judged(
                net,
                exit,
                entity,
                occupied,
                #[trigger] cells[k],
                false,
            ),
    }
}

/// Where a tank would come out of a portal: the first free cell around it.
pub open spec fn comes_out<D: Fn(Point, Point) -> Scalar, C: Fn(usize) -> Vec<Point>>(
    net: Network<D, C>,
    entity: u64,
    occupied: Seq<Occupant>,
    j: int,
    to: Option<Point>,
) -> bool {
    exists|cells: Vec<Point>| #[trigger]
        call_ensures(net.cells, (j as usize,), cells) && first_free(
            net,
            net.portals[j],
            entity,
            occupied,
            cells@,
            to,
        )
}

/// Where a tank would come out of each of the first `n` portals. It does not
/// come out of the one it goes into.
pub open spec fn exits_found<D: Fn(Point, Point) -> Scalar, C: Fn(usize) -> Vec<Point>>(
    net: Network<D, C>,
    t: PortalTank,
    occupied: Seq<Occupant>,
    exits: Seq<Option<Point>>,
    n: int,
) -> bool {
    exits.len() == n && forall|j: int|
        0 <= j < n ==> if t.entrance == Some(j as usize) {
            #[trigger] exits[j] is None
        } else {
            comes_out(net, t.entity, occupied, j, exits[j])
        }
}

/// A tank went to one of its exits, and stayed only where it had none.
pub open spec fn gone_to(exits: Seq<Option<Point>>, to: Option<Point>) -> bool {
    match to {
        Some(p) => exits.contains(Some(p)),
        None => forall|j: int| 0 <= j < exits.len() ==> #[trigger] exits[j] is None,
    }
}

/// Each traveller came out of a portal with room for it just then, and stayed
/// only where none had any.
pub open spec fn roomed<D: Fn(Point, Point) -> Scalar, C: Fn(usize) -> Vec<Point>>(
    net: Network<D, C>,
    at: Passage,
    queue: Seq<PortalTank>,
    cooldown: Scalar,
    tos: Seq<Option<Point>>,
    n: int,
) -> bool
    decreases n,
{
    if n <= 0 {
        true
    } else {
        let before = passed(at, queue, cooldown, tos, n - 1);
        &&& roomed(net, at, queue, cooldown, tos, n - 1)
        &&& exists|exits: Seq<Option<Point>>|
            {
                &&& #[trigger] exits_found(
                    net,
                    queue[n - 1],
                    before.occupied,
                    exits,
                    net.portals.len() as int,
                )
                &&& gone_to(exits, tos[n - 1])
            }
    }
}

/// Where everyone went is where there was room for them.
pub open spec fn all_roomed<D: Fn(Point, Point) -> Scalar, C: Fn(usize) -> Vec<Point>>(
    net: Network<D, C>,
    at: Passage,
    queue: Seq<PortalTank>,
    cooldown: Scalar,
    tos: Seq<Option<Point>>,
) -> bool {
    tos.len() == queue.len() && roomed(net, at, queue, cooldown, tos, queue.len() as int)
}

/// A tank comes out beside another portal than the one it went into, outside
/// that portal's radius and clear of everybody else.
pub proof fn an_arrival_is_clear_of_everybody<
    D: Fn(Point, Point) -> Scalar,
    C: Fn(usize) -> Vec<Point>,
>(
    net: Network<D, C>,
    t: PortalTank,
    occupied: Seq<Occupant>,
    exits: Seq<Option<Point>>,
    to: Point,
) -> (j: int)
    requires
        net.portals.len() <= usize::MAX,
        exits_found(net, t, occupied, exits, net.portals.len() as int),
        gone_to(exits, Some(to)),
    ensures
        0 <= j < net.portals.len(),
        t.entrance != Some(j as usize),
        exists|d: Scalar| #[trigger]
            call_ensures(net.dist, (to, net.portals[j]), d) && net.radius.below(d),
        forall|k: int|
            0 <= k < occupied.len() && (#[trigger] occupied[k]).entity != t.entity ==> exists|
                d: Scalar,
            | #[trigger]
                call_ensures(net.dist, (occupied[k].at, to), d) && net.clearance.at_most(d),
{
    let j = choose|j: int| 0 <= j < exits.len() && exits[j] == Some(to);
    assert(exits[j] is Some);
    assert(comes_out(net, t.entity, occupied, j, exits[j]));
    assert(judged(net, net.portals[j], t.entity, occupied, to, true));
    assert forall|k: int|
        0 <= k < occupied.len() && (#[trigger] occupied[k]).entity != t.entity implies exists|
        d: Scalar,
    | #[trigger]
        call_ensures(net.dist, (occupied[k].at, to), d) && net.clearance.at_most(d) by {
        assert(keeps_off(net.dist, net.clearance, t.entity, occupied[k], to, true));
    }
    j
}

proof fn lemma_passed_same<D: Fn(Point, Point) -> Scalar, C: Fn(usize) -> Vec<Point>>(
    net: Network<D, C>,
    at: Passage,
    queue: Seq<PortalTank>,
    cooldown: Scalar,
    a: Seq<Option<Point>>,
    b: Seq<Option<Point>>,
    n: int,
)
    requires
        0 <= n <= a.len(),
        n <= b.len(),
        forall|i: int| 0 <= i < n ==> a[i] == b[i],
    ensures
        passed(at, queue, cooldown, a, n) == passed(at, queue, cooldown, b, n),
        roomed(net, at, queue, cooldown, a, n) == roomed(net, at, queue, cooldown, b, n),
    decreases n,
{
    if n > 0 {
        lemma_passed_same(net, at, queue, cooldown, a, b, n - 1);
    }
}

/// Whether an occupant leaves a cell clear.
fn leaves_clear<D: Fn(Point, Point) -> Scalar>(
    dist: &D,
    clearance: Scalar,
    entity: u64,
    o: &Occupant,
    cell: Point,
) -> (clear: bool)
    requires
        forall|a: Point, b: Point| call_requires(*dist, (a, b)),
    ensures
        keeps_off(*dist, clearance, entity, *o, cell, clear),
{
    if o.entity == entity {
        return true;
    }
    let d: Scalar = dist(o.at, cell);
    let clear: bool = clearance.le(d);
    assert(call_ensures(*dist, (o.at, cell), d) && clear == clearance.at_most(d));
    clear
}

/// Whether a cell beside an exit is free.
fn judge<D: Fn(Point, Point) -> Scalar, C: Fn(usize) -> Vec<Point>>(
    dist: &D,
    radius: Scalar,
    clearance: Scalar,
    exit: Point,
    entity: u64,
    occupied: &Vec<Occupant>,
    cell: Point,
    Ghost(net): Ghost<Network<D, C>>,
) -> (free: bool)
    requires
        net.dist == *dist && net.radius == radius && net.clearance == clearance,
        forall|a: Point, b: Point| call_requires(*dist, (a, b)),
    ensures
        judged(net, exit, entity, occupied@, cell, free),
{
    let d: Scalar = dist(cell, exit);
    let outside: bool = radius.lt(d);
    assert(call_ensures(net.dist, (cell, exit), d) && outside == net.radius.below(d));
    if !outside {
        return false;
    }
    let mut k: usize = 0;
    while k < occupied.len()
        invariant
            k <= occupied@.len(),
            net.dist == *dist && net.radius == radius && net.clearance == clearance,
            forall|a: Point, b: Point| call_requires(*dist, (a, b)),
            forall|i: int|
                0 <= i < k ==> keeps_off(
                    net.dist,
                    net.clearance,
                    entity,
                    #[trigger] occupied@[i],
                    cell,
                    true,
                ),
        decreases occupied@.len() - k,
    {
        let clear: bool = leaves_clear(dist, clearance, entity, &occupied[k], cell);
        if !clear {
            assert(keeps_off(
                net.dist,
                net.clearance,
                entity,
                occupied@[k as int],
                cell,
                false,
            ));
            return false;
        }
        k += 1;
    }
    true
}

/// The first free cell of some.
fn find_free<D: Fn(Point, Point) -> Scalar, C: Fn(usize) -> Vec<Point>>(
    dist: &D,
    radius: Scalar,
    clearance: Scalar,
    exit: Point,
    entity: u64,
    occupied: &Vec<Occupant>,
    cells: &Vec<Point>,
    Ghost(net): Ghost<Network<D, C>>,
) -> (to: Option<Point>)
    requires
        net.dist == *dist && net.radius == radius && net.clearance == clearance,
        forall|a: Point, b: Point| call_requires(*dist, (a, b)),
    ensures
        first_free(net, exit, entity, occupied@, cells@, to),
{
    let mut k: usize = 0;
    while k < cells.len()
        invariant
            k <= cells@.len(),
            net.dist == *dist && net.radius == radius && net.clearance == clearance,
            forall|a: Point, b: Point| call_requires(*dist, (a, b)),
            forall|i: int|
                0 <= i < k ==> judged(net, exit, entity, occupied@, #[trigger] cells@[i], false),
        decreases cells@.len() - k,
    {
        let cell: Point = cells[k];
        if judge::<D, C>(dist, radius, clearance, exit, entity, occupied, cell, Ghost(net)) {
            assert(cells@[k as int] == cell);
            return Some(cell);
        }
        k += 1;
    }
    None
}

/// How things stand with the portals: what the game and the record hold, and
/// the ground taken up.
pub open spec fn passage(game: Game, f: Record, occupied: Seq<Occupant>) -> Passage {
    Passage {
        pieces: game.field@,
        record: f,
        occupied,
        rings: holdings(game.pack.rings@),
        frog_ring: game.pack.frog_ring.held(),
    }
}

/// Nobody has anywhere to go.
pub open spec fn nobody_goes(tos: Seq<Option<Point>>) -> bool {
    forall|k: int| 0 <= k < tos.len() ==> #[trigger] tos[k] is None
}

/// How far each portal is from a place, as the host measures it.
pub open spec fn portals_measured<D: Fn(Point, Point) -> Scalar>(
    dist: D,
    portals: Seq<Point>,
    at: Point,
    ds: Seq<Scalar>,
) -> bool {
    ds.len() == portals.len() && forall|k: int|
        0 <= k < ds.len() ==> call_ensures(dist, (portals[k], at), #[trigger] ds[k])
}

/// A tank with the portal it has reached.
pub open spec fn entering<D: Fn(Point, Point) -> Scalar>(
    dist: D,
    portals: Seq<Point>,
    radius: Scalar,
    base: PortalTank,
    t: PortalTank,
) -> bool {
    exists|ds: Seq<Scalar>|
        {
            &&& #[trigger] portals_measured(dist, portals, base.position, ds)
            &&& t == (PortalTank {
                entrance: match nearest_portal(ds, radius, ds.len() as int) {
                    Some(i) => Some(i as usize),
                    None => None,
                },
                ..base
            })
        }
}

/// Some tanks, each with the portal it has reached.
pub open spec fn all_entering<D: Fn(Point, Point) -> Scalar>(
    dist: D,
    portals: Seq<Point>,
    radius: Scalar,
    base: Seq<PortalTank>,
    tanks: Seq<PortalTank>,
    n: int,
) -> bool {
    tanks.len() == n && forall|k: int|
        0 <= k < n ==> entering(dist, portals, radius, base[k], #[trigger] tanks[k])
}

/// The enemies as the portals see them.
pub open spec fn enemy_views(all: Seq<(u64, Tank)>) -> Seq<PortalTank> {
    all.map_values(|e: (u64, Tank)| portal_view(e.0, e.1))
}

/// A tank that takes up ground.
pub open spec fn embodied() -> spec_fn(Tank) -> bool {
    |t: Tank| t.has_body
}

/// The ground some tanks take up.
pub open spec fn ground_of(all: Seq<(u64, Tank)>) -> Seq<Occupant> {
    Seq::new(all.len(), |k: int| Occupant { entity: all[k].0, at: all[k].1.position })
}

/// A frame of the portals: who had reached one, who took up ground, and where
/// everyone went.
pub open spec fn portal_frame<
    D: Fn(Point, Point) -> Scalar,
    C: Fn(usize) -> Vec<Point>,
>(
    net: Network<D, C>,
    cooldown: Scalar,
    before: Game,
    f: Record,
    seats: Seq<PortalTank>,
    enemies: Seq<PortalTank>,
    pack: Seq<(u64, Tank)>,
    bodies: Seq<(u64, Tank)>,
    tos: Seq<Option<Point>>,
    end: Seq<Occupant>,
    after: Game,
    f_after: Record,
) -> bool {
    let portals = before.ground.portals@;
    let base = seat_views(before.round.seats@, before.field@, 8);
    let queue = travellers(portals.len() as usize, seats, enemies);
    let start = passage(before, f, ground_of(bodies));
    &&& net.portals == portals
    &&& all_entering(net.dist, portals, net.radius, base, seats, base.len() as int)
    &&& selects::<Tank>(before.field@, fights(), pack)
    &&& all_entering(
        net.dist,
        portals,
        net.radius,
        enemy_views(pack),
        enemies,
        pack.len() as int,
    )
    &&& selects::<Tank>(before.field@, embodied(), bodies)
    &&& all_roomed(net, start, queue, cooldown, tos)
    &&& passage(after, f_after, end) == passed(
        start,
        queue,
        cooldown,
        tos,
        queue.len() as int,
    )
    &&& after.pack.report == before.pack.report
    &&& after.pack.commander == before.pack.commander
}

impl Game {
    /// The ground, the screen and the requests are as they were.
    pub open spec fn keeps_ground(&self, before: &Game) -> bool {
        self.ground == before.ground && self.show == before.show && self.debug_kills
            == before.debug_kills
    }

    /// The ground every tank takes up, wrecks included.
    fn occupants(&self) -> (taken: Vec<Occupant>)
        ensures
            exists|all: Seq<(u64, Tank)>| #[trigger]
                selects::<Tank>(self.field@, embodied(), all) && taken@ == ground_of(all),
    {
        let test = |t: Tank| -> (b: bool)
            ensures
                b == t.has_body,
        { t.has_body };
        let all: Vec<(u64, Tank)> = self.field.select(Ghost(embodied()), test);
        let mut taken: Vec<Occupant> = Vec::new();
        let mut n: usize = 0;
        while n < all.len()
            invariant
                n <= all@.len(),
                taken@ == ground_of(all@).take(n as int),
            decreases all@.len() - n,
        {
            taken.push(Occupant { entity: all[n].0, at: all[n].1.position });
            n += 1;
            assert(taken@ =~= ground_of(all@).take(n as int));
        }
        assert(taken@ =~= ground_of(all@));
        taken
    }

    /// The tanks with the portals they have reached.
    fn at_portals<D: Fn(Point, Point) -> Scalar>(
        &self,
        base: &Vec<PortalTank>,
        radius: Scalar,
        dist: &D,
    ) -> (tanks: Vec<PortalTank>)
        requires
            forall|a: Point, b: Point| call_requires(*dist, (a, b)),
        ensures
            all_entering(
                *dist,
                self.ground.portals@,
                radius,
                base@,
                tanks@,
                base@.len() as int,
            ),
    {
        let mut tanks: Vec<PortalTank> = Vec::new();
        let mut n: usize = 0;
        while n < base.len()
            invariant
                n <= base@.len(),
                forall|a: Point, b: Point| call_requires(*dist, (a, b)),
                all_entering(
                    *dist,
                    self.ground.portals@,
                    radius,
                    base@,
                    tanks@,
                    n as int,
                ),
            decreases base@.len() - n,
        {
            let t: PortalTank = base[n];
            let ghost were = tanks@;
            let mut ds: Vec<Scalar> = Vec::new();
            let mut k: usize = 0;
            while k < self.ground.portals.len()
                invariant
                    k <= self.ground.portals@.len(),
                    ds@.len() == k,
                    forall|a: Point, b: Point| call_requires(*dist, (a, b)),
                    forall|i: int|
                        0 <= i < k ==> call_ensures(
                            *dist,
                            (self.ground.portals@[i], t.position),
                            #[trigger] ds@[i],
                        ),
                decreases self.ground.portals@.len() - k,
            {
                ds.push(dist(self.ground.portals[k], t.position));
                k += 1;
            }
            let reached: Option<usize> = entrance(&ds, radius);
            let out: PortalTank = PortalTank { entrance: reached, ..t };
            tanks.push(out);
            proof {
                assert(portals_measured(*dist, self.ground.portals@, t.position, ds@));
                assert(entering(*dist, self.ground.portals@, radius, t, out));
                assert forall|j: int| 0 <= j < n + 1 implies entering(
                    *dist,
                    self.ground.portals@,
                    radius,
                    base@[j],
                    #[trigger] tanks@[j],
                ) by {
                    if j < n {
                        assert(tanks@[j] == were[j]);
                    }
                }
            }
            n += 1;
        }
        tanks
    }
}

impl Game {
    /// Where a tank could come out, one place for each portal with room.
    fn exits<D: Fn(Point, Point) -> Scalar, C: Fn(usize) -> Vec<Point>>(
        &self,
        t: &PortalTank,
        occupied: &Vec<Occupant>,
        radius: Scalar,
        clearance: Scalar,
        dist: &D,
        cells: &C,
        Ghost(net): Ghost<Network<D, C>>,
    ) -> (r: (Vec<Point>, Ghost<Seq<Option<Point>>>))
        requires
            net == (Network {
                portals: self.ground.portals@,
                radius,
                clearance,
                dist: *dist,
                cells: *cells,
            }),
            forall|a: Point, b: Point| call_requires(*dist, (a, b)),
            forall|j: usize| call_requires(*cells, (j,)),
        ensures
            exits_found(net, *t, occupied@, r.1@, net.portals.len() as int),
            forall|k: int|
                0 <= k < r.0@.len() ==> r.1@.contains(Some(#[trigger] r.0@[k])),
            r.0@.len() == 0 ==> gone_to(r.1@, None),
    {
        let mut places: Vec<Point> = Vec::new();
        let ghost mut exits: Seq<Option<Point>> = Seq::empty();
        let mut j: usize = 0;
        while j < self.ground.portals.len()
            invariant
                j <= self.ground.portals@.len(),
                net == (Network {
                    portals: self.ground.portals@,
                    radius,
                    clearance,
                    dist: *dist,
                    cells: *cells,
                }),
                forall|a: Point, b: Point| call_requires(*dist, (a, b)),
                forall|j: usize| call_requires(*cells, (j,)),
                exits_found(net, *t, occupied@, exits, j as int),
                forall|k: int|
                    0 <= k < places@.len() ==> exits.contains(Some(#[trigger] places@[k])),
                places@.len() == 0 ==> gone_to(exits, None),
            decreases self.ground.portals@.len() - j,
        {
            let ghost were = exits;
            let ghost had = places@;
            let mut to: Option<Point> = None;
            if t.entrance != Some(j) {
                let around: Vec<Point> = cells(j);
                to =
                find_free::<D, C>(
                    dist,
                    radius,
                    clearance,
                    self.ground.portals[j],
                    t.entity,
                    occupied,
                    &around,
                    Ghost(net),
                );
                assert((j as int) as usize == j);
                assert(call_ensures(net.cells, ((j as int) as usize,), around));
                assert(first_free(
                    net,
                    net.portals[j as int],
                    t.entity,
                    occupied@,
                    around@,
                    to,
                ));
                assert(comes_out(net, t.entity, occupied@, j as int, to));
            }
            if let Some(p) = to {
                places.push(p);
            }
            proof {
                exits = exits.push(to);
                assert(exits[j as int] == to);
                assert forall|i: int| 0 <= i < j + 1 implies if t.entrance == Some(i as usize) {
                    #[trigger] exits[i] is None
                } else {
                    comes_out(net, t.entity, occupied@, i, exits[i])
                } by {
                    if i < j {
                        assert(exits[i] == were[i]);
                    }
                }
                assert forall|k: int| 0 <= k < places@.len() implies exits.contains(
                    Some(#[trigger] places@[k]),
                ) by {
                    if k < had.len() {
                        assert(places@[k] == had[k]);
                        let i = choose|i: int| 0 <= i < were.len() && were[i] == Some(had[k]);
                        assert(exits[i] == Some(places@[k]));
                    } else {
                        assert(exits[j as int] == Some(places@[k]));
                    }
                }
                if places@.len() == 0 {
                    assert forall|i: int| 0 <= i < exits.len() implies #[trigger] exits[i]
                        is None by {
                        if i < j {
                            assert(exits[i] == were[i]);
                        }
                    }
                }
            }
            j += 1;
        }
        (places, Ghost(exits))
    }

    /// Send a queue through, one after the other.
    #[verifier::spinoff_prover]
    #[verifier::rlimit(40)]
    fn send_through<D: Fn(Point, Point) -> Scalar, C: Fn(usize) -> Vec<Point>>(
        &mut self,
        f: &mut Frame,
        queue: &Vec<PortalTank>,
        occupied: &mut Vec<Occupant>,
        radius: Scalar,
        clearance: Scalar,
        cooldown: Scalar,
        dist: &D,
        cells: &C,
        rng: &mut SmallRng,
        Ghost(net): Ghost<Network<D, C>>,
    )
        requires
            old(self).wf(),
            net == (Network {
                portals: old(self).ground.portals@,
                radius,
                clearance,
                dist: *dist,
                cells: *cells,
            }),
            forall|a: Point, b: Point| call_requires(*dist, (a, b)),
            forall|j: usize| call_requires(*cells, (j,)),
        ensures
            final(self).wf(),
            final(self).round == old(self).round,
            final(self).keeps_ground(old(self)),
            final(self).pack.report == old(self).pack.report,
            final(self).pack.commander == old(self).pack.commander,
            final(self).events == old(self).events,
            exists|tos: Seq<Option<Point>>|
                {
                    &&& #[trigger] all_roomed(
                        net,
                        passage(*old(self), old(f)@, old(occupied)@),
                        queue@,
                        cooldown,
                        tos,
                    )
                    &&& passage(*final(self), final(f)@, final(occupied)@) == passed(
                        passage(*old(self), old(f)@, old(occupied)@),
                        queue@,
                        cooldown,
                        tos,
                        queue@.len() as int,
                    )
                    &&& nobody_goes(tos) ==> *final(rng) == *old(rng)
                },
    {
        let ghost start = passage(*self, f@, occupied@);
        let ghost mut tos: Seq<Option<Point>> = Seq::empty();
        let mut n: usize = 0;
        while n < queue.len()
            invariant
                n <= queue@.len(),
                self.wf(),
                self.round == old(self).round,
                self.keeps_ground(old(self)),
                self.pack.report == old(self).pack.report,
                self.pack.commander == old(self).pack.commander,
                self.events == old(self).events,
                net == (Network {
                    portals: self.ground.portals@,
                    radius,
                    clearance,
                    dist: *dist,
                    cells: *cells,
                }),
                forall|a: Point, b: Point| call_requires(*dist, (a, b)),
                forall|j: usize| call_requires(*cells, (j,)),
                start == passage(*old(self), old(f)@, old(occupied)@),
                tos.len() == n,
                roomed(net, start, queue@, cooldown, tos, n as int),
                passage(*self, f@, occupied@) == passed(
                    start,
                    queue@,
                    cooldown,
                    tos,
                    n as int,
                ),
                nobody_goes(tos) ==> *rng == *old(rng),
            decreases queue@.len() - n,
        {
            let t: PortalTank = queue[n];
            let ghost were = tos;
            let ghost before = self.field@;
            let ghost stood = occupied@;
            let (places, found) = self.exits(
                &t,
                &*occupied,
                radius,
                clearance,
                dist,
                cells,
                Ghost(net),
            );
            let to: Option<Point> = teleport(f, occupied, &t, &places, rng);
            if let Some(p) = to {
                let tank: Option<Tank> = self.field.get(t.entity);
                if let Some(tank) = tank {
                    let zero: Scalar = Scalar::zero();
                    self.field.put(
                        t.entity,
                        Tank {
                            position: p,
                            commanded: Point { x: zero, y: zero },
                            asked: Point { x: zero, y: zero },
                            velocity: Point { x: zero, y: zero },
                            portal_cooldown: cooldown,
                            mind: match tank.mind {
                                Some(m) => Some(
                                    Mind { hit_alerted: false, retreating: false, ..m },
                                ),
                                None => None,
                            },
                            ..tank
                        },
                    );
                }
                self.pack.release(t.entity);
            }
            proof {
                tos = tos.push(to);
                lemma_passed_same(net, start, queue@, cooldown, were, tos, n as int);
                assert(tos[n as int] == to);
                assert(exits_found(
                    net,
                    queue@[n as int],
                    stood,
                    found@,
                    net.portals.len() as int,
                ));
                assert(gone_to(found@, to)) by {
                    if let Some(p) = to {
                        let k = choose|k: int| 0 <= k < places@.len() && places@[k] == p;
                        assert(found@.contains(Some(places@[k])));
                    }
                }
                assert(stood == passed(start, queue@, cooldown, tos, n as int).occupied);
                assert(roomed(net, start, queue@, cooldown, tos, n as int));
                let k = n + 1;
                assert(exits_found(
                    net,
                    queue@[k - 1],
                    passed(start, queue@, cooldown, tos, k - 1).occupied,
                    found@,
                    net.portals.len() as int,
                ) && gone_to(found@, tos[k - 1]));
                assert(roomed(net, start, queue@, cooldown, tos, k));
                let seats = self.round.seats@;
                assert forall|i: int| #![trigger seats[i]] 0 <= i < MAX_SEATS implies (
                seats[i] matches Some(e) ==> i < self.round.players.seated() && (thing::<Tank>(
                    self.field@,
                    e,
                ) matches Some(t) && t.owner == Owner::Player(i as u8) && t.mind is None)) by {
                    assert(seats[i] == old(self).round.seats@[i]);
                    if let Some(e) = seats[i] {
                        assert(thing::<Tank>(before, e) is Some);
                    }
                }
                if nobody_goes(tos) {
                    assert forall|k: int| 0 <= k < n implies #[trigger] were[k] is None by {
                        assert(tos[k] == were[k]);
                    }
                    assert(tos[n as int] is None);
                }
            }
            n += 1;
        }
        assert(all_roomed(net, start, queue@, cooldown, tos));
        assert(passage(*self, f@, occupied@) == passed(
            start,
            queue@,
            cooldown,
            tos,
            queue@.len() as int,
        ));
    }

    /// Send everyone through who has reached a portal and is ready: the seats
    /// in order, and then the enemies by slot. `dist` measures how far two
    /// places are apart, and `cells` gives the open cells that can be reached
    /// from a portal, the nearest first. A tank comes out of another portal
    /// than the one it goes into, in the first of its cells that lies outside
    /// that portal's radius with everybody else at least the clearance away:
    /// of the portals with such a cell one is picked, each as likely as any
    /// other. Nothing is drawn for a tank with nowhere to go. Whoever goes
    /// keeps its heading and plans afresh on the far side: its mind keeps only
    /// whom it fights, and it gives up its slot on every ring.
    pub fn portal_phase<D: Fn(Point, Point) -> Scalar, C: Fn(usize) -> Vec<Point>>(
        &mut self,
        f: &mut Frame,
        radius: Scalar,
        clearance: Scalar,
        cooldown: Scalar,
        dist: &D,
        cells: &C,
        rng: &mut SmallRng,
    )
        requires
            old(self).wf(),
            forall|a: Point, b: Point| call_requires(*dist, (a, b)),
            forall|j: usize| call_requires(*cells, (j,)),
        ensures
            final(self).wf(),
            final(self).round == old(self).round,
            final(self).keeps_ground(old(self)),
            final(self).events == old(self).events,
            exists|
                seats: Seq<PortalTank>,
                enemies: Seq<PortalTank>,
                pack: Seq<(u64, Tank)>,
                bodies: Seq<(u64, Tank)>,
                tos: Seq<Option<Point>>,
                end: Seq<Occupant>,
            | #[trigger]
                portal_frame(
                    (Network {
                        portals: old(self).ground.portals@,
                        radius,
                        clearance,
                        dist: *dist,
                        cells: *cells,
                    }),
                    cooldown,
                    *old(self),
                    old(f)@,
                    seats,
                    enemies,
                    pack,
                    bodies,
                    tos,
                    end,
                    *final(self),
                    final(f)@,
                ) && (nobody_goes(tos) ==> *final(rng) == *old(rng)),
    {
        let base: Vec<PortalTank> = self.portal_seats();
        let seats: Vec<PortalTank> = self.at_portals(&base, radius, dist);
        let base: Vec<PortalTank> = self.portal_enemies();
        let ghost pack = choose|all: Seq<(u64, Tank)>| #[trigger]
            selects::<Tank>(self.field@, fights(), all) && base@ == enemy_views(all);
        let enemies: Vec<PortalTank> = self.at_portals(&base, radius, dist);
        let mut occupied: Vec<Occupant> = self.occupants();
        let ghost bodies = choose|all: Seq<(u64, Tank)>| #[trigger]
            selects::<Tank>(self.field@, embodied(), all) && occupied@ == ground_of(all);
        let queue: Vec<PortalTank> = portal_queue(self.ground.portals.len(), &seats, &enemies);
        let ghost start = passage(*self, f@, occupied@);
        let ghost net = Network {
            portals: self.ground.portals@,
            radius,
            clearance,
            dist: *dist,
            cells: *cells,
        };
        self.send_through(
            f,
            &queue,
            &mut occupied,
            radius,
            clearance,
            cooldown,
            dist,
            cells,
            rng,
            Ghost(net),
        );
        proof {
            let tos = choose|tos: Seq<Option<Point>>|
                {
                    &&& #[trigger] all_roomed(net, start, queue@, cooldown, tos)
                    &&& passage(*self, f@, occupied@) == passed(
                        start,
                        queue@,
                        cooldown,
                        tos,
                        queue@.len() as int,
                    )
                    &&& nobody_goes(tos) ==> *rng == *old(rng)
                };
            assert(portal_frame(
                net,
                cooldown,
                *old(self),
                old(f)@,
                seats@,
                enemies@,
                pack,
                bodies,
                tos,
                occupied@,
                *self,
                f@,
            ));
        }
    }
}

/// A tank that went through stands still at the far end under its cooldown, and
/// is in all else the tank it was; an enemy keeps whom it fights and its role,
/// and forgets that it was shot and that it was retreating.
pub proof fn a_traveller_stands_still_at_the_far_end(t: Tank, to: Point, cooldown: Scalar)
    ensures
        ({
            let after = arrived(t, to, cooldown);
            let still = Point { x: Scalar { bits: 0 }, y: Scalar { bits: 0 } };
            &&& after.position == to && after.portal_cooldown == cooldown
            &&& after.velocity == still && after.commanded == still && after.asked == still
            &&& t.mind is None ==> after.mind is None
            &&& t.mind matches Some(m) ==> after.mind == Some(
                Mind {
                    role: m.role,
                    target_player: m.target_player,
                    hit_alerted: false,
                    retreating: false,
                },
            )
            &&& after == (Tank {
                position: to,
                commanded: still,
                asked: still,
                velocity: still,
                portal_cooldown: cooldown,
                mind: after.mind,
                ..t
            })
        }),
{
}

/// The portals see a tank as it is.
pub proof fn the_portals_see_a_tank_as_it_is(entity: u64, t: Tank)
    ensures
        ({
            let v = portal_view(entity, t);
            &&& v.entity == entity && v.position == t.position && v.wreck == t.wreck
            &&& v.has_body == t.has_body && v.cooldown == t.portal_cooldown
            &&& v.slot == t.owner.round_slot() && v.entrance is None
        }),
{
}

/// Every seat's tank on the field is seen by the portals, in seat order.
pub proof fn every_seat_on_the_field_is_seen(
    seats: Seq<Option<u64>>,
    pieces: Map<u64, Piece>,
    n: int,
    s: int,
)
    requires
        0 <= s < n <= seats.len(),
        seats[s] matches Some(e) && pieces.contains_key(e) && pieces[e] is Tank
            && !pieces[e]->Tank_0.rolling_in,
    ensures
        seat_views(seats, pieces, n).contains(
            portal_view(seats[s]->0, pieces[seats[s]->0]->Tank_0),
        ),
    decreases n,
{
    let v = portal_view(seats[s]->0, pieces[seats[s]->0]->Tank_0);
    let now = seat_views(seats, pieces, n);
    let before = seat_views(seats, pieces, n - 1);
    assert(thing::<Tank>(pieces, seats[s]->0) == Some(pieces[seats[s]->0]->Tank_0));
    if s == n - 1 {
        assert(now.last() == v);
    } else {
        every_seat_on_the_field_is_seen(seats, pieces, n - 1, s);
        let k = choose|k: int| 0 <= k < before.len() && before[k] == v;
        assert(now[k] == v);
    }
}

proof fn lemma_passed_elsewhere(
    at: Passage,
    queue: Seq<PortalTank>,
    cooldown: Scalar,
    tos: Seq<Option<Point>>,
    n: int,
    id: u64,
)
    requires
        0 <= n <= queue.len() == tos.len(),
        forall|k: int| 0 <= k < n ==> (#[trigger] queue[k]).entity != id || tos[k] is None,
    ensures
        passed(at, queue, cooldown, tos, n).pieces.contains_key(id) == at.pieces.contains_key(id),
        passed(at, queue, cooldown, tos, n).pieces[id] == at.pieces[id],
    decreases n,
{
    if n > 0 {
        assert(queue[n - 1].entity != id || tos[n - 1] is None);
        lemma_passed_elsewhere(at, queue, cooldown, tos, n - 1, id);
    }
}

/// A tank of the queue that has somewhere to go is there afterwards, still; one
/// that has not, and anything that is not in the queue, stays as it was.
pub proof fn a_traveller_is_where_it_went(
    at: Passage,
    queue: Seq<PortalTank>,
    cooldown: Scalar,
    tos: Seq<Option<Point>>,
    n: int,
    k: int,
)
    requires
        0 <= k < n <= queue.len() == tos.len(),
        forall|i: int, j: int|
            0 <= i < j < queue.len() ==> (#[trigger] queue[i]).entity != (
            #[trigger] queue[j]).entity,
        at.pieces.contains_key(queue[k].entity),
        at.pieces[queue[k].entity] is Tank,
    ensures
        ({
            let after = passed(at, queue, cooldown, tos, n).pieces;
            let id = queue[k].entity;
            &&& after.contains_key(id) && after[id] is Tank
            &&& tos[k] matches Some(to) ==> after[id]->Tank_0.position == to
                && after[id]->Tank_0.portal_cooldown == cooldown && after[id]->Tank_0.rotation
                == at.pieces[id]->Tank_0.rotation
            &&& tos[k] is None ==> after[id] == at.pieces[id]
        }),
    decreases n,
{
    let id = queue[k].entity;
    if k < n - 1 {
        a_traveller_is_where_it_went(at, queue, cooldown, tos, n - 1, k);
        assert(queue[n - 1].entity != id);
    } else {
        lemma_passed_elsewhere(at, queue, cooldown, tos, n - 1, id);
    }
}

/// A cell beside an exit is free for a traveller when it lies outside the
/// exit's radius and everybody else is far enough away; the traveller's own
/// ground does not count.
pub proof fn a_free_cell_is_clear_of_everyone_else<
    D: Fn(Point, Point) -> Scalar,
    C: Fn(usize) -> Vec<Point>,
>(
    net: Network<D, C>,
    exit: Point,
    entity: u64,
    occupied: Seq<Occupant>,
    cell: Point,
    k: int,
)
    requires
        judged(net, exit, entity, occupied, cell, true),
        0 <= k < occupied.len(),
    ensures
        exists|d: Scalar| #[trigger]
            call_ensures(net.dist, (cell, exit), d) && net.radius.below(d),
        occupied[k].entity != entity ==> exists|d: Scalar| #[trigger]
            call_ensures(net.dist, (occupied[k].at, cell), d) && net.clearance.at_most(d),
        keeps_off(net.dist, net.clearance, entity, (Occupant { entity, ..occupied[k] }), cell, true),
{
    assert(keeps_off(net.dist, net.clearance, entity, occupied[k], cell, true));
}

} // verus!
