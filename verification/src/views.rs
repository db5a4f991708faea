//! Read-only views of a round, for the presentation and for tooling.
//!
//! A list that comes straight off the field has no particular order.

use vstd::prelude::*;

use crate::field::{lists, selects, thing};
use crate::game::{on_field, Game};
use crate::flame::seated;
use crate::kinds::{Owner, MAX_SEATS};
use crate::pieces::{Frog, HullContact, Missile, Piece, Tank, Tile};
use crate::ranking::{lemma_pushed, ranked, sort_ranked, Ranked};
use crate::scalar::{Point, Scalar};

verus! {

impl Game {
    /// Every tile on fire.
    pub fn burning_tiles(&self) -> (r: Vec<(u64, Tile)>)
        ensures
            selects::<Tile>(self.field@, |t: Tile| t.burning && !t.destroyed, r@),
    {
        let ghost keep = |t: Tile| t.burning && !t.destroyed;
        let test = |t: Tile| -> (b: bool)
            ensures
                b == (t.burning && !t.destroyed),
        { t.burning && !t.destroyed };
        self.field.select(Ghost(keep), test)
    }

    /// Every wreck that is still burning.
    pub fn burning_wrecks(&self) -> (r: Vec<(u64, Tank)>)
        ensures
            selects::<Tank>(self.field@, |t: Tank| t.wreck && !t.burnt_out, r@),
    {
        let ghost keep = |t: Tank| t.wreck && !t.burnt_out;
        let test = |t: Tank| -> (b: bool)
            ensures
                b == (t.wreck && !t.burnt_out),
        { t.wreck && !t.burnt_out };
        self.field.select(Ghost(keep), test)
    }

    /// Every live tank with afterburn on it.
    pub fn burning_tanks(&self) -> (r: Vec<(u64, Tank)>)
        ensures
            selects::<Tank>(
                self.field@,
                |t: Tank| !t.wreck && Scalar::zero().below(t.burn_timer),
                r@,
            ),
    {
        let ghost keep = |t: Tank| !t.wreck && Scalar::zero().below(t.burn_timer);
        let test = |t: Tank| -> (b: bool)
            ensures
                b == (!t.wreck && Scalar::zero().below(t.burn_timer)),
        { !t.wreck && t.burn_timer.positive() };
        self.field.select(Ghost(keep), test)
    }

    /// Every prop a tank is grinding down.
    pub fn ramming_tiles(&self) -> (r: Vec<(u64, Tile)>)
        ensures
            selects::<Tile>(
                self.field@,
                |t: Tile| Scalar::zero().below(t.ram_timer) && !t.destroyed,
                r@,
            ),
    {
        let ghost keep = |t: Tile| Scalar::zero().below(t.ram_timer) && !t.destroyed;
        let test = |t: Tile| -> (b: bool)
            ensures
                b == (Scalar::zero().below(t.ram_timer) && !t.destroyed),
        { t.ram_timer.positive() && !t.destroyed };
        self.field.select(Ghost(keep), test)
    }

    /// Every barrel with a lit fuse.
    pub fn fused_barrels(&self) -> (r: Vec<(u64, Tile)>)
        ensures
            selects::<Tile>(self.field@, |t: Tile| t.fuse is Some && !t.destroyed, r@),
    {
        let ghost keep = |t: Tile| t.fuse is Some && !t.destroyed;
        let test = |t: Tile| -> (b: bool)
            ensures
                b == (t.fuse is Some && !t.destroyed),
        { t.fuse.is_some() && !t.destroyed };
        self.field.select(Ghost(keep), test)
    }

    /// Every missile in the air.
    pub fn missiles(&self) -> (r: Vec<(u64, Missile)>)
        ensures
            lists::<Missile>(self.field@, r@),
    {
        self.field.all()
    }
}

/// One tank as headless tooling sees it.
#[derive(Clone, Copy, Debug, PartialEq, Eq, Structural)]
pub struct TankSnapshot {
    pub slot: usize,
    /// Any seat's tank.
    pub is_player: bool,
    /// Which seat.
    pub player: Option<u8>,
    /// Still rolling in: no body yet, not part of the fight.
    pub entering: bool,
    pub position: Point,
    pub rotation: Scalar,
    /// The body's; what it was told to drive at stands in for a tank without
    /// one.
    pub velocity: Point,
    /// What was asked of the body.
    pub commanded_velocity: Point,
    pub top_speed: Scalar,
    pub damage: Scalar,
    pub shells_ammo: i32,
    pub minigun_ammo: i32,
    pub missile_ammo: i32,
    pub plasma_ammo: i32,
    pub laser_charges: i32,
    pub flame_fuel: Scalar,
    pub burn_timer: Scalar,
    pub shield: Scalar,
    /// Seconds before the shield starts to recharge.
    pub shield_recharge_delay: Scalar,
    /// A tank without a body touches nothing.
    pub contact: HullContact,
    pub is_wreck: bool,
}

/// How fast a tank goes: its body's velocity, and without a body what it was
/// told to drive at.
pub open spec fn speed_of(t: Tank) -> Point {
    if t.has_body {
        t.velocity
    } else {
        t.commanded
    }
}

fn read_speed(t: &Tank) -> (v: Point)
    ensures
        v == speed_of(*t),
{
    if t.has_body {
        t.velocity
    } else {
        t.commanded
    }
}

/// The first seat an entity sits in, among the first `n`.
pub open spec fn seat_of(seats: Seq<Option<u64>>, entity: u64, n: int) -> Option<u8>
    decreases n,
{
    if n <= 0 {
        None
    } else if seat_of(seats, entity, n - 1) is Some {
        seat_of(seats, entity, n - 1)
    } else if seats[n - 1] == Some(entity) {
        Some((n - 1) as u8)
    } else {
        None
    }
}

/// A tank's snapshot.
pub open spec fn snapshot_of(seats: Seq<Option<u64>>, entity: u64, t: Tank) -> TankSnapshot {
    TankSnapshot {
        slot: t.slot(),
        is_player: t.owner.is_seat(),
        player: seat_of(seats, entity, 8),
        entering: !t.has_body,
        position: t.position,
        rotation: t.rotation,
        velocity: speed_of(t),
        commanded_velocity: t.asked,
        top_speed: t.top_speed,
        damage: t.damage,
        shells_ammo: t.shells,
        minigun_ammo: t.minigun_ammo,
        missile_ammo: t.missile_ammo,
        plasma_ammo: t.plasma_ammo,
        laser_charges: t.laser_charges,
        flame_fuel: t.flame_fuel,
        burn_timer: t.burn_timer,
        shield: t.shield,
        shield_recharge_delay: t.shield_delay,
        contact: if t.has_body {
            t.contact
        } else {
            HullContact::nothing()
        },
        is_wreck: t.wreck,
    }
}

impl Game {
    fn seat_index(&self, entity: u64) -> (seat: Option<u8>)
        ensures
            seat == seat_of(self.round.seats@, entity, 8),
    {
        let mut found: Option<u8> = None;
        let mut i: usize = 0;
        while i < MAX_SEATS
            invariant
                i <= MAX_SEATS,
                found == seat_of(self.round.seats@, entity, i as int),
            decreases MAX_SEATS - i,
        {
            if found.is_none() {
                if let Some(e) = self.round.seats[i] {
                    if e == entity {
                        found = Some(i as u8);
                    }
                }
            }
            i += 1;
        }
        found
    }

    /// Every tank's externally visible state.
    pub fn tank_snapshots(&self) -> (r: Vec<TankSnapshot>)
        ensures
            exists|all: Seq<(u64, Tank)>| #[trigger]
                lists::<Tank>(self.field@, all) && r@ == all.map_values(
                    |e: (u64, Tank)| snapshot_of(self.round.seats@, e.0, e.1),
                ),
    {
        let all: Vec<(u64, Tank)> = self.field.all();
        let mut r: Vec<TankSnapshot> = Vec::new();
        let mut n: usize = 0;
        while n < all.len()
            invariant
                n <= all@.len(),
                r@.len() == n,
                forall|i: int|
                    0 <= i < n ==> #[trigger] r@[i] == snapshot_of(
                        self.round.seats@,
                        all@[i].0,
                        all@[i].1,
                    ),
            decreases all@.len() - n,
        {
            let (entity, t) = all[n];
            r.push(
                TankSnapshot {
                    slot: t.owner_slot(),
                    is_player: t.owner.is_player(),
                    player: self.seat_index(entity),
                    entering: !t.has_body,
                    position: t.position,
                    rotation: t.rotation,
                    velocity: read_speed(&t),
                    commanded_velocity: t.asked,
                    top_speed: t.top_speed,
                    damage: t.damage,
                    shells_ammo: t.shells,
                    minigun_ammo: t.minigun_ammo,
                    missile_ammo: t.missile_ammo,
                    plasma_ammo: t.plasma_ammo,
                    laser_charges: t.laser_charges,
                    flame_fuel: t.flame_fuel,
                    burn_timer: t.burn_timer,
                    shield: t.shield,
                    shield_recharge_delay: t.shield_delay,
                    contact: if t.has_body {
                        t.contact
                    } else {
                        HullContact::none()
                    },
                    is_wreck: t.wreck,
                },
            );
            n += 1;
        }
        assert(r@ =~= all@.map_values(
            |e: (u64, Tank)| snapshot_of(self.round.seats@, e.0, e.1),
        ));
        r
    }
}

/// Where the enemies' shared routes lead, of the first `n` seats: to each live
/// tank on the field.
pub open spec fn route_goals(seats: Seq<Option<u64>>, pieces: Map<u64, Piece>, n: int) -> Seq<Point>
    decreases n,
{
    if n <= 0 {
        Seq::empty()
    } else {
        let before = route_goals(seats, pieces, n - 1);
        match on_field(seats[n - 1], pieces) {
            Some(entity) => match thing::<Tank>(pieces, entity) {
                Some(t) => if t.wreck {
                    before
                } else {
                    before.push(t.position)
                },
                None => before,
            },
            None => before,
        }
    }
}

/// The players' frog, while it lives, is one more goal.
pub open spec fn frog_goal(frog: Option<u64>, pieces: Map<u64, Piece>) -> Seq<Point> {
    match frog {
        Some(entity) => match thing::<Frog>(pieces, entity) {
            Some(f) => if f.dead {
                Seq::empty()
            } else {
                seq![f.position]
            },
            None => Seq::empty(),
        },
        None => Seq::empty(),
    }
}

/// A live enemy.
pub open spec fn in_the_pack() -> spec_fn(Tank) -> bool {
    |t: Tank| t.mind is Some && !t.wreck
}

impl Game {
    /// The targets many enemies share, in the order their flow fields are
    /// built: the live players on the field by seat, then the players' frog.
    pub fn route_targets(&self) -> (goals: Vec<Point>)
        ensures
            goals@ == route_goals(self.round.seats@, self.field@, 8) + frog_goal(
                self.round.frog,
                self.field@,
            ),
    {
        let mut goals: Vec<Point> = Vec::new();
        let seats: [Option<u64>; 8] = self.seats_on_field();
        let mut i: usize = 0;
        while i < MAX_SEATS
            invariant
                i <= MAX_SEATS,
                forall|k: int|
                    0 <= k < MAX_SEATS ==> #[trigger] seats@[k] == on_field(
                        self.round.seats@[k],
                        self.field@,
                    ),
                goals@ == route_goals(self.round.seats@, self.field@, i as int),
            decreases MAX_SEATS - i,
        {
            if let Some(entity) = seats[i] {
                let tank: Option<Tank> = self.field.get(entity);
                if let Some(t) = tank {
                    if !t.wreck {
                        goals.push(t.position);
                    }
                }
            }
            i += 1;
        }
        if let Some(entity) = self.round.frog {
            let frog: Option<Frog> = self.field.get(entity);
            if let Some(f) = frog {
                if !f.dead {
                    goals.push(f.position);
                }
            }
        }
        assert(goals@ =~= route_goals(self.round.seats@, self.field@, 8) + frog_goal(
            self.round.frog,
            self.field@,
        ));
        goals
    }

    /// Every live enemy, whose cell costs a route extra.
    pub fn standing_enemies(&self) -> (r: Vec<(u64, Tank)>)
        ensures
            selects::<Tank>(self.field@, in_the_pack(), r@),
    {
        let test = |t: Tank| -> (b: bool)
            ensures
                b == (t.mind is Some && !t.wreck),
        { t.mind.is_some() && !t.wreck };
        self.field.select(Ghost(in_the_pack()), test)
    }
}

/// What an order can be given against, as long as it stands: a live tank, a
/// live frog or a standing tile.
#[derive(Clone, Copy, Debug, PartialEq, Eq, Structural)]
pub enum TargetKind {
    Tank,
    Frog,
    Tile,
}

/// A target's state; a frog and a tile stay where they are.
#[derive(Clone, Copy, Debug, PartialEq, Eq, Structural)]
pub struct TargetState {
    pub kind: TargetKind,
    pub position: Point,
    pub velocity: Point,
}

/// At rest.
pub open spec fn at_rest() -> Point {
    Point { x: Scalar::zero(), y: Scalar::zero() }
}

/// The state of what an entity is, as long as it stands.
pub open spec fn state_of(pieces: Map<u64, Piece>, entity: u64) -> Option<TargetState> {
    if !pieces.contains_key(entity) {
        None
    } else {
        match pieces[entity] {
            Piece::Tank(t) => if t.wreck {
                None
            } else {
                Some(
                    TargetState {
                        kind: TargetKind::Tank,
                        position: t.position,
                        velocity: speed_of(t),
                    },
                )
            },
            Piece::Frog(g) => if g.dead {
                None
            } else {
                Some(
                    TargetState {
                        kind: TargetKind::Frog,
                        position: g.position,
                        velocity: at_rest(),
                    },
                )
            },
            Piece::Tile(o) => if o.destroyed {
                None
            } else {
                Some(
                    TargetState {
                        kind: TargetKind::Tile,
                        position: o.position,
                        velocity: at_rest(),
                    },
                )
            },
            _ => None,
        }
    }
}

/// A tank in the water: its slot, where, and how fast its body goes; a tank
/// without one stands still.
#[derive(Clone, Copy, Debug, PartialEq, Eq, Structural)]
pub struct Wader {
    pub slot: usize,
    pub position: Point,
    pub velocity: Point,
}

impl Ranked for Wader {
    /// By round slot.
    open spec fn ahead(self, other: Wader) -> bool {
        self.slot < other.slot
    }

    proof fn ranks(a: Wader, b: Wader, c: Wader) {
    }

    fn is_ahead(&self, other: &Wader) -> (r: bool) {
        self.slot < other.slot
    }
}

/// Those of the first `n` tanks that are in the water.
pub open spec fn waders(all: Seq<(u64, Tank)>, wet: Seq<bool>, n: int) -> Seq<Wader>
    decreases n,
{
    if n <= 0 {
        Seq::empty()
    } else {
        let before = waders(all, wet, n - 1);
        let t = all[n - 1].1;
        if !t.wreck && wet[n - 1] {
            before.push(
                Wader {
                    slot: t.slot(),
                    position: t.position,
                    velocity: if t.has_body {
                        t.velocity
                    } else {
                        at_rest()
                    },
                },
            )
        } else {
            before
        }
    }
}

/// Which of the first `n` tanks stand in water, as the host says.
pub open spec fn soaked<W: Fn(Point) -> bool>(
    wet: W,
    all: Seq<(u64, Tank)>,
    soaks: Seq<bool>,
    n: int,
) -> bool {
    soaks.len() == n && forall|k: int|
        0 <= k < n ==> call_ensures(wet, ((#[trigger] all[k]).1.position,), soaks[k])
}

proof fn lemma_waders_same(all: Seq<(u64, Tank)>, a: Seq<bool>, b: Seq<bool>, n: int)
    requires
        0 <= n <= a.len(),
        n <= b.len(),
        forall|i: int| 0 <= i < n ==> a[i] == b[i],
    ensures
        waders(all, a, n) == waders(all, b, n),
    decreases n,
{
    if n > 0 {
        lemma_waders_same(all, a, b, n - 1);
    }
}

impl Game {
    /// A target's state; none once it is wrecked, dead, destroyed or gone.
    pub fn target_state(&self, entity: u64) -> (r: Option<TargetState>)
        ensures
            r == state_of(self.field@, entity),
    {
        let rest: Point = Point { x: Scalar::zero(), y: Scalar::zero() };
        let tank: Option<Tank> = self.field.get(entity);
        if let Some(t) = tank {
            if t.wreck {
                return None;
            }
            return Some(
                TargetState {
                    kind: TargetKind::Tank,
                    position: t.position,
                    velocity: read_speed(&t),
                },
            );
        }
        let frog: Option<Frog> = self.field.get(entity);
        if let Some(g) = frog {
            if g.dead {
                return None;
            }
            return Some(
                TargetState { kind: TargetKind::Frog, position: g.position, velocity: rest },
            );
        }
        let tile: Option<Tile> = self.field.get(entity);
        if let Some(o) = tile {
            if o.destroyed {
                return None;
            }
            return Some(
                TargetState { kind: TargetKind::Tile, position: o.position, velocity: rest },
            );
        }
        None
    }

    /// Every live tank in the water, by slot.
    pub fn wading<W: Fn(Point) -> bool>(&self, wet: &W) -> (r: Vec<Wader>)
        requires
            forall|p: Point| call_requires(*wet, (p,)),
        ensures
            exists|all: Seq<(u64, Tank)>, soaks: Seq<bool>|
                {
                    &&& lists::<Tank>(self.field@, all)
                    &&& #[trigger] soaked(*wet, all, soaks, all.len() as int)
                    &&& r@ == ranked(waders(all, soaks, all.len() as int))
                },
    {
        let ghost mut soaks: Seq<bool> = Seq::empty();
        let all: Vec<(u64, Tank)> = self.field.all();
        let mut found: Vec<Wader> = Vec::new();
        let mut n: usize = 0;
        while n < all.len()
            invariant
                n <= all@.len(),
                forall|p: Point| call_requires(*wet, (p,)),
                soaked(*wet, all@, soaks, n as int),
                found@ == waders(all@, soaks, n as int),
            decreases all@.len() - n,
        {
            let ghost were = soaks;
            let t: Tank = all[n].1;
            let soaks_it: bool = wet(t.position);
            if !t.wreck && soaks_it {
                found.push(
                    Wader {
                        slot: t.owner_slot(),
                        position: t.position,
                        velocity: if t.has_body {
                            t.velocity
                        } else {
                            Point { x: Scalar::zero(), y: Scalar::zero() }
                        },
                    },
                );
            }
            proof {
                soaks = soaks.push(soaks_it);
                lemma_waders_same(all@, were, soaks, n as int);
            }
            n += 1;
        }
        sort_ranked(&found)
    }

    /// The portals that do anything: none of them while there are fewer than
    /// two.
    pub fn active_portals(&self) -> (portals: Vec<Point>)
        ensures
            portals@ == (if self.ground.portals@.len() >= 2 {
                self.ground.portals@
            } else {
                Seq::empty()
            }),
    {
        let mut portals: Vec<Point> = Vec::new();
        if self.portals_active() {
            let mut n: usize = 0;
            while n < self.ground.portals.len()
                invariant
                    n <= self.ground.portals@.len(),
                    portals@ == self.ground.portals@.take(n as int),
                decreases self.ground.portals@.len() - n,
            {
                portals.push(self.ground.portals[n]);
                n += 1;
                assert(portals@ =~= self.ground.portals@.take(n as int));
            }
            assert(portals@ =~= self.ground.portals@);
        }
        portals
    }

    /// The frogs in the order their reflexes run: the players' own first.
    pub fn frog_order(&self) -> (order: Vec<u64>)
        ensures
            order@ == seated(seq![self.round.frog, self.round.enemy_frog], 2),
    {
        let mut order: Vec<u64> = Vec::new();
        let ghost pair = seq![self.round.frog, self.round.enemy_frog];
        assert(seated(pair, 0) =~= Seq::<u64>::empty());
        if let Some(frog) = self.round.frog {
            order.push(frog);
        }
        assert(order@ == seated(pair, 1));
        if let Some(frog) = self.round.enemy_frog {
            order.push(frog);
        }
        order
    }
}

/// What the solver has a tank leaning on.
#[derive(Clone, Copy, Debug, PartialEq, Eq, Structural)]
pub struct Contact {
    pub at: Point,
    /// How hard it leans.
    pub impulse: Scalar,
    /// It leans on another tank.
    pub tank: bool,
}

/// The contacts of the first `n` tanks that are not burnt out, where the host
/// has one that is felt at all.
pub open spec fn felt(all: Seq<(u64, Tank)>, seen: Seq<Option<Contact>>, n: int) -> Seq<Contact>
    decreases n,
{
    if n <= 0 {
        Seq::empty()
    } else {
        let before = felt(all, seen, n - 1);
        match seen[n - 1] {
            Some(c) => if !all[n - 1].1.burnt_out && all[n - 1].1.has_body && Scalar::zero().below(
                c.impulse,
            ) {
                before.push(c)
            } else {
                before
            },
            None => before,
        }
    }
}

/// What the host's solver says of every tank with a body that is not burnt
/// out.
pub open spec fn contacts_read<C: Fn(u64, Tank) -> Option<Contact>>(
    read: C,
    all: Seq<(u64, Tank)>,
    seen: Seq<Option<Contact>>,
    n: int,
) -> bool {
    seen.len() == n && forall|k: int|
        0 <= k < n && !(#[trigger] all[k]).1.burnt_out && all[k].1.has_body ==> call_ensures(
            read,
            (all[k].0, all[k].1),
            seen[k],
        )
}

proof fn lemma_felt_same(
    all: Seq<(u64, Tank)>,
    a: Seq<Option<Contact>>,
    b: Seq<Option<Contact>>,
    n: int,
)
    requires
        0 <= n <= a.len(),
        n <= b.len(),
        forall|i: int| 0 <= i < n ==> a[i] == b[i],
    ensures
        felt(all, a, n) == felt(all, b, n),
    decreases n,
{
    if n > 0 {
        lemma_felt_same(all, a, b, n - 1);
    }
}

/// A tank that brushes the grass: in the fight, on the field, and moving.
pub open spec fn brushing(all: Seq<(u64, Tank)>, moving: Seq<bool>, n: int) -> Seq<Point>
    decreases n,
{
    if n <= 0 {
        Seq::empty()
    } else if !all[n - 1].1.wreck && all[n - 1].1.has_body && moving[n - 1] {
        brushing(all, moving, n - 1).push(all[n - 1].1.position)
    } else {
        brushing(all, moving, n - 1)
    }
}

/// Whether the host has each tank that could brush the grass move.
pub open spec fn movement_read<M: Fn(u64, Tank) -> bool>(
    moves: M,
    all: Seq<(u64, Tank)>,
    moving: Seq<bool>,
    n: int,
) -> bool {
    moving.len() == n && forall|k: int|
        0 <= k < n && !(#[trigger] all[k]).1.wreck && all[k].1.has_body ==> call_ensures(
            moves,
            (all[k].0, all[k].1),
            moving[k],
        )
}

proof fn lemma_brushing_same(all: Seq<(u64, Tank)>, a: Seq<bool>, b: Seq<bool>, n: int)
    requires
        0 <= n <= a.len(),
        n <= b.len(),
        forall|i: int| 0 <= i < n ==> a[i] == b[i],
    ensures
        brushing(all, a, n) == brushing(all, b, n),
    decreases n,
{
    if n > 0 {
        lemma_brushing_same(all, a, b, n - 1);
    }
}

/// One of the movers is near the place.
pub open spec fn near_some<N: Fn(Point, Point) -> bool>(
    near: N,
    movers: Seq<Point>,
    at: Point,
    yes: bool,
) -> bool {
    if yes {
        exists|i: int|
            0 <= i < movers.len() && call_ensures(near, (#[trigger] movers[i], at), true)
    } else {
        forall|i: int|
            0 <= i < movers.len() ==> call_ensures(near, (#[trigger] movers[i], at), false)
    }
}

fn is_near<N: Fn(Point, Point) -> bool>(near: &N, movers: &Vec<Point>, at: Point) -> (yes: bool)
    requires
        forall|m: Point, p: Point| call_requires(*near, (m, p)),
    ensures
        near_some(*near, movers@, at, yes),
{
    let mut n: usize = 0;
    while n < movers.len()
        invariant
            n <= movers@.len(),
            forall|m: Point, p: Point| call_requires(*near, (m, p)),
            forall|i: int|
                0 <= i < n ==> call_ensures(*near, (#[trigger] movers@[i], at), false),
        decreases movers@.len() - n,
    {
        if near(movers[n], at) {
            assert(call_ensures(*near, (movers@[n as int], at), true));
            return true;
        }
        n += 1;
    }
    false
}

/// Those of the first `n` places that are picked.
pub open spec fn picked(places: Seq<Point>, picks: Seq<bool>, n: int) -> Seq<Point>
    decreases n,
{
    if n <= 0 {
        Seq::empty()
    } else if picks[n - 1] {
        picked(places, picks, n - 1).push(places[n - 1])
    } else {
        picked(places, picks, n - 1)
    }
}

proof fn lemma_picked_same(places: Seq<Point>, a: Seq<bool>, b: Seq<bool>, n: int)
    requires
        0 <= n <= a.len(),
        n <= b.len(),
        forall|i: int| 0 <= i < n ==> a[i] == b[i],
    ensures
        picked(places, a, n) == picked(places, b, n),
    decreases n,
{
    if n > 0 {
        lemma_picked_same(places, a, b, n - 1);
    }
}

/// Which of the first `n` places have a mover near them.
pub open spec fn stirred<N: Fn(Point, Point) -> bool>(
    near: N,
    movers: Seq<Point>,
    places: Seq<Point>,
    picks: Seq<bool>,
    n: int,
) -> bool {
    picks.len() == n && forall|k: int|
        0 <= k < n ==> near_some(near, movers, places[k], #[trigger] picks[k])
}

impl Game {
    /// What every tank that is not burnt out leans on, hard enough to be felt.
    /// A contact is a state and not an event, so nothing is recorded.
    pub fn contacts<C: Fn(u64, Tank) -> Option<Contact>>(&self, read: &C) -> (r: Vec<Contact>)
        requires
            forall|e: u64, t: Tank| call_requires(*read, (e, t)),
        ensures
            exists|all: Seq<(u64, Tank)>, seen: Seq<Option<Contact>>|
                {
                    &&& lists::<Tank>(self.field@, all)
                    &&& #[trigger] contacts_read(*read, all, seen, all.len() as int)
                    &&& r@ == felt(all, seen, all.len() as int)
                },
    {
        let all: Vec<(u64, Tank)> = self.field.all();
        let ghost mut seen: Seq<Option<Contact>> = Seq::empty();
        let mut r: Vec<Contact> = Vec::new();
        let mut n: usize = 0;
        while n < all.len()
            invariant
                n <= all@.len(),
                forall|e: u64, t: Tank| call_requires(*read, (e, t)),
                contacts_read(*read, all@, seen, n as int),
                r@ == felt(all@, seen, n as int),
            decreases all@.len() - n,
        {
            let (entity, t) = all[n];
            let ghost were = seen;
            let mut found: Option<Contact> = None;
            if !t.burnt_out && t.has_body {
                found = read(entity, t);
                if let Some(c) = found {
                    if c.impulse.positive() {
                        r.push(c);
                    }
                }
            }
            proof {
                seen = seen.push(found);
                lemma_felt_same(all@, were, seen, n as int);
                assert forall|k: int|
                    0 <= k < n + 1 && !(#[trigger] all@[k]).1.burnt_out
                        && all@[k].1.has_body implies call_ensures(
                    *read,
                    (all@[k].0, all@[k].1),
                    seen[k],
                ) by {
                    if k < n {
                        assert(seen[k] == were[k]);
                    }
                }
            }
            n += 1;
        }
        r
    }

    /// The grass a moving tank is near enough to stir.
    pub fn grass_disturbed<M: Fn(u64, Tank) -> bool, N: Fn(Point, Point) -> bool>(
        &self,
        grass: &Vec<Point>,
        moves: &M,
        near: &N,
    ) -> (r: Vec<Point>)
        requires
            forall|e: u64, t: Tank| call_requires(*moves, (e, t)),
            forall|m: Point, p: Point| call_requires(*near, (m, p)),
        ensures
            exists|all: Seq<(u64, Tank)>, moving: Seq<bool>, picks: Seq<bool>|
                {
                    &&& lists::<Tank>(self.field@, all)
                    &&& #[trigger] movement_read(*moves, all, moving, all.len() as int)
                    &&& #[trigger] stirred(
                        *near,
                        brushing(all, moving, all.len() as int),
                        grass@,
                        picks,
                        grass@.len() as int,
                    )
                    &&& r@ == picked(grass@, picks, grass@.len() as int)
                },
    {
        let all: Vec<(u64, Tank)> = self.field.all();
        let ghost mut moving: Seq<bool> = Seq::empty();
        let mut movers: Vec<Point> = Vec::new();
        let mut n: usize = 0;
        while n < all.len()
            invariant
                n <= all@.len(),
                forall|e: u64, t: Tank| call_requires(*moves, (e, t)),
                movement_read(*moves, all@, moving, n as int),
                movers@ == brushing(all@, moving, n as int),
            decreases all@.len() - n,
        {
            let (entity, t) = all[n];
            let ghost were = moving;
            let mut on_the_move: bool = false;
            if !t.wreck && t.has_body {
                on_the_move = moves(entity, t);
                if on_the_move {
                    movers.push(t.position);
                }
            }
            proof {
                moving = moving.push(on_the_move);
                lemma_brushing_same(all@, were, moving, n as int);
                assert forall|k: int|
                    0 <= k < n + 1 && !(#[trigger] all@[k]).1.wreck
                        && all@[k].1.has_body implies call_ensures(
                    *moves,
                    (all@[k].0, all@[k].1),
                    moving[k],
                ) by {
                    if k < n {
                        assert(moving[k] == were[k]);
                    }
                }
            }
            n += 1;
        }
        let ghost mut picks: Seq<bool> = Seq::empty();
        let mut r: Vec<Point> = Vec::new();
        let mut n: usize = 0;
        while n < grass.len()
            invariant
                n <= grass@.len(),
                forall|m: Point, p: Point| call_requires(*near, (m, p)),
                stirred(*near, movers@, grass@, picks, n as int),
                r@ == picked(grass@, picks, n as int),
            decreases grass@.len() - n,
        {
            let ghost were = picks;
            let yes: bool = is_near(near, &movers, grass[n]);
            if yes {
                r.push(grass[n]);
            }
            proof {
                picks = picks.push(yes);
                lemma_picked_same(grass@, were, picks, n as int);
            }
            n += 1;
        }
        assert(movement_read(*moves, all@, moving, all@.len() as int));
        r
    }
}

/// The enemies' shared routes lead to every seat's tank that runs and is on the
/// battlefield, to where it stands, and to no other seat.
pub proof fn routes_lead_to_every_running_seat(
    seats: Seq<Option<u64>>,
    pieces: Map<u64, Piece>,
    n: int,
    at: Point,
)
    requires
        0 <= n <= seats.len(),
    ensures
        route_goals(seats, pieces, n).contains(at) <==> exists|s: int|
            {
                &&& 0 <= s < n
                &&& #[trigger] seats[s] is Some && pieces.contains_key(seats[s]->0)
                &&& pieces[seats[s]->0] is Tank
                &&& !pieces[seats[s]->0]->Tank_0.wreck && !pieces[seats[s]->0]->Tank_0.rolling_in
                &&& pieces[seats[s]->0]->Tank_0.position == at
            },
    decreases n,
{
    if n > 0 {
        routes_lead_to_every_running_seat(seats, pieces, n - 1, at);
        let before = route_goals(seats, pieces, n - 1);
        let e = seats[n - 1]->0;
        if seats[n - 1] is Some && thing::<Tank>(pieces, e) is Some {
            lemma_pushed(before, (thing::<Tank>(pieces, e)->0).position, at);
        }
    }
}

/// A live frog is a goal too; a dead one, or none, is not. An enemy counts
/// toward the crowd as long as it runs.
pub proof fn a_live_frog_is_a_goal(pieces: Map<u64, Piece>, e: u64, t: Tank)
    ensures
        frog_goal(None, pieces).len() == 0,
        pieces.contains_key(e) && pieces[e] is Frog && !pieces[e]->Frog_0.dead ==> frog_goal(
            Some(e),
            pieces,
        ) == seq![pieces[e]->Frog_0.position],
        pieces.contains_key(e) && pieces[e] is Frog && pieces[e]->Frog_0.dead ==> frog_goal(
            Some(e),
            pieces,
        ).len() == 0,
        in_the_pack()(t) <==> t.mind is Some && !t.wreck,
{
}

/// A target stands as long as it is no wreck, not dead and not destroyed; its
/// velocity is its body's for a tank with one, what it was told to drive at for
/// a tank without, and none for what stays where it is.
pub proof fn a_target_stands_until_it_is_gone(pieces: Map<u64, Piece>, e: u64)
    ensures
        !pieces.contains_key(e) ==> state_of(pieces, e) is None,
        pieces.contains_key(e) ==> (match pieces[e] {
            Piece::Tank(t) => {
                &&& state_of(pieces, e) is None <==> t.wreck
                &&& !t.wreck ==> (state_of(pieces, e)->0).kind is Tank && (state_of(
                    pieces,
                    e,
                )->0).position == t.position
                &&& !t.wreck && t.has_body ==> (state_of(pieces, e)->0).velocity == t.velocity
                &&& !t.wreck && !t.has_body ==> (state_of(pieces, e)->0).velocity == t.commanded
            },
            Piece::Frog(g) => {
                &&& state_of(pieces, e) is None <==> g.dead
                &&& !g.dead ==> (state_of(pieces, e)->0).kind is Frog && (state_of(
                    pieces,
                    e,
                )->0).position == g.position && (state_of(pieces, e)->0).velocity.x.bits == 0 && (
                state_of(pieces, e)->0).velocity.y.bits == 0
            },
            Piece::Tile(o) => {
                &&& state_of(pieces, e) is None <==> o.destroyed
                &&& !o.destroyed ==> (state_of(pieces, e)->0).kind is Tile && (state_of(
                    pieces,
                    e,
                )->0).position == o.position && (state_of(pieces, e)->0).velocity.x.bits == 0 && (
                state_of(pieces, e)->0).velocity.y.bits == 0
            },
            _ => state_of(pieces, e) is None,
        }),
{
}

/// A tank's snapshot says of it what it is: nothing touches one without a body,
/// and the seat is the one it sits in.
pub proof fn a_snapshot_shows_the_tank(seats: Seq<Option<u64>>, entity: u64, t: Tank)
    ensures
        ({
            let s = snapshot_of(seats, entity, t);
            &&& s.is_player <==> t.owner is Player
            &&& s.is_wreck == t.wreck && s.entering == !t.has_body
            &&& s.position == t.position && s.rotation == t.rotation && s.damage == t.damage
            &&& t.has_body ==> s.velocity == t.velocity && s.contact == t.contact
            &&& !t.has_body ==> s.velocity == t.commanded && !s.contact.touching_static
                && !s.contact.touching_tank
            &&& s.commanded_velocity == t.asked && s.top_speed == t.top_speed
            &&& s.shells_ammo == t.shells && s.minigun_ammo == t.minigun_ammo
            &&& s.missile_ammo == t.missile_ammo && s.plasma_ammo == t.plasma_ammo
            &&& s.laser_charges == t.laser_charges && s.flame_fuel == t.flame_fuel
            &&& s.burn_timer == t.burn_timer && s.shield == t.shield
            &&& s.shield_recharge_delay == t.shield_delay
            &&& t.owner matches Owner::Enemy(slot) ==> s.slot == slot
            &&& t.owner matches Owner::Player(seat) ==> s.slot == seat
        }),
{
}

/// The seat of an entity is the first it sits in, and it has none when it sits
/// in none.
pub proof fn a_seat_is_the_first_one_sat_in(seats: Seq<Option<u64>>, entity: u64, n: int)
    requires
        0 <= n <= seats.len(),
        n <= 255,
    ensures
        match seat_of(seats, entity, n) {
            Some(s) => s < n && seats[s as int] == Some(entity) && forall|i: int|
                0 <= i < s ==> #[trigger] seats[i] != Some(entity),
            None => forall|i: int| 0 <= i < n ==> #[trigger] seats[i] != Some(entity),
        },
    decreases n,
{
    if n > 0 {
        a_seat_is_the_first_one_sat_in(seats, entity, n - 1);
    }
}

/// Every running tank in the water is listed, where it is and as fast as its
/// body goes, and nobody else is; they come by round slot.
pub proof fn every_running_tank_in_the_water_wades(
    all: Seq<(u64, Tank)>,
    wet: Seq<bool>,
    n: int,
    w: Wader,
)
    requires
        0 <= n <= all.len(),
    ensures
        waders(all, wet, n).contains(w) <==> exists|k: int|
            {
                &&& 0 <= k < n && !(#[trigger] all[k]).1.wreck && wet[k]
                &&& w.slot == all[k].1.owner.round_slot() && w.position == all[k].1.position
                &&& all[k].1.has_body ==> w.velocity == all[k].1.velocity
                &&& !all[k].1.has_body ==> w.velocity.x.bits == 0 && w.velocity.y.bits == 0
            },
        forall|a: Wader, b: Wader| #[trigger] a.ahead(b) <==> a.slot < b.slot,
    decreases n,
{
    if n > 0 {
        every_running_tank_in_the_water_wades(all, wet, n - 1, w);
        let before = waders(all, wet, n - 1);
        let now = waders(all, wet, n);
        if now.len() > before.len() {
            lemma_pushed(before, now[before.len() as int], w);
            assert(now =~= before.push(now[before.len() as int]));
        }
    }
}

/// Everything a tank with a body leans on hard enough to be felt is listed,
/// until the tank has burnt out.
pub proof fn every_felt_contact_is_listed(
    all: Seq<(u64, Tank)>,
    seen: Seq<Option<Contact>>,
    n: int,
    c: Contact,
)
    requires
        0 <= n <= all.len(),
        n <= seen.len(),
    ensures
        felt(all, seen, n).contains(c) <==> exists|k: int|
            {
                &&& 0 <= k < n && !(#[trigger] all[k]).1.burnt_out && all[k].1.has_body
                &&& seen[k] == Some(c) && Scalar::zero().below(c.impulse)
            },
    decreases n,
{
    if n > 0 {
        every_felt_contact_is_listed(all, seen, n - 1, c);
        let before = felt(all, seen, n - 1);
        if seen[n - 1] is Some {
            lemma_pushed(before, seen[n - 1]->0, c);
        }
    }
}

/// The grass is brushed by every tank that runs, has a body and moves; and of
/// the places with grass those are stirred that are picked.
pub proof fn every_moving_tank_brushes_the_grass(
    all: Seq<(u64, Tank)>,
    moving: Seq<bool>,
    n: int,
    at: Point,
)
    requires
        0 <= n <= all.len(),
    ensures
        brushing(all, moving, n).contains(at) <==> exists|k: int|
            {
                &&& 0 <= k < n && !(#[trigger] all[k]).1.wreck && all[k].1.has_body
                &&& moving[k] && all[k].1.position == at
            },
    decreases n,
{
    if n > 0 {
        every_moving_tank_brushes_the_grass(all, moving, n - 1, at);
        lemma_pushed(brushing(all, moving, n - 1), all[n - 1].1.position, at);
    }
}

/// Every picked place is among the places stirred, and no other.
pub proof fn every_picked_place_is_stirred(
    places: Seq<Point>,
    picks: Seq<bool>,
    n: int,
    at: Point,
)
    requires
        0 <= n <= places.len(),
    ensures
        picked(places, picks, n).contains(at) <==> exists|k: int|
            0 <= k < n && picks[k] && #[trigger] places[k] == at,
    decreases n,
{
    if n > 0 {
        every_picked_place_is_stirred(places, picks, n - 1, at);
        lemma_pushed(picked(places, picks, n - 1), places[n - 1], at);
    }
}

} // verus!
