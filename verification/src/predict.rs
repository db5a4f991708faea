//! What a client may say about its own seat ahead of the server: the hull's
//! pose, a shot it has just fired, a flame it is holding. None of it fires,
//! damages or draws a random number.

use vstd::prelude::*;

use crate::field::{selects, thing, Kind};
use crate::game::Game;
use crate::kinds::{ActiveWeapon, Owner, PlasmaVariant, MAX_SEATS};
use crate::pieces::{ProvisionalKind, Shot, ShotState, Tank};
use crate::scalar::{Point, Scalar};
use crate::views::at_rest;

verus! {

/// A client's own shot before the server has confirmed it: drawn, and never
/// simulated.
#[derive(Clone, Copy, Debug, PartialEq, Eq, Structural)]
pub struct ProvisionalShot {
    pub kind: ProvisionalKind,
    /// The seat that fired it.
    pub seat: u8,
    pub position: Point,
    pub prev_position: Point,
    pub velocity: Point,
    pub rotation: Scalar,
    /// A shell's sprite row; zero for the others.
    pub variant: i32,
    /// A bolt's; teal for the others.
    pub plasma_variant: PlasmaVariant,
    pub shooter_row: i32,
}

/// A seat's muzzle as the host works it out.
#[derive(Clone, Copy, Debug, PartialEq, Eq, Structural)]
pub struct Muzzle {
    pub position: Point,
    pub velocity: Point,
    pub rotation: Scalar,
    pub shell_variant: i32,
    pub plasma_variant: PlasmaVariant,
}

/// A weapon's ammunition; a flamethrower burns fuel instead.
pub open spec fn ammo(tank: Tank, weapon: ActiveWeapon) -> Option<i32> {
    match weapon {
        ActiveWeapon::Shell => Some(tank.shells),
        ActiveWeapon::Laser => Some(tank.laser_charges),
        ActiveWeapon::Minigun => Some(tank.minigun_ammo),
        ActiveWeapon::Plasma => Some(tank.plasma_ammo),
        ActiveWeapon::Missiles => Some(tank.missile_ammo),
        ActiveWeapon::Flamethrower => None,
    }
}

/// A flamethrower's stream.
#[derive(Clone, Copy, Debug, PartialEq, Eq, Structural)]
pub struct FlameJet {
    /// The hull it comes from.
    pub entity: u64,
    pub origin: Point,
    pub dir: Point,
    /// How far it could reach.
    pub range: Scalar,
    /// How far it does reach.
    pub reach: Scalar,
}

/// A hull that streams a flame.
pub open spec fn streams() -> spec_fn(Tank) -> bool {
    |t: Tank| t.flame_held && !t.wreck
}

/// The jets of the first `n` hulls and what stops each, as the host has them.
pub open spec fn jets_read<J: Fn(u64, Tank) -> FlameJet, W: Fn(FlameJet) -> Option<Scalar>>(
    jet: J,
    wall: W,
    hulls: Seq<(u64, Tank)>,
    whole: Seq<FlameJet>,
    stops: Seq<Option<Scalar>>,
    n: int,
) -> bool {
    &&& whole.len() == n
    &&& stops.len() == n
    &&& forall|k: int|
        0 <= k < n ==> {
            &&& call_ensures(jet, (hulls[k].0, hulls[k].1), #[trigger] whole[k])
            &&& call_ensures(wall, (whole[k],), stops[k])
        }
}

/// Each jet, cut where something stops it.
pub open spec fn jets_cut(whole: Seq<FlameJet>, stops: Seq<Option<Scalar>>) -> Seq<FlameJet> {
    Seq::new(
        whole.len(),
        |k: int|
            FlameJet {
                reach: match stops[k] {
                    Some(t) => t,
                    None => whole[k].range,
                },
                ..whole[k]
            },
    )
}

impl Game {
    /// A seat's tank, if it has one.
    pub open spec fn seated_tank(&self, seat: usize) -> Option<Tank> {
        if seat < MAX_SEATS {
            match self.round.seats@[seat as int] {
                Some(entity) => thing::<Tank>(self.field@, entity),
                None => None,
            }
        } else {
            None
        }
    }

    fn tank_of(&self, seat: usize) -> (r: Option<(u64, Tank)>)
        ensures
            match r {
                Some((e, t)) => seat < MAX_SEATS && self.round.seats@[seat as int] == Some(e)
                    && self.seated_tank(seat) == Some(t) && thing::<Tank>(self.field@, e)
                    == Some(t),
                None => self.seated_tank(seat) is None,
            },
    {
        let entity: u64 = match self.seat(seat) {
            Some(e) => e,
            None => return None,
        };
        let tank: Option<Tank> = self.field.get(entity);
        match tank {
            Some(t) => Some((entity, t)),
            None => None,
        }
    }

    /// What a seat's trigger would fire right now, the ammunition behind it,
    /// and how far off the centreline its barrel sits, which `laterals` gives
    /// for each chassis row; none for a wreck or an empty seat.
    pub fn seat_arms(&self, seat: usize, laterals: &Vec<Scalar>) -> (r: Option<
        (ActiveWeapon, Option<i32>, Scalar),
    >)
        requires
            self.seated_tank(seat) matches Some(t) ==> !t.wreck ==> 0 <= t.row < laterals@.len(),
        ensures
            r == (match self.seated_tank(seat) {
                Some(t) => if t.wreck {
                    None
                } else {
                    Some((t.weapon, ammo(t, t.weapon), laterals@[t.row as int]))
                },
                None => None,
            }),
    {
        let t: Tank = match self.tank_of(seat) {
            Some((_, t)) => t,
            None => return None,
        };
        if t.wreck {
            return None;
        }
        let left: Option<i32> = match t.weapon {
            ActiveWeapon::Shell => Some(t.shells),
            ActiveWeapon::Laser => Some(t.laser_charges),
            ActiveWeapon::Minigun => Some(t.minigun_ammo),
            ActiveWeapon::Plasma => Some(t.plasma_ammo),
            ActiveWeapon::Missiles => Some(t.missile_ammo),
            ActiveWeapon::Flamethrower => None,
        };
        Some((t.weapon, left, laterals[t.row as usize]))
    }

    /// A shot as a seat would fire it right now. Nothing is queued for it.
    pub fn seat_shot(&self, seat: usize, kind: ProvisionalKind, muzzle: &Muzzle) -> (r: Option<
        ProvisionalShot,
    >)
        ensures
            r == (match self.seated_tank(seat) {
                Some(t) => Some(
                    ProvisionalShot {
                        kind,
                        seat: seat as u8,
                        position: muzzle.position,
                        prev_position: muzzle.position,
                        velocity: muzzle.velocity,
                        rotation: muzzle.rotation,
                        variant: if kind == ProvisionalKind::Shell {
                            muzzle.shell_variant
                        } else {
                            0
                        },
                        plasma_variant: if kind == ProvisionalKind::Plasma {
                            muzzle.plasma_variant
                        } else {
                            PlasmaVariant::Teal
                        },
                        shooter_row: t.row,
                    },
                ),
                None => None,
            }),
    {
        let t: Tank = match self.tank_of(seat) {
            Some((_, t)) => t,
            None => return None,
        };
        Some(
            ProvisionalShot {
                kind,
                seat: seat as u8,
                position: muzzle.position,
                prev_position: muzzle.position,
                velocity: muzzle.velocity,
                rotation: muzzle.rotation,
                variant: if kind == ProvisionalKind::Shell {
                    muzzle.shell_variant
                } else {
                    0
                },
                plasma_variant: if kind == ProvisionalKind::Plasma {
                    muzzle.plasma_variant
                } else {
                    PlasmaVariant::Teal
                },
                shooter_row: t.row,
            },
        )
    }

    /// Put an unconfirmed shot on the field under a number of its own, for
    /// drawing.
    pub fn add_provisional_shot(&mut self, id: u32, shot: &ProvisionalShot) -> (entity: u64)
        requires
            old(self).wf(),
            old(self).field.has_room(),
        ensures
            final(self).wf(),
            final(self).round == old(self).round,
            final(self).keeps_surroundings(old(self)),
            final(self).events == old(self).events,
            !old(self).field@.contains_key(entity),
            final(self).field@ == old(self).field@.insert(
                entity,
                (Shot {
                    kind: shot.kind,
                    id,
                    owner: Owner::Player(shot.seat),
                    position: shot.position,
                    prev_position: shot.prev_position,
                    velocity: shot.velocity,
                    rotation: shot.rotation,
                    variant: if shot.kind == ProvisionalKind::Shell {
                        shot.variant
                    } else {
                        0
                    },
                    plasma_variant: if shot.kind == ProvisionalKind::Plasma {
                        shot.plasma_variant
                    } else {
                        PlasmaVariant::Teal
                    },
                    shooter_row: shot.shooter_row,
                    state: ShotState::Flying,
                }).as_piece(),
            ),
    {
        self.field.spawn(
            Shot {
                kind: shot.kind,
                id,
                owner: Owner::Player(shot.seat),
                position: shot.position,
                prev_position: shot.prev_position,
                velocity: shot.velocity,
                rotation: shot.rotation,
                variant: if shot.kind == ProvisionalKind::Shell {
                    shot.variant
                } else {
                    0
                },
                plasma_variant: if shot.kind == ProvisionalKind::Plasma {
                    shot.plasma_variant
                } else {
                    PlasmaVariant::Teal
                },
                shooter_row: shot.shooter_row,
                state: ShotState::Flying,
            },
        )
    }

    /// Put a seat's hull where an authority says it is. Only the pose: what
    /// the tank carries stays the server's. A tank without a body has no
    /// velocity to set. An empty seat stays empty.
    pub fn place_seat(&mut self, seat: usize, position: Point, rotation: Scalar, velocity: Point)
        requires
            old(self).wf(),
        ensures
            final(self).wf(),
            final(self).round == old(self).round,
            final(self).keeps_surroundings(old(self)),
            final(self).events == old(self).events,
            match old(self).seated_tank(seat) {
                Some(t) => final(self).field@ == old(self).field@.insert(
                    old(self).round.seats@[seat as int]->0,
                    (Tank {
                        position,
                        rotation,
                        velocity: if t.has_body {
                            velocity
                        } else {
                            t.velocity
                        },
                        ..t
                    }).as_piece(),
                ),
                None => final(self).field@ == old(self).field@,
            },
    {
        if let Some((entity, t)) = self.tank_of(seat) {
            let mut placed: Tank = Tank { position, rotation, ..t };
            if t.has_body {
                placed.velocity = velocity;
            }
            self.field.put(entity, placed);
            proof {
                let seats = self.round.seats@;
                assert forall|i: int| #![trigger seats[i]] 0 <= i < MAX_SEATS implies (
                seats[i] matches Some(e) ==> i < self.round.players.seated() && (thing::<Tank>(
                    self.field@,
                    e,
                ) matches Some(t) && t.owner == Owner::Player(i as u8) && t.mind is None)) by {
                    assert(seats[i] == old(self).round.seats@[i]);
                }
            }
        }
    }

    /// Show a seat's flamethrower streaming: only if the seat is armed with
    /// one and has fuel.
    pub fn hold_flame(&mut self, seat: usize)
        requires
            old(self).wf(),
        ensures
            final(self).wf(),
            final(self).round == old(self).round,
            final(self).keeps_surroundings(old(self)),
            final(self).events == old(self).events,
            match old(self).seated_tank(seat) {
                Some(t) => final(self).field@ == (if !t.wreck && t.weapon
                    == ActiveWeapon::Flamethrower && Scalar::zero().below(t.flame_fuel) {
                    old(self).field@.insert(
                        old(self).round.seats@[seat as int]->0,
                        (Tank { flame_held: true, ..t }).as_piece(),
                    )
                } else {
                    old(self).field@
                }),
                None => final(self).field@ == old(self).field@,
            },
    {
        if let Some((entity, t)) = self.tank_of(seat) {
            if !t.wreck && t.weapon == ActiveWeapon::Flamethrower && t.flame_fuel.positive() {
                self.field.put(entity, Tank { flame_held: true, ..t });
                proof {
                    let seats = self.round.seats@;
                    assert forall|i: int| #![trigger seats[i]] 0 <= i < MAX_SEATS implies (
                    seats[i] matches Some(e) ==> i < self.round.players.seated() && (thing::<Tank>(
                        self.field@,
                        e,
                    ) matches Some(t) && t.owner == Owner::Player(i as u8) && t.mind is None)) by {
                        assert(seats[i] == old(self).round.seats@[i]);
                    }
                }
            }
        }
    }

    /// The hulls that stream a flame right now, for a replica that draws its
    /// jets from the flag.
    pub fn streaming(&self) -> (r: Vec<(u64, Tank)>)
        ensures
            selects::<Tank>(self.field@, streams(), r@),
    {
        let test = |t: Tank| -> (b: bool)
            ensures
                b == (t.flame_held && !t.wreck),
        { t.flame_held && !t.wreck };
        self.field.select(Ghost(streams()), test)
    }

    /// The jets a replica draws from the flag alone: one per streaming hull,
    /// stopped at the first solid tile where `wall` finds one in its way.
    pub fn derive_flame_jets<J: Fn(u64, Tank) -> FlameJet, W: Fn(FlameJet) -> Option<Scalar>>(
        &self,
        jet: &J,
        wall: &W,
    ) -> (jets: Vec<FlameJet>)
        requires
            forall|e: u64, t: Tank| call_requires(*jet, (e, t)),
            forall|j: FlameJet| call_requires(*wall, (j,)),
        ensures
            exists|hulls: Seq<(u64, Tank)>, whole: Seq<FlameJet>, stops: Seq<Option<Scalar>>|
                {
                    &&& selects::<Tank>(self.field@, streams(), hulls)
                    &&& #[trigger] jets_read(*jet, *wall, hulls, whole, stops, hulls.len() as int)
                    &&& jets@ == jets_cut(whole, stops)
                },
    {
        let hulls: Vec<(u64, Tank)> = self.streaming();
        let ghost mut whole: Seq<FlameJet> = Seq::empty();
        let ghost mut stops: Seq<Option<Scalar>> = Seq::empty();
        let mut jets: Vec<FlameJet> = Vec::new();
        let mut n: usize = 0;
        while n < hulls.len()
            invariant
                n <= hulls@.len(),
                forall|e: u64, t: Tank| call_requires(*jet, (e, t)),
                forall|j: FlameJet| call_requires(*wall, (j,)),
                jets_read(*jet, *wall, hulls@, whole, stops, n as int),
                jets@ == jets_cut(whole, stops),
            decreases hulls@.len() - n,
        {
            let (entity, t) = hulls[n];
            let j: FlameJet = jet(entity, t);
            let stop: Option<Scalar> = wall(j);
            let reach: Scalar = match stop {
                Some(t) => t,
                None => j.range,
            };
            jets.push(FlameJet { reach, ..j });
            proof {
                let were = (whole, stops);
                whole = whole.push(j);
                stops = stops.push(stop);
                assert forall|k: int| 0 <= k < n + 1 implies {
                    &&& call_ensures(*jet, (hulls@[k].0, hulls@[k].1), #[trigger] whole[k])
                    &&& call_ensures(*wall, (whole[k],), stops[k])
                } by {
                    if k < n {
                        assert(whole[k] == were.0[k] && stops[k] == were.1[k]);
                    }
                }
                assert(jets@ =~= jets_cut(whole, stops));
            }
            n += 1;
        }
        jets
    }
}

impl Game {
    /// Give a seat's tank its speed boost; nothing happens to an empty seat.
    pub fn give_seat_boost(&mut self, seat: usize, seconds: Scalar)
        requires
            old(self).wf(),
        ensures
            final(self).wf(),
            final(self).round == old(self).round,
            final(self).keeps_surroundings(old(self)),
            final(self).events == old(self).events,
            match old(self).seated_tank(seat) {
                Some(t) => final(self).field@ == old(self).field@.insert(
                    old(self).round.seats@[seat as int]->0,
                    (Tank { speed_boost: seconds, ..t }).as_piece(),
                ),
                None => final(self).field@ == old(self).field@,
            },
    {
        let ghost before = self.field@;
        if let Some((entity, t)) = self.tank_of(seat) {
            self.field.put(entity, Tank { speed_boost: seconds, ..t });
        }
        proof {
            assert(crate::game::keeps_identities(before, self.field@));
            crate::game::lemma_identities(self.round, before, self.field@);
        }
    }

    /// Where a seat's tank is, how it stands and how fast its body goes; a
    /// tank without one stands still.
    pub fn seat_motion(&self, seat: usize) -> (r: Option<(Point, Scalar, Point)>)
        ensures
            r == (match self.seated_tank(seat) {
                Some(t) => Some(
                    (
                        t.position,
                        t.rotation,
                        if t.has_body {
                            t.velocity
                        } else {
                            at_rest()
                        },
                    ),
                ),
                None => None,
            }),
    {
        match self.tank_of(seat) {
            Some((_, t)) => {
                let mut velocity: Point = Point { x: Scalar::zero(), y: Scalar::zero() };
                if t.has_body {
                    velocity = t.velocity;
                }
                Some((t.position, t.rotation, velocity))
            },
            None => None,
        }
    }
}

/// Each weapon fires its own ammunition, and a flamethrower none.
pub proof fn each_weapon_fires_its_own_ammunition(t: Tank)
    ensures
        ammo(t, ActiveWeapon::Shell) == Some(t.shells),
        ammo(t, ActiveWeapon::Laser) == Some(t.laser_charges),
        ammo(t, ActiveWeapon::Minigun) == Some(t.minigun_ammo),
        ammo(t, ActiveWeapon::Plasma) == Some(t.plasma_ammo),
        ammo(t, ActiveWeapon::Missiles) == Some(t.missile_ammo),
        ammo(t, ActiveWeapon::Flamethrower) is None,
        streams()(t) <==> t.flame_held && !t.wreck,
{
}

/// A seat's tank is the one on the field under the seat, and an empty seat or
/// one past the last has none.
pub proof fn a_seats_tank_is_on_the_field(game: &Game, seat: usize, e: u64)
    ensures
        seat >= 8 ==> game.seated_tank(seat) is None,
        seat < 8 && game.round.seats@[seat as int] is None ==> game.seated_tank(seat) is None,
        seat < 8 && game.round.seats@[seat as int] == Some(e) && game.field@.contains_key(e)
            && game.field@[e] is Tank ==> game.seated_tank(seat) == Some(game.field@[e]->Tank_0),
{
    if game.field@.contains_key(e) && game.field@[e] is Tank {
        assert(thing::<Tank>(game.field@, e) == Some(game.field@[e]->Tank_0));
    }
}

/// A jet reaches as far as what stops it, and its whole range where nothing
/// does; it comes from the same hull either way.
pub proof fn a_jet_reaches_what_stops_it(
    whole: Seq<FlameJet>,
    stops: Seq<Option<Scalar>>,
    k: int,
)
    requires
        0 <= k < whole.len(),
    ensures
        jets_cut(whole, stops).len() == whole.len(),
        ({
            let j = jets_cut(whole, stops)[k];
            &&& stops[k] matches Some(at) ==> j.reach == at
            &&& stops[k] is None ==> j.reach == whole[k].range
            &&& j.entity == whole[k].entity && j.origin == whole[k].origin
            &&& j.dir == whole[k].dir && j.range == whole[k].range
        }),
{
}

} // verus!
