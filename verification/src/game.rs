//! A round: what it holds, how it starts, how a frame runs and how it ends.
//!
//! The host drives the round. Each frame it hands the input to
//! [`Game::update`], which says what kind of frame this is; runs that frame's
//! [`phases`] in order, measuring and integrating between the decisions; and
//! closes it with [`Game::finish_frame`].

use rand::rngs::SmallRng;
use vstd::prelude::*;

use crate::chassis::{TankKind, TANK_VARIANTS};
use crate::command::Commander;
use crate::dice::{choose_seed, round_stream};
use crate::effects::{Banner, Cookoff, ScreenFlash, Shockwave, TrackMark};
use crate::enemies::{slots_valid, Alert};
use crate::engage::{EngageReport, EngageRing, EngageSlot, EngageTank};
use crate::event::{Event, Outcome, SpawnKind};
use crate::field::{no_pieces, thing, Field, Kind};
use crate::flame::{seated, Hot};
use crate::frogs::new_frog;
use crate::input::{Input, PlayerCount};
use crate::kit::Kit;
use crate::kinds::{Cell, Mission, Owner, PickupKind, Side, SpawnPlan, MAX_SEATS};
use crate::overlays::Overlays;
use crate::pieces::{Frog, Pickup, Piece, Tank};
use crate::props::{FlyingDrum, GroundFire};
use crate::scalar::{Point, Scalar};

verus! {

/// A round's plain state.
#[derive(Clone, Copy, Debug)]
pub struct Round {
    pub outcome: Outcome,
    pub paused: bool,
    /// Drop shadows; survives restarts.
    pub shadows_enabled: bool,
    /// Debug overlays; survive restarts.
    pub debug_overlays: Overlays,
    /// Frames so far this round, paused ones counted.
    pub frame: u64,
    pub round_seed: u64,
    /// Projectiles spawned so far this round.
    pub next_shot_id: u32,
    pub mission: Mission,
    pub spawn_plan: SpawnPlan,
    /// Enemies the band placed at the start. None is a sandbox, which wrecking
    /// alone never wins.
    pub band_enemy_count: usize,
    /// Seconds until the automatic restart once the round has ended.
    pub restart_timer: Scalar,
    pub banner: Banner,
    pub flash: ScreenFlash,
    pub alert: Alert,
    pub pickup_respawn_timer: Scalar,
    /// Seats this round holds; survives restarts.
    pub players: PlayerCount,
    /// One tank per seat, by owner slot.
    pub seats: [Option<u64>; 8],
    /// Last frame's fire key, per seat.
    pub fire_held: [bool; 8],
    /// The players' frog.
    pub frog: Option<u64>,
    /// The enemies' frog.
    pub enemy_frog: Option<u64>,
}

/// The enemy pack's memory.
pub struct Pack {
    /// One engagement ring per seat.
    pub rings: Vec<EngageRing>,
    /// The ring around the players' frog.
    pub frog_ring: EngageRing,
    /// What the last assignment decided.
    pub report: EngageReport,
    pub commander: Commander,
}

impl Pack {
    /// Eight good rings, a good commander, and a report of slots that exist.
    pub open spec fn wf(&self) -> bool {
        &&& slots_valid(self.report.tanks@)
        &&& self.rings@.len() == MAX_SEATS
        &&& forall|i: int| 0 <= i < MAX_SEATS ==> (#[trigger] self.rings@[i]).wf()
        &&& self.frog_ring.wf()
        &&& self.commander.wf()
    }

    /// Remembers nothing.
    pub open spec fn fresh(&self) -> bool {
        &&& self.rings@.len() == MAX_SEATS
        &&& forall|i: int|
            0 <= i < MAX_SEATS ==> (#[trigger] self.rings@[i]).held() == Map::<
                u64,
                EngageSlot,
            >::empty()
        &&& self.frog_ring.held() == Map::<u64, EngageSlot>::empty()
        &&& !self.report.built
        &&& self.report.tanks@ == Seq::<EngageTank>::empty()
        &&& self.commander.fresh()
    }

    fn new() -> (pack: Pack)
        ensures
            pack.wf(),
            pack.fresh(),
    {
        let mut rings: Vec<EngageRing> = Vec::new();
        while rings.len() < MAX_SEATS
            invariant
                rings@.len() <= MAX_SEATS,
                forall|i: int|
                    0 <= i < rings@.len() ==> (#[trigger] rings@[i]).wf() && rings@[i].held()
                        == Map::<u64, EngageSlot>::empty(),
            decreases MAX_SEATS - rings@.len(),
        {
            rings.push(EngageRing::default());
        }
        Pack {
            rings,
            frog_ring: EngageRing::default(),
            report: EngageReport::default(),
            commander: Commander::default(),
        }
    }
}

/// The state of the ground.
pub struct Ground {
    /// Cells on fire.
    pub fires: Vec<GroundFire>,
    /// Oil-trail cells that have not burnt.
    pub oil: Vec<Cell>,
    /// Cells a flame has warmed.
    pub heat: Vec<Hot>,
    /// Whom a flame touched last frame.
    pub flame_contacts: Vec<u64>,
    /// Drums in the air.
    pub drums: Vec<FlyingDrum>,
    pub portals: Vec<Point>,
    /// Cells of tall grass that still stands.
    pub grass: Vec<Cell>,
}

impl Ground {
    /// Bare ground.
    pub open spec fn bare(&self) -> bool {
        &&& self.fires@ == Seq::<GroundFire>::empty()
        &&& self.oil@ == Seq::<Cell>::empty()
        &&& self.heat@ == Seq::<Hot>::empty()
        &&& self.flame_contacts@ == Seq::<u64>::empty()
        &&& self.drums@ == Seq::<FlyingDrum>::empty()
        &&& self.portals@ == Seq::<Point>::empty()
        &&& self.grass@ == Seq::<Cell>::empty()
    }

    fn new() -> (ground: Ground)
        ensures
            ground.bare(),
    {
        Ground {
            fires: Vec::new(),
            oil: Vec::new(),
            heat: Vec::new(),
            flame_contacts: Vec::new(),
            drums: Vec::new(),
            portals: Vec::new(),
            grass: Vec::new(),
        }
    }
}

/// A burn mark or a piece of rubble on the ground.
#[derive(Clone, Copy, Debug, PartialEq, Eq, Structural)]
pub struct Mark {
    pub at: Point,
    /// Which of the host's sprites it is.
    pub sprite: i32,
}

/// What is on the screen and decides nothing.
pub struct Show {
    pub shocks: Vec<Shockwave>,
    pub muzzle_flashes: Vec<Shockwave>,
    pub impact_flashes: Vec<Shockwave>,
    pub scorches: Vec<Mark>,
    pub decals: Vec<Mark>,
    pub tracks: Vec<TrackMark>,
    pub cookoffs: Vec<Cookoff>,
}

impl Show {
    /// An empty screen.
    pub open spec fn blank(&self) -> bool {
        &&& self.shocks@ == Seq::<Shockwave>::empty()
        &&& self.muzzle_flashes@ == Seq::<Shockwave>::empty()
        &&& self.impact_flashes@ == Seq::<Shockwave>::empty()
        &&& self.scorches@ == Seq::<Mark>::empty()
        &&& self.decals@ == Seq::<Mark>::empty()
        &&& self.tracks@ == Seq::<TrackMark>::empty()
        &&& self.cookoffs@ == Seq::<Cookoff>::empty()
    }

    fn new() -> (show: Show)
        ensures
            show.blank(),
    {
        Show {
            shocks: Vec::new(),
            muzzle_flashes: Vec::new(),
            impact_flashes: Vec::new(),
            scorches: Vec::new(),
            decals: Vec::new(),
            tracks: Vec::new(),
            cookoffs: Vec::new(),
        }
    }
}

/// A round and everything in it.
pub struct Game {
    pub round: Round,
    pub field: Field,
    pub pack: Pack,
    pub ground: Ground,
    pub show: Show,
    /// What happened during the most recent frame.
    pub events: Vec<Event>,
    /// Slots asked to die at the top of the next playing frame.
    pub debug_kills: Vec<usize>,
}

/// Every seat's tank is on the field under that seat's name, with no mind of
/// its own, and no seat past the round's holds one.
pub open spec fn seats_hold(seats: Seq<Option<u64>>, count: int, pieces: Map<u64, Piece>) -> bool {
    forall|i: int|
        #![trigger seats[i]]
        0 <= i < MAX_SEATS ==> (seats[i] matches Some(entity) ==> i < count && (thing::<Tank>(
            pieces,
            entity,
        ) matches Some(t) && t.owner == Owner::Player(i as u8) && t.mind is None))
}

/// A side's frog is on the field and is that side's.
pub open spec fn frog_holds(frog: Option<u64>, side: Side, pieces: Map<u64, Piece>) -> bool {
    frog matches Some(entity) ==> (thing::<Frog>(pieces, entity) matches Some(f) && f.side == side)
}

/// Every tank is still a tank of the same owner and none has grown a mind, and
/// every frog is still a frog of its side.
pub open spec fn keeps_identities(before: Map<u64, Piece>, after: Map<u64, Piece>) -> bool {
    &&& forall|id: u64|
        (#[trigger] thing::<Tank>(before, id)) matches Some(t) ==> (thing::<Tank>(
            after,
            id,
        ) matches Some(a) && a.owner == t.owner && (t.mind is None ==> a.mind is None))
    &&& forall|id: u64|
        (#[trigger] thing::<Frog>(before, id)) matches Some(g) ==> (thing::<Frog>(
            after,
            id,
        ) matches Some(a) && a.side == g.side)
}

/// Seats and frogs stay good as long as identities are kept.
pub(crate) proof fn lemma_identities(round: Round, before: Map<u64, Piece>, after: Map<u64, Piece>)
    requires
        keeps_identities(before, after),
        seats_hold(round.seats@, round.players.seated(), before),
        frog_holds(round.frog, Side::Player, before),
        frog_holds(round.enemy_frog, Side::Enemy, before),
    ensures
        seats_hold(round.seats@, round.players.seated(), after),
        frog_holds(round.frog, Side::Player, after),
        frog_holds(round.enemy_frog, Side::Enemy, after),
{
    let seats = round.seats@;
    assert forall|i: int| #![trigger seats[i]] 0 <= i < MAX_SEATS implies (
    seats[i] matches Some(e) ==> i < round.players.seated() && (thing::<Tank>(
        after,
        e,
    ) matches Some(t) && t.owner == Owner::Player(i as u8) && t.mind is None)) by {
        if let Some(e) = seats[i] {
            assert(thing::<Tank>(before, e) is Some);
        }
    }
    if let Some(e) = round.frog {
        assert(thing::<Frog>(before, e) is Some);
    }
    if let Some(e) = round.enemy_frog {
        assert(thing::<Frog>(before, e) is Some);
    }
}

impl Game {
    /// The round's own things are where it says they are.
    pub open spec fn wf(&self) -> bool {
        &&& self.field.wf()
        &&& seats_hold(self.round.seats@, self.round.players.seated(), self.field@)
        &&& frog_holds(self.round.frog, Side::Player, self.field@)
        &&& frog_holds(self.round.enemy_frog, Side::Enemy, self.field@)
        &&& self.pack.wf()
    }

    /// Everything but the plain state, the field and the record is as it was.
    pub open spec fn keeps_surroundings(&self, before: &Game) -> bool {
        self.pack == before.pack && self.ground == before.ground && self.show == before.show
            && self.debug_kills == before.debug_kills
    }

    /// No seat holds a tank.
    pub open spec fn no_seats(&self) -> bool {
        forall|i: int| 0 <= i < MAX_SEATS ==> #[trigger] self.round.seats@[i] is None
    }

    /// No fire key was held.
    pub open spec fn no_keys(&self) -> bool {
        forall|i: int| 0 <= i < MAX_SEATS ==> !(#[trigger] self.round.fire_held@[i])
    }

    /// A game with no round in it yet.
    pub fn new(players: PlayerCount) -> (game: Game)
        ensures
            game.wf(),
            game.round.players == players,
            game.no_seats(),
            game.no_keys(),
            game.field@ == no_pieces(),
            game.pack.fresh(),
            game.ground.bare(),
            game.show.blank(),
            game.events@ == Seq::<Event>::empty(),
            game.debug_kills@ == Seq::<usize>::empty(),
            game.round.frame == 0,
            game.round.next_shot_id == 0,
            game.round.outcome == Outcome::Playing,
            !game.round.paused,
            !game.round.shadows_enabled,
            game.round.debug_overlays == Overlays::none(),
            game.round.frog is None,
            game.round.enemy_frog is None,
            game.round.mission == Mission::Protect,
    {
        let zero: Scalar = Scalar::zero();
        let round = Round {
            outcome: Outcome::Playing,
            paused: false,
            shadows_enabled: false,
            debug_overlays: Overlays::none(),
            frame: 0,
            round_seed: 0,
            next_shot_id: 0,
            mission: Mission::Protect,
            spawn_plan: SpawnPlan::Band { count: None },
            band_enemy_count: 0,
            restart_timer: zero,
            banner: Banner { timer: zero, fade: zero },
            flash: ScreenFlash::idle(),
            alert: Alert { position: None, timer: zero },
            pickup_respawn_timer: zero,
            players,
            seats: [None, None, None, None, None, None, None, None],
            fire_held: [false, false, false, false, false, false, false, false],
            frog: None,
            enemy_frog: None,
        };
        Game {
            round,
            field: Field::new(),
            pack: Pack::new(),
            ground: Ground::new(),
            show: Show::new(),
            events: Vec::new(),
            debug_kills: Vec::new(),
        }
    }
}

/// What a round is set up from.
#[derive(Clone, Copy, Debug, PartialEq, Eq, Structural)]
pub struct Setup {
    /// The seed to replay, if one is pinned.
    pub seed: Option<u64>,
    pub mission: Mission,
    pub spawn_plan: SpawnPlan,
    /// Seconds of opening banner, when the round is to open behind one.
    pub intro: Option<Scalar>,
    pub pickup_respawn_seconds: Scalar,
    /// The chassis rows the command line asks for, for the first two seats.
    pub player_row: Option<i32>,
    pub player2_row: Option<i32>,
    /// The knob that pins the first seat's row; below zero it is not set.
    pub row_knob: i32,
    /// The chassis the map asks for, for the first two seats.
    pub map_tank: Option<TankKind>,
    pub map_tank2: Option<TankKind>,
    /// How many enemies the map asks for.
    pub map_tanks: Option<usize>,
    /// The range a roll of how many enemies there are is made in.
    pub fewest_enemies: usize,
    pub most_enemies: usize,
    /// How far what is put down starts from a seat, and from an enemy.
    pub seat_spacing: Scalar,
    pub enemy_spacing: Scalar,
    /// How far the enemies' frog starts from the players'.
    pub frog_spacing: Scalar,
    /// Some of the enemies are hunters.
    pub hunter_share: bool,
    /// What a tank may start with.
    pub kit: Kit,
}

impl Game {
    /// Clear the board for a fresh round and start its stream of random
    /// numbers: a pinned seed is used as it is, any other is drawn. What was
    /// recorded before stays readable, as do the settings that survive a
    /// restart.
    pub fn clear_board(&mut self, setup: &Setup) -> (rng: SmallRng)
        ensures
            final(self).wf(),
            final(self).field@ == no_pieces(),
            final(self).no_seats(),
            final(self).no_keys(),
            final(self).pack.fresh(),
            final(self).ground.bare(),
            final(self).show.blank(),
            final(self).debug_kills@ == Seq::<usize>::empty(),
            final(self).events@ == old(self).events@,
            setup.seed matches Some(seed) ==> final(self).round.round_seed == seed,
            final(self).round == (Round {
                outcome: Outcome::Playing,
                paused: false,
                frame: 0,
                round_seed: final(self).round.round_seed,
                next_shot_id: 0,
                mission: setup.mission,
                spawn_plan: setup.spawn_plan,
                band_enemy_count: 0,
                restart_timer: Scalar::zero(),
                banner: Banner {
                    timer: match setup.intro {
                        Some(seconds) => seconds,
                        None => Scalar::zero(),
                    },
                    fade: Scalar::zero(),
                },
                flash: ScreenFlash::idle(),
                alert: Alert { position: None, timer: Scalar::zero() },
                pickup_respawn_timer: setup.pickup_respawn_seconds,
                seats: final(self).round.seats,
                fire_held: final(self).round.fire_held,
                frog: None,
                enemy_frog: None,
                ..old(self).round
            }),
    {
        let seed: u64 = choose_seed(setup.seed);
        let zero: Scalar = Scalar::zero();
        let before: Round = self.round;
        self.round =
        Round {
            outcome: Outcome::Playing,
            paused: false,
            frame: 0,
            round_seed: seed,
            next_shot_id: 0,
            mission: setup.mission,
            spawn_plan: setup.spawn_plan,
            band_enemy_count: 0,
            restart_timer: zero,
            banner: Banner {
                timer: match setup.intro {
                    Some(seconds) => seconds,
                    None => zero,
                },
                fade: zero,
            },
            flash: ScreenFlash::idle(),
            alert: Alert { position: None, timer: zero },
            pickup_respawn_timer: setup.pickup_respawn_seconds,
            seats: [None, None, None, None, None, None, None, None],
            fire_held: [false, false, false, false, false, false, false, false],
            frog: None,
            enemy_frog: None,
            ..before
        };
        self.field = Field::new();
        self.pack = Pack::new();
        self.ground = Ground::new();
        self.show = Show::new();
        self.debug_kills = Vec::new();
        round_stream(seed)
    }

    /// Put a seat's tank down.
    pub fn seat_tank(&mut self, seat: usize, tank: Tank) -> (entity: u64)
        requires
            old(self).wf(),
            old(self).field.has_room(),
            seat < old(self).round.players.seated() <= MAX_SEATS,
        ensures
            final(self).wf(),
            final(self).keeps_surroundings(old(self)),
            final(self).events == old(self).events,
            !old(self).field@.contains_key(entity),
            final(self).field@ == old(self).field@.insert(
                entity,
                (Tank { owner: Owner::Player(seat as u8), mind: None, ..tank }).as_piece(),
            ),
            final(self).round.seats@ == old(self).round.seats@.update(seat as int, Some(entity)),
            final(self).round == (Round { seats: final(self).round.seats, ..old(self).round }),
    {
        let tank = Tank { owner: Owner::Player(seat as u8), mind: None, ..tank };
        let ghost before = self.field@;
        let entity: u64 = self.field.spawn(tank);
        self.round.seats[seat] = Some(entity);
        proof {
            let seats = self.round.seats@;
            assert forall|i: int| #![trigger seats[i]] 0 <= i < MAX_SEATS implies (
            seats[i] matches Some(e) ==> i < self.round.players.seated() && (thing::<Tank>(
                self.field@,
                e,
            ) matches Some(t) && t.owner == Owner::Player(i as u8) && t.mind is None)) by {
                if i != seat {
                    assert(seats[i] == old(self).round.seats@[i]);
                }
            }
        }
        entity
    }

    /// Put one of the enemies down.
    pub fn place_enemy(&mut self, slot: usize, tank: Tank) -> (entity: u64)
        requires
            old(self).wf(),
            old(self).field.has_room(),
            tank.mind is Some,
        ensures
            final(self).wf(),
            final(self).keeps_surroundings(old(self)),
            final(self).events == old(self).events,
            final(self).round == old(self).round,
            !old(self).field@.contains_key(entity),
            final(self).field@ == old(self).field@.insert(
                entity,
                (Tank { owner: Owner::Enemy(slot), ..tank }).as_piece(),
            ),
    {
        self.field.spawn(Tank { owner: Owner::Enemy(slot), ..tank })
    }

    /// Put a side's frog down where the mission has one; the other missions
    /// go without.
    pub fn spawn_frog(&mut self, side: Side, at: Point, variant: i32, health: Scalar) -> (entity:
        Option<u64>)
        requires
            old(self).wf(),
            old(self).field.has_room(),
        ensures
            final(self).wf(),
            final(self).keeps_surroundings(old(self)),
            final(self).events == old(self).events,
            entity is Some == (match side {
                Side::Player => old(self).round.mission.has_player_frog(),
                Side::Enemy => old(self).round.mission.has_enemy_frog(),
            }),
            entity is None ==> final(self).field@ == old(self).field@ && final(self).round == old(
                self,
            ).round,
            entity matches Some(e) ==> {
                &&& !old(self).field@.contains_key(e)
                &&& final(self).field@ == old(self).field@.insert(
                    e,
                    (Frog {
                        side,
                        position: at,
                        health,
                        max_health: health,
                        variant,
                        dead: false,
                        can_attack: true,
                        can_hop: true,
                    }).as_piece(),
                )
                &&& final(self).round == (match side {
                    Side::Player => Round { frog: entity, ..old(self).round },
                    Side::Enemy => Round { enemy_frog: entity, ..old(self).round },
                })
            },
    {
        let wanted: bool = match side {
            Side::Player => self.round.mission.has_player_frog(),
            Side::Enemy => self.round.mission.has_enemy_frog(),
        };
        if !wanted {
            return None;
        }
        let e: u64 = self.field.spawn(new_frog(side, at, variant, health));
        match side {
            Side::Player => {
                self.round.frog = Some(e);
            },
            Side::Enemy => {
                self.round.enemy_frog = Some(e);
            },
        }
        proof {
            let seats = self.round.seats@;
            assert(seats == old(self).round.seats@);
        }
        Some(e)
    }

    /// Lay a pickup on the field.
    pub fn spawn_pickup_at(&mut self, position: Point, kind: PickupKind) -> (entity: u64)
        requires
            old(self).wf(),
            old(self).field.has_room(),
        ensures
            final(self).wf(),
            final(self).keeps_surroundings(old(self)),
            final(self).events == old(self).events,
            final(self).round == old(self).round,
            !old(self).field@.contains_key(entity),
            final(self).field@ == old(self).field@.insert(
                entity,
                (Pickup { kind, position }).as_piece(),
            ),
    {
        self.field.spawn(Pickup { kind, position })
    }

    /// The round is laid out: announce it, with how many enemies the band
    /// placed.
    pub fn begin_round(&mut self, enemies: usize)
        ensures
            final(self).keeps_surroundings(old(self)),
            final(self).field == old(self).field,
            final(self).round == (Round { band_enemy_count: enemies, ..old(self).round }),
            final(self).events@ == old(self).events@.push(
                Event::RoundStarted {
                    seed: old(self).round.round_seed,
                    enemies,
                    mission: old(self).round.mission,
                    spawn: match old(self).round.spawn_plan {
                        SpawnPlan::Band { .. } => SpawnKind::Band,
                        SpawnPlan::Waves => SpawnKind::Waves,
                    },
                },
            ),
    {
        self.round.band_enemy_count = enemies;
        let spawn: SpawnKind = match self.round.spawn_plan {
            SpawnPlan::Band { .. } => SpawnKind::Band,
            SpawnPlan::Waves => SpawnKind::Waves,
        };
        self.events.push(
            Event::RoundStarted {
                seed: self.round.round_seed,
                enemies,
                mission: self.round.mission,
                spawn,
            },
        );
    }
}

/// A seat as the fight sees it: one driving back in through a gate stands
/// outside the field and takes no part.
pub open spec fn on_field(seat: Option<u64>, pieces: Map<u64, Piece>) -> Option<u64> {
    match seat {
        Some(entity) => match thing::<Tank>(pieces, entity) {
            Some(t) => if t.rolling_in {
                None
            } else {
                seat
            },
            None => seat,
        },
        None => None,
    }
}

impl Game {
    /// The seats in owner-slot order, empty ones as none. Everything that
    /// treats players before enemies walks this.
    pub fn players(&self) -> (seats: [Option<u64>; 8])
        ensures
            seats == self.round.seats,
    {
        self.round.seats
    }

    /// Player one's tank.
    pub fn player(&self) -> (entity: Option<u64>)
        ensures
            entity == self.round.seats@[0],
    {
        self.round.seats[0]
    }

    /// A seat's tank, none past the seats there are.
    pub fn seat(&self, index: usize) -> (entity: Option<u64>)
        ensures
            entity == (if index < MAX_SEATS {
                self.round.seats@[index as int]
            } else {
                None
            }),
    {
        if index < MAX_SEATS {
            self.round.seats[index]
        } else {
            None
        }
    }

    /// The seats whose tank stands on the battlefield.
    pub fn seats_on_field(&self) -> (seats: [Option<u64>; 8])
        ensures
            forall|i: int|
                0 <= i < MAX_SEATS ==> #[trigger] seats@[i] == on_field(
                    self.round.seats@[i],
                    self.field@,
                ),
    {
        let mut seats: [Option<u64>; 8] = self.round.seats;
        let mut i: usize = 0;
        while i < MAX_SEATS
            invariant
                i <= MAX_SEATS,
                forall|k: int|
                    0 <= k < i ==> #[trigger] seats@[k] == on_field(
                        self.round.seats@[k],
                        self.field@,
                    ),
                forall|k: int| i <= k < MAX_SEATS ==> #[trigger] seats@[k] == self.round.seats@[k],
            decreases MAX_SEATS - i,
        {
            if let Some(entity) = seats[i] {
                let tank: Option<Tank> = self.field.get(entity);
                if let Some(t) = tank {
                    if t.rolling_in {
                        seats[i] = None;
                    }
                }
            }
            i += 1;
        }
        seats
    }

    /// Which seat an entity sits in, none for anything else.
    pub fn player_index(&self, entity: u64) -> (seat: Option<u8>)
        ensures
            match seat {
                Some(i) => i < MAX_SEATS && self.round.seats@[i as int] == Some(entity)
                    && forall|k: int|
                    0 <= k < i ==> #[trigger] self.round.seats@[k] != Some(entity),
                None => !self.seats_somebody(entity),
            },
    {
        let mut i: usize = 0;
        while i < MAX_SEATS
            invariant
                i <= MAX_SEATS,
                forall|k: int| 0 <= k < i ==> #[trigger] self.round.seats@[k] != Some(entity),
            decreases MAX_SEATS - i,
        {
            if let Some(e) = self.round.seats[i] {
                if e == entity {
                    return Some(i as u8);
                }
            }
            i += 1;
        }
        None
    }

    /// An entity is some seat's tank.
    pub open spec fn seats_somebody(&self, entity: u64) -> bool {
        exists|i: int| 0 <= i < MAX_SEATS && #[trigger] self.round.seats@[i] == Some(entity)
    }

    /// True for any seat's tank.
    pub fn is_player(&self, entity: u64) -> (r: bool)
        ensures
            r == self.seats_somebody(entity),
    {
        self.player_index(entity).is_some()
    }

    /// The first owner slot an enemy can take: the seats sit below it.
    pub fn first_enemy_slot(&self) -> (slot: usize)
        ensures
            slot == self.round.players.seated(),
            1 <= slot <= MAX_SEATS,
    {
        self.round.players.count()
    }

    /// The chassis a seat is driving; none for an empty seat.
    pub open spec fn chassis_at(&self, seat: Option<u64>) -> Option<TankKind> {
        match seat {
            Some(entity) => match thing::<Tank>(self.field@, entity) {
                Some(t) => if 0 <= t.row < TANK_VARIANTS {
                    Some(TankKind { row: t.row })
                } else {
                    None
                },
                None => None,
            },
            None => None,
        }
    }

    fn chassis_of(&self, seat: Option<u64>) -> (kind: Option<TankKind>)
        ensures
            kind == self.chassis_at(seat),
    {
        let entity: u64 = match seat {
            Some(e) => e,
            None => return None,
        };
        let tank: Option<Tank> = self.field.get(entity);
        match tank {
            Some(t) => if 0 <= t.row && t.row < TANK_VARIANTS {
                Some(TankKind { row: t.row })
            } else {
                None
            },
            None => None,
        }
    }

    /// The chassis player one is driving.
    pub fn player_chassis(&self) -> (kind: Option<TankKind>)
        ensures
            kind == self.chassis_at(self.round.seats@[0]),
    {
        self.chassis_of(self.player())
    }

    /// The chassis player two is driving; none in a single-player round.
    pub fn player2_chassis(&self) -> (kind: Option<TankKind>)
        ensures
            kind == self.chassis_at(self.round.seats@[1]),
    {
        self.chassis_of(self.seat(1))
    }

    /// The seed this round runs with.
    pub fn round_seed(&self) -> (seed: u64)
        ensures
            seed == self.round.round_seed,
    {
        self.round.round_seed
    }

    pub fn outcome(&self) -> (outcome: Outcome)
        ensures
            outcome == self.round.outcome,
    {
        self.round.outcome
    }

    /// Frames so far this round.
    pub fn frame(&self) -> (frame: u64)
        ensures
            frame == self.round.frame,
    {
        self.round.frame
    }

    /// Everything the most recent frame recorded.
    pub fn events(&self) -> (events: &Vec<Event>)
        ensures
            *events == self.events,
    {
        &self.events
    }

    /// The map's portals, active or not.
    pub fn portals(&self) -> (portals: &Vec<Point>)
        ensures
            *portals == self.ground.portals,
    {
        &self.ground.portals
    }

    /// Whether the portal network does anything.
    pub fn portals_active(&self) -> (r: bool)
        ensures
            r == (self.ground.portals@.len() >= 2),
    {
        crate::portals::portals_active(self.ground.portals.len())
    }
}

/// Two seats never share a tank.
pub proof fn seats_are_distinct(game: &Game, a: int, b: int)
    requires
        game.wf(),
        0 <= a < MAX_SEATS,
        0 <= b < MAX_SEATS,
        game.round.seats@[a] is Some,
        game.round.seats@[a] == game.round.seats@[b],
    ensures
        a == b,
{
}

/// What kind of frame this is.
#[derive(Clone, Copy, Debug, PartialEq, Eq, Structural)]
pub enum Step {
    /// A new round starts now.
    Restart,
    /// Nothing moves.
    Paused,
    /// The world waits behind the mission banner, which a seat that moves or
    /// fires ends at once. Only effects animate.
    Intro { skip: bool },
    /// The round plays.
    Play,
    /// The round is over and only animates while the restart counts down.
    Over,
}

/// The plain state once a frame's keys have been read.
pub open spec fn keyed(round: Round, input: Input) -> Round {
    Round {
        frame: (round.frame + 1) as u64,
        paused: round.paused != input.pause_pressed,
        shadows_enabled: round.shadows_enabled != input.toggle_shadows_pressed,
        debug_overlays: if input.cycle_overlays_pressed {
            round.debug_overlays.stepped()
        } else {
            round.debug_overlays
        },
        ..round
    }
}

/// What kind of frame follows from the keys and the round's state.
pub open spec fn step_of(round: Round, input: Input) -> Step {
    if input.restart_pressed {
        Step::Restart
    } else if round.paused {
        Step::Paused
    } else if round.banner.frozen() {
        Step::Intro { skip: input.stirs(round.players.seated()) }
    } else if round.outcome == Outcome::Playing {
        Step::Play
    } else {
        Step::Over
    }
}

impl Game {
    /// Open a frame: count it, forget what the last one recorded, read the
    /// keys and say what kind of frame it is. A restart is allowed at any
    /// time, paused or on the end screen too.
    pub fn update(&mut self, input: Input) -> (step: Step)
        requires
            old(self).round.frame < u64::MAX,
        ensures
            final(self).keeps_surroundings(old(self)),
            final(self).field == old(self).field,
            final(self).events@ == Seq::<Event>::empty(),
            final(self).round == keyed(old(self).round, input),
            step == step_of(final(self).round, input),
    {
        self.round.frame = self.round.frame + 1;
        self.events.clear();
        if input.pause_pressed {
            self.round.paused = !self.round.paused;
        }
        if input.toggle_shadows_pressed {
            self.round.shadows_enabled = !self.round.shadows_enabled;
        }
        if input.cycle_overlays_pressed {
            self.round.debug_overlays = self.round.debug_overlays.next_preset();
        }
        if input.restart_pressed {
            return Step::Restart;
        }
        if self.round.paused {
            return Step::Paused;
        }
        if self.round.banner.is_up() {
            let n: usize = self.round.players.count();
            return Step::Intro { skip: input.skips_intro(n) };
        }
        match self.round.outcome {
            Outcome::Playing => Step::Play,
            _ => Step::Over,
        }
    }
}

/// One phase of a frame.
#[derive(Clone, Copy, Debug, PartialEq, Eq, Structural)]
pub enum Phase {
    DebugKills,
    DebugDetonations,
    Frogs,
    Pickups,
    Portals,
    Players,
    RollIn,
    Enemies,
    Waves,
    SpawnPending,
    GuideMissiles,
    Lasers,
    Flames,
    StepWorld,
    SyncAndRam,
    RamProps,
    ShellVsShell,
    Shells,
    Bullets,
    Plasmas,
    Missiles,
    Cookoffs,
    Burns,
    Fires,
    Fuses,
    Launches,
    Grass,
    ShieldBreaks,
    Explosions,
    DespawnWrecks,
    Cleanup,
    RoundEnd,
    RestartCountdown,
}

/// A playing frame's phases, in order.
pub open spec fn live_phases() -> Seq<Phase> {
    seq![
        Phase::DebugKills,
        Phase::DebugDetonations,
        Phase::Frogs,
        Phase::Pickups,
        Phase::Portals,
        Phase::Players,
        Phase::RollIn,
        Phase::Enemies,
        Phase::Waves,
        Phase::SpawnPending,
        Phase::GuideMissiles,
        Phase::Lasers,
        Phase::Flames,
        Phase::StepWorld,
        Phase::SyncAndRam,
        Phase::RamProps,
        Phase::ShellVsShell,
        Phase::Shells,
        Phase::Bullets,
        Phase::Plasmas,
        Phase::Missiles,
        Phase::Cookoffs,
        Phase::Burns,
        Phase::Fires,
        Phase::Fuses,
        Phase::Launches,
        Phase::Grass,
        Phase::ShieldBreaks,
        Phase::Explosions,
        Phase::DespawnWrecks,
        Phase::Cleanup,
        Phase::RoundEnd,
    ]
}

/// An end-screen frame's phases, in order.
pub open spec fn over_phases() -> Seq<Phase> {
    seq![
        Phase::GuideMissiles,
        Phase::StepWorld,
        Phase::Shells,
        Phase::Bullets,
        Phase::Plasmas,
        Phase::Missiles,
        Phase::Cookoffs,
        Phase::Burns,
        Phase::Fires,
        Phase::Fuses,
        Phase::Launches,
        Phase::Grass,
        Phase::Explosions,
        Phase::Cleanup,
        Phase::RestartCountdown,
    ]
}

/// The phases of a frame, in the order they run. A frame that neither plays
/// nor animates the end screen has none.
pub fn phases(step: Step) -> (order: Vec<Phase>)
    ensures
        order@ == (match step {
            Step::Play => live_phases(),
            Step::Over => over_phases(),
            _ => Seq::empty(),
        }),
{
    match step {
        Step::Play => {
            let order: Vec<Phase> = vec![
                Phase::DebugKills,
                Phase::DebugDetonations,
                Phase::Frogs,
                Phase::Pickups,
                Phase::Portals,
                Phase::Players,
                Phase::RollIn,
                Phase::Enemies,
                Phase::Waves,
                Phase::SpawnPending,
                Phase::GuideMissiles,
                Phase::Lasers,
                Phase::Flames,
                Phase::StepWorld,
                Phase::SyncAndRam,
                Phase::RamProps,
                Phase::ShellVsShell,
                Phase::Shells,
                Phase::Bullets,
                Phase::Plasmas,
                Phase::Missiles,
                Phase::Cookoffs,
                Phase::Burns,
                Phase::Fires,
                Phase::Fuses,
                Phase::Launches,
                Phase::Grass,
                Phase::ShieldBreaks,
                Phase::Explosions,
                Phase::DespawnWrecks,
                Phase::Cleanup,
                Phase::RoundEnd,
            ];
            assert(order@ =~= live_phases());
            order
        },
        Step::Over => {
            let order: Vec<Phase> = vec![
                Phase::GuideMissiles,
                Phase::StepWorld,
                Phase::Shells,
                Phase::Bullets,
                Phase::Plasmas,
                Phase::Missiles,
                Phase::Cookoffs,
                Phase::Burns,
                Phase::Fires,
                Phase::Fuses,
                Phase::Launches,
                Phase::Grass,
                Phase::Explosions,
                Phase::Cleanup,
                Phase::RestartCountdown,
            ];
            assert(order@ =~= over_phases());
            order
        },
        _ => Vec::new(),
    }
}

/// The end screen only animates: nobody drives, fires, bites, collects,
/// travels, rams or ends the round again there.
pub proof fn the_end_screen_only_animates(i: int)
    requires
        0 <= i < over_phases().len(),
    ensures
        !(over_phases()[i] == Phase::Frogs || over_phases()[i] == Phase::Pickups || over_phases()[i]
            == Phase::Portals || over_phases()[i] == Phase::Players || over_phases()[i]
            == Phase::Enemies || over_phases()[i] == Phase::SpawnPending || over_phases()[i]
            == Phase::Lasers || over_phases()[i] == Phase::Flames || over_phases()[i]
            == Phase::SyncAndRam || over_phases()[i] == Phase::RamProps || over_phases()[i]
            == Phase::ShieldBreaks || over_phases()[i] == Phase::RoundEnd),
{
}

/// Pausing twice is not pausing at all.
pub proof fn pausing_twice_resumes(round: Round, input: Input)
    requires
        input.pause_pressed,
        round.frame < u64::MAX - 1,
    ensures
        keyed(keyed(round, input), input).paused == round.paused,
{
}

/// A seat takes part while its tank is on the battlefield, and not while it is
/// still rolling in; what it drives is its tank's chassis.
pub proof fn a_seat_rolling_in_takes_no_part(game: &Game, e: u64)
    requires
        game.field@.contains_key(e),
        game.field@[e] is Tank,
    ensures
        ({
            let t = game.field@[e]->Tank_0;
            &&& t.rolling_in ==> on_field(Some(e), game.field@) is None
            &&& !t.rolling_in ==> on_field(Some(e), game.field@) == Some(e)
            &&& 0 <= t.row < 12 ==> game.chassis_at(Some(e)) == Some(TankKind { row: t.row })
            &&& t.row < 0 || t.row >= 12 ==> game.chassis_at(Some(e)) is None
        }),
        on_field(None, game.field@) is None,
        game.chassis_at(None) is None,
{
    assert(thing::<Tank>(game.field@, e) == Some(game.field@[e]->Tank_0));
}

/// Each toggle key flips its own switch and nothing else, and every frame is
/// counted.
pub proof fn a_key_flips_its_own_switch(round: Round, input: Input)
    requires
        round.frame < u64::MAX,
    ensures
        ({
            let r = keyed(round, input);
            &&& r.frame == round.frame + 1
            &&& input.pause_pressed ==> r.paused == !round.paused
            &&& !input.pause_pressed ==> r.paused == round.paused
            &&& input.toggle_shadows_pressed ==> r.shadows_enabled == !round.shadows_enabled
            &&& !input.toggle_shadows_pressed ==> r.shadows_enabled == round.shadows_enabled
            &&& !input.cycle_overlays_pressed ==> r.debug_overlays == round.debug_overlays
            &&& input.cycle_overlays_pressed && round.debug_overlays == Overlays::none()
                ==> r.debug_overlays == Overlays::inspect()
            &&& r.outcome == round.outcome && r.seats == round.seats && r.frog == round.frog
            &&& r.banner == round.banner && r.round_seed == round.round_seed
        }),
{
}

/// A restart comes before everything, a pause before the banner, and the banner
/// before the fight; after those a round that is still open plays and one that
/// is decided only runs out.
pub proof fn what_kind_of_frame_it_is(round: Round, input: Input)
    ensures
        ({
            let s = step_of(round, input);
            let up = Scalar::zero().below(round.banner.timer);
            &&& input.restart_pressed ==> s is Restart
            &&& !input.restart_pressed && round.paused ==> s is Paused
            &&& !input.restart_pressed && !round.paused && up ==> s is Intro
            &&& !input.restart_pressed && !round.paused && !up ==> (if round.outcome is Playing {
                s is Play
            } else {
                s is Over
            })
            &&& s matches Step::Intro { skip } ==> (skip <==> exists|i: int|
                0 <= i < round.players.seated() && i < MAX_SEATS && ((
                #[trigger] input.seats@[i]).move_dir is Some || input.seats@[i].fire))
        }),
{
}

/// A playing frame: the frogs, the pickups and the portals before anyone
/// drives, the players before the enemies, everyone before the world steps,
/// the world before anything in the air strikes, the fires and fuses before the
/// explosions, and the end of the round last, when all of that is known.
pub proof fn a_frame_runs_in_order()
    ensures
        ({
            let l = live_phases();
            &&& l.len() == 32
            &&& l[0] is DebugKills && l[1] is DebugDetonations
            &&& l[2] is Frogs && l[3] is Pickups && l[4] is Portals
            &&& l[5] is Players && l[6] is RollIn && l[7] is Enemies
            &&& l[8] is Waves && l[9] is SpawnPending && l[10] is GuideMissiles
            &&& l[11] is Lasers && l[12] is Flames
            &&& l[13] is StepWorld && l[14] is SyncAndRam && l[15] is RamProps
            &&& l[16] is ShellVsShell && l[17] is Shells && l[18] is Bullets
            &&& l[19] is Plasmas && l[20] is Missiles && l[21] is Cookoffs
            &&& l[22] is Burns && l[23] is Fires && l[24] is Fuses && l[25] is Launches
            &&& l[26] is Grass && l[27] is ShieldBreaks && l[28] is Explosions
            &&& l[29] is DespawnWrecks && l[30] is Cleanup && l[31] is RoundEnd
        }),
        ({
            let o = over_phases();
            &&& o.len() == 15
            &&& o[0] is GuideMissiles && o[1] is StepWorld
            &&& o[2] is Shells && o[3] is Bullets && o[4] is Plasmas && o[5] is Missiles
            &&& o[6] is Cookoffs && o[7] is Burns && o[8] is Fires && o[9] is Fuses
            &&& o[10] is Launches && o[11] is Grass && o[12] is Explosions
            &&& o[13] is Cleanup && o[14] is RestartCountdown
        }),
{
}

} // verus!
