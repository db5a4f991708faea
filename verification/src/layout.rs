//! Setting a round up: who is put down where, in which slot and on which
//! chassis.
//!
//! The host rolls and finds the places; what is put down, in what order and as
//! whose, is decided here.

use rand::rngs::SmallRng;
use vstd::prelude::*;

use crate::chassis::{
    asked_for, band_size, clamped, enemy_row, resolve_player_row, roll_role, sprite_order, TankKind,
    BAND_CAP, TANK_VARIANTS,
};
use crate::debug::slots_unique;
use crate::effects::{Banner, ScreenFlash};
use crate::enemies::Alert;
use crate::event::{Event, Outcome, SpawnKind};
use crate::field::{no_pieces, thing, Kind};
use crate::flame::Hot;
use crate::game::{keeps_identities, lemma_identities, Game, Round, Setup};
use crate::kinds::{Cell, Mission, Owner, PickupKind, Role, Side, SpawnPlan, MAX_SEATS};
use crate::kit::{kit_fits, kitted, roll_enemy_tank, roll_shield, shielded, Draw, Kit};
use crate::pickups::PickupSlot;
use crate::pieces::{Frog, Mind, Pickup, Piece, Tank, Tile};
use crate::placement::{dried, dry, dry_cell_near, ring, roomy};
use crate::props::{FlyingDrum, GroundFire};
use crate::scalar::{Point, Scalar};
use crate::supply::{bonuses_only, bonuses_rolled, Site};
use crate::tiles::{faced, refaced, refresh_edge_masks, wall_cells};

verus! {

/// A frog, and the places rolled for it, in the order they are tried. It goes
/// to its own place when none of them will do.
#[derive(Debug)]
pub struct FrogSpot {
    pub at: Point,
    pub samples: Vec<Sample>,
    pub variant: i32,
    pub health: Scalar,
}

/// A seat's tank where it would start, and the places it may take instead, the
/// nearest first.
#[derive(Debug)]
pub struct SeatSpot {
    pub tank: Tank,
    /// The map says where.
    pub authored: bool,
    pub samples: Vec<Sample>,
    /// Where it goes when none of them will do.
    pub spare: Point,
}

/// A place that something may start in.
#[derive(Clone, Copy, Debug, PartialEq, Eq, Structural)]
pub struct Sample {
    pub at: Point,
    /// In its band, on ground that a tank can use.
    pub legal: bool,
}

/// An enemy, and the places rolled for it, in the order they are tried. It
/// stands where it goes when none of them will do.
#[derive(Debug)]
pub struct EnemySpot {
    pub tank: Tank,
    pub samples: Vec<Sample>,
}

/// What the map lays down.
#[derive(Debug)]
pub struct MapLay {
    pub tiles: Vec<Tile>,
    pub oil: Vec<Cell>,
    pub portals: Vec<Point>,
    /// Tall grass.
    pub grass: Vec<Cell>,
    pub slots: Vec<PickupSlot>,
    /// Deep water.
    pub deep: Vec<Cell>,
    /// What nothing can stand on.
    pub solid: Vec<Cell>,
    /// How many rings of cells a start is moved to find the shore.
    pub reach: i32,
}

/// The host's part in setting a round up, bundled.
pub struct Layout<P, S, E, N, H, F, A, X, Y, R, C, Z, K, D> {
    /// A roll of a seat's chassis row.
    pub roll_row: P,
    /// A seat's tank in some row, rolled and placed.
    pub seat: S,
    /// The tank of the enemy placed after so many others, in some row and role,
    /// and where it may go.
    pub enemy: E,
    /// A roll of how many enemies there are.
    pub count: N,
    /// A roll of whether an enemy hunts.
    pub hunts: H,
    /// Where a side's frog goes.
    pub frog: F,
    /// The cells around a pickup slot.
    pub around: A,
    /// Two places are the same cell.
    pub same: X,
    /// A place is beside a slot.
    pub beside: Y,
    /// A roll of whether a bonus drops.
    pub bonus: R,
    /// The cell a place lies in.
    pub cell_of: C,
    /// The centre of a cell.
    pub center: Z,
    /// A draw for what a tank starts with.
    pub kit: K,
    /// How far two places are apart.
    pub dist: D,
}

/// The host's part can be asked for anything, and rolls a chassis that is on
/// the sheet.
pub open spec fn well_found<
    P: Fn(usize) -> i32,
    S: Fn(usize, i32) -> SeatSpot,
    E: Fn(usize, i32, Role) -> EnemySpot,
    N: Fn() -> usize,
    H: Fn() -> bool,
    F: Fn(Side) -> FrogSpot,
    A: Fn(Point) -> Vec<Site>,
    X: Fn(Point, Point) -> bool,
    Y: Fn(Point, Point) -> bool,
    R: Fn(PickupKind) -> bool,
    C: Fn(Point) -> Cell,
    Z: Fn(Cell) -> Point,
    K: Fn(Draw) -> bool,
    D: Fn(Point, Point) -> Scalar,
>(o: Layout<P, S, E, N, H, F, A, X, Y, R, C, Z, K, D>) -> bool {
    &&& forall|i: usize| call_requires(o.roll_row, (i,))
    &&& forall|i: usize, row: i32| #[trigger]
        call_ensures(o.roll_row, (i,), row) ==> 0 <= row < TANK_VARIANTS
    &&& forall|i: usize, row: i32| call_requires(o.seat, (i, row))
    &&& forall|k: usize, row: i32, role: Role| call_requires(o.enemy, (k, row, role))
    &&& call_requires(o.count, ())
    &&& call_requires(o.hunts, ())
    &&& forall|side: Side| call_requires(o.frog, (side,))
    &&& forall|p: Point| call_requires(o.around, (p,))
    &&& forall|a: Point, b: Point| call_requires(o.same, (a, b))
    &&& forall|a: Point, b: Point| call_requires(o.beside, (a, b))
    &&& forall|k: PickupKind| call_requires(o.bonus, (k,))
    &&& forall|p: Point| call_requires(o.cell_of, (p,))
    &&& forall|c: Cell| call_requires(o.center, (c,))
    &&& forall|d: Draw| call_requires(o.kit, (d,))
    &&& forall|a: Point, b: Point| call_requires(o.dist, (a, b))
}

/// Every place is far enough from the ends of the grid to look for a shore.
pub open spec fn on_grid<C: Fn(Point) -> Cell>(cell_of: C, reach: i32) -> bool {
    reach < i32::MAX && forall|p: Point, c: Cell| #[trigger]
        call_ensures(cell_of, (p,), c) ==> roomy(c, reach as int)
}

/// Every enemy can carry what it may be handed, and shows damage marks that
/// there are.
pub open spec fn carries<E: Fn(usize, i32, Role) -> EnemySpot>(enemy: E, kit: Kit) -> bool {
    forall|k: usize, row: i32, role: Role, spot: EnemySpot| #[trigger]
        call_ensures(enemy, (k, row, role), spot) ==> kit_fits(spot.tank, kit) && 0
            <= spot.tank.damage_variant < kit.damage_variants
}

/// A roll of how many enemies there are is made in its range.
pub open spec fn counts_within<N: Fn() -> usize>(count: N, setup: Setup) -> bool {
    forall|k: usize| #[trigger]
        call_ensures(count, (), k) ==> setup.fewest_enemies <= k <= setup.most_enemies
}

/// A seat's chassis is on the sheet, whether it was asked for or rolled.
pub proof fn a_seats_chassis_is_on_the_sheet<P: Fn(usize) -> i32>(
    roll: P,
    setup: Setup,
    i: int,
    row: i32,
)
    requires
        forall|i: usize, row: i32| #[trigger]
            call_ensures(roll, (i,), row) ==> 0 <= row < TANK_VARIANTS,
        row_given(roll, setup, i, row),
    ensures
        0 <= row < TANK_VARIANTS,
{
}

/// A rolled band has as many enemies as its range allows, and never more than
/// the cap.
pub proof fn a_rolled_band_is_within_its_range<N: Fn() -> usize>(count: N, setup: Setup, n: int)
    requires
        setup.spawn_plan == (SpawnPlan::Band { count: None }),
        setup.map_tanks is None,
        counts_within(count, setup),
        band_of(count, setup, n),
    ensures
        setup.fewest_enemies <= n || n == BAND_CAP,
        n <= setup.most_enemies,
        n <= BAND_CAP,
{
}

/// The chassis row somebody asked for, for a seat. Nothing pins the seats past
/// the second.
pub open spec fn asked_row(setup: Setup, i: int) -> Option<i32> {
    if i == 0 {
        asked_for(setup.player_row, setup.row_knob, setup.map_tank)
    } else if i == 1 {
        asked_for(setup.player2_row, (-1) as i32, setup.map_tank2)
    } else {
        None
    }
}

/// A seat's chassis row: what was asked for, brought into the sheet, and a roll
/// where nothing was.
pub open spec fn row_given<P: Fn(usize) -> i32>(roll: P, setup: Setup, i: int, row: i32) -> bool {
    match asked_row(setup, i) {
        Some(asked) => row == clamped(asked),
        None => call_ensures(roll, (i as usize,), row),
    }
}

/// A place brought ashore: itself unless it lies in deep water, else the centre
/// of the nearest dry cell.
pub open spec fn ashore<C: Fn(Point) -> Cell, Z: Fn(Cell) -> Point>(
    cell_of: C,
    center: Z,
    lay: MapLay,
    at: Point,
    to: Point,
) -> bool {
    exists|c: Cell, d: Cell|
        {
            &&& #[trigger] call_ensures(cell_of, (at,), c)
            &&& #[trigger] dried(lay.deep@, lay.solid@, lay.reach as int, c, d)
            &&& if d == c {
                to == at
            } else {
                call_ensures(center, (d,), to)
            }
        }
}

/// A start in deep water with a shore in reach is moved to the centre of a dry
/// cell within that reach.
pub proof fn a_start_in_deep_water_is_moved_ashore<C: Fn(Point) -> Cell, Z: Fn(Cell) -> Point>(
    cell_of: C,
    center: Z,
    lay: MapLay,
    at: Point,
    to: Point,
    cell: Cell,
    shore: Cell,
)
    requires
        ashore(cell_of, center, lay, at, to),
        forall|c: Cell| #[trigger] call_ensures(cell_of, (at,), c) ==> c == cell,
        lay.deep@.contains(cell),
        dry(lay.deep@, lay.solid@, shore),
        1 <= ring(cell, shore) <= lay.reach,
    ensures
        exists|d: Cell| #[trigger]
            dry(lay.deep@, lay.solid@, d) && 1 <= ring(cell, d) <= lay.reach && call_ensures(
                center,
                (d,),
                to,
            ),
{
    let (c, d) = choose|c: Cell, d: Cell|
        {
            &&& #[trigger] call_ensures(cell_of, (at,), c)
            &&& #[trigger] dried(lay.deep@, lay.solid@, lay.reach as int, c, d)
            &&& if d == c {
                to == at
            } else {
                call_ensures(center, (d,), to)
            }
        };
    assert(c == cell);
    assert(dry(lay.deep@, lay.solid@, shore));
    assert(d != c);
}

/// Where a seat starts, clear of the seats already down. The first starts where
/// it would, ashore. The second stays where the map puts it, if that is clear
/// of the first. Any other takes the first of its places that is clear, ashore.
pub open spec fn seat_start<
    C: Fn(Point) -> Cell,
    Z: Fn(Cell) -> Point,
    D: Fn(Point, Point) -> Scalar,
>(
    cell_of: C,
    center: Z,
    dist: D,
    setup: Setup,
    lay: MapLay,
    i: int,
    placed: Seq<Point>,
    spot: SeatSpot,
    to: Point,
) -> bool {
    let at = spot.tank.position;
    if i == 0 {
        ashore(cell_of, center, lay, at, to)
    } else {
        ||| {
            &&& i == 1 && spot.authored && to == at
            &&& apart_from_all(dist, setup.seat_spacing, at, placed, true)
        }
        ||| {
            &&& !(i == 1 && spot.authored) || apart_from_all(
                dist,
                setup.seat_spacing,
                at,
                placed,
                false,
            )
            &&& exists|mid: Point| #[trigger]
                settled(
                    dist,
                    setup,
                    Taken { seats: placed, enemies: Seq::empty(), frogs: Seq::empty() },
                    spot.samples@,
                    spot.spare,
                    mid,
                ) && ashore(cell_of, center, lay, mid, to)
        }
    }
}

/// A seat's tank: its own, in the row it is given and where it starts, with a
/// shield if it drew one and with no mind.
pub open spec fn seat_piece<
    P: Fn(usize) -> i32,
    S: Fn(usize, i32) -> SeatSpot,
    E: Fn(usize, i32, Role) -> EnemySpot,
    N: Fn() -> usize,
    H: Fn() -> bool,
    F: Fn(Side) -> FrogSpot,
    A: Fn(Point) -> Vec<Site>,
    X: Fn(Point, Point) -> bool,
    Y: Fn(Point, Point) -> bool,
    R: Fn(PickupKind) -> bool,
    C: Fn(Point) -> Cell,
    Z: Fn(Cell) -> Point,
    K: Fn(Draw) -> bool,
    D: Fn(Point, Point) -> Scalar,
>(
    o: Layout<P, S, E, N, H, F, A, X, Y, R, C, Z, K, D>,
    setup: Setup,
    lay: MapLay,
    i: int,
    placed: Seq<Point>,
    piece: Piece,
) -> bool {
    exists|row: i32, spot: SeatSpot, to: Point, up: bool|
        {
            &&& #[trigger] call_ensures(o.seat, (i as usize, row), spot)
            &&& row_given(o.roll_row, setup, i, row)
            &&& #[trigger] seat_start(
                o.cell_of,
                o.center,
                o.dist,
                setup,
                lay,
                i,
                placed,
                spot,
                to,
            )
            &&& #[trigger] call_ensures(o.kit, (Draw::Shield,), up)
            &&& piece == shielded(
                Tank {
                    owner: Owner::Player(i as u8),
                    row,
                    position: to,
                    mind: None,
                    ..spot.tank
                },
                up,
                setup.kit,
            ).as_piece()
        }
}

/// What an enemy is after.
pub open spec fn role_given<H: Fn() -> bool>(hunts: H, setup: Setup, role: Role) -> bool {
    match setup.mission {
        Mission::Destroy => role == Role::Player,
        Mission::Protect => if setup.hunter_share {
            (role == Role::Hunter && call_ensures(hunts, (), true)) || (role == Role::Player
                && call_ensures(hunts, (), false))
        } else {
            role == Role::Player
        },
        Mission::Hunt => if setup.hunter_share {
            (role == Role::Hunter && call_ensures(hunts, (), true)) || (role == Role::Guard
                && call_ensures(hunts, (), false))
        } else {
            role == Role::Guard
        },
    }
}

/// A mind that has seen nothing yet.
pub open spec fn fresh_mind(role: Role) -> Mind {
    Mind { role, target_player: 0, hit_alerted: false, retreating: false }
}

/// A place is as far from another as it has to be, or is not.
pub open spec fn apart_by<D: Fn(Point, Point) -> Scalar>(
    dist: D,
    clearance: Scalar,
    p: Point,
    q: Point,
    yes: bool,
) -> bool {
    exists|d: Scalar| #[trigger] call_ensures(dist, (p, q), d) && yes == clearance.at_most(d)
}

/// A place keeps its distance from all of some places, or is too close to one.
pub open spec fn apart_from_all<D: Fn(Point, Point) -> Scalar>(
    dist: D,
    clearance: Scalar,
    p: Point,
    taken: Seq<Point>,
    yes: bool,
) -> bool {
    if yes {
        forall|i: int|
            0 <= i < taken.len() ==> apart_by(dist, clearance, p, #[trigger] taken[i], true)
    } else {
        exists|i: int|
            0 <= i < taken.len() && apart_by(dist, clearance, p, #[trigger] taken[i], false)
    }
}

/// What a newcomer keeps clear of: seats, enemies and frogs that are down.
pub struct Taken {
    pub seats: Seq<Point>,
    pub enemies: Seq<Point>,
    pub frogs: Seq<Point>,
}

/// A sample will do, or will not: a legal one, clear of every seat, enemy and
/// frog there is.
pub open spec fn sample_does<D: Fn(Point, Point) -> Scalar>(
    dist: D,
    setup: Setup,
    taken: Taken,
    sample: Sample,
    yes: bool,
) -> bool {
    if yes {
        &&& sample.legal
        &&& apart_from_all(dist, setup.seat_spacing, sample.at, taken.seats, true)
        &&& apart_from_all(dist, setup.enemy_spacing, sample.at, taken.enemies, true)
        &&& apart_from_all(dist, setup.frog_spacing, sample.at, taken.frogs, true)
    } else {
        ||| !sample.legal
        ||| apart_from_all(dist, setup.seat_spacing, sample.at, taken.seats, false)
        ||| apart_from_all(dist, setup.enemy_spacing, sample.at, taken.enemies, false)
        ||| apart_from_all(dist, setup.frog_spacing, sample.at, taken.frogs, false)
    }
}

/// Where something is put: on the first sample that will do, and on its own
/// place if none does.
pub open spec fn settled<D: Fn(Point, Point) -> Scalar>(
    dist: D,
    setup: Setup,
    taken: Taken,
    samples: Seq<Sample>,
    own: Point,
    to: Point,
) -> bool {
    ||| exists|i: int|
        {
            &&& 0 <= i < samples.len()
            &&& (#[trigger] samples[i]).at == to
            &&& sample_does(dist, setup, taken, samples[i], true)
            &&& forall|k: int|
                0 <= k < i ==> sample_does(dist, setup, taken, #[trigger] samples[k], false)
        }
    ||| to == own && forall|k: int|
        0 <= k < samples.len() ==> sample_does(
            dist,
            setup,
            taken,
            #[trigger] samples[k],
            false,
        )
}

/// What is put down keeps clear of every seat, enemy and frog that is down,
/// unless no sample of its own does.
pub proof fn a_newcomer_starts_clear_where_it_can<D: Fn(Point, Point) -> Scalar>(
    dist: D,
    setup: Setup,
    taken: Taken,
    samples: Seq<Sample>,
    own: Point,
    to: Point,
)
    requires
        settled(dist, setup, taken, samples, own, to),
    ensures
        ({
            &&& apart_from_all(dist, setup.seat_spacing, to, taken.seats, true)
            &&& apart_from_all(dist, setup.enemy_spacing, to, taken.enemies, true)
            &&& apart_from_all(dist, setup.frog_spacing, to, taken.frogs, true)
        }) || forall|k: int|
            0 <= k < samples.len() ==> sample_does(
                dist,
                setup,
                taken,
                #[trigger] samples[k],
                false,
            ),
{
}

/// Where a tank stands.
pub open spec fn place_of(piece: Piece) -> Point {
    match piece {
        Piece::Tank(t) => t.position,
        _ => Point { x: Scalar::zero(), y: Scalar::zero() },
    }
}

/// Where some tanks stand.
pub open spec fn places_of(more: Seq<(u64, Piece)>) -> Seq<Point> {
    Seq::new(more.len(), |i: int| place_of(more[i].1))
}

/// The enemy placed after `k` others: in the next slot, on the next chassis of
/// the sprite order, kitted out as it drew, with a mind of its own, and clear of
/// the seats and of those placed before it as far as its samples allow.
pub open spec fn enemy_piece<
    E: Fn(usize, i32, Role) -> EnemySpot,
    H: Fn() -> bool,
    K: Fn(Draw) -> bool,
    D: Fn(Point, Point) -> Scalar,
>(
    enemy: E,
    hunts: H,
    kit: K,
    dist: D,
    setup: Setup,
    first: int,
    k: int,
    seats: Seq<Point>,
    placed: Seq<Point>,
    piece: Piece,
) -> bool {
    exists|role: Role, spot: EnemySpot, out: Tank, to: Point|
        {
            &&& role_given(hunts, setup, role)
            &&& #[trigger] call_ensures(
                enemy,
                (k as usize, sprite_order()[k % 12], role),
                spot,
            )
            &&& #[trigger] kitted(kit, setup.kit, spot.tank, out)
            &&& #[trigger] settled(
                dist,
                setup,
                Taken { seats, enemies: placed, frogs: Seq::empty() },
                spot.samples@,
                spot.tank.position,
                to,
            )
            &&& piece == (Tank {
                owner: Owner::Enemy((first + k) as usize),
                row: sprite_order()[k % 12],
                position: to,
                mind: Some(fresh_mind(role)),
                ..out
            }).as_piece()
        }
}

/// How many enemies a round places: nobody under a wave plan; the plan's count,
/// else the map's, else a roll, and never more than the cap.
pub open spec fn band_of<N: Fn() -> usize>(count: N, setup: Setup, n: int) -> bool {
    let capped = |k: usize| if k < BAND_CAP {
        k as int
    } else {
        BAND_CAP as int
    };
    match setup.spawn_plan {
        SpawnPlan::Waves => n == 0,
        SpawnPlan::Band { count: Some(k) } => n == capped(k),
        SpawnPlan::Band { count: None } => match setup.map_tanks {
            Some(k) => n == capped(k),
            None => exists|k: usize| #[trigger] call_ensures(count, (), k) && n == capped(k),
        },
    }
}

/// A frog that was just put down.
pub open spec fn frog_piece(side: Side, spot: FrogSpot, at: Point) -> Piece {
    (Frog {
        side,
        position: at,
        health: spot.health,
        max_health: spot.health,
        variant: spot.variant,
        dead: false,
        can_attack: true,
        can_hop: true,
    }).as_piece()
}

/// The field with some things put down on it, one after the other.
pub open spec fn with_all(pieces: Map<u64, Piece>, more: Seq<(u64, Piece)>, n: int) -> Map<
    u64,
    Piece,
>
    decreases n,
{
    if n <= 0 {
        pieces
    } else {
        with_all(pieces, more, n - 1).insert(more[n - 1].0, more[n - 1].1)
    }
}

/// Some things were put down, each under a name of its own that nothing had.
pub open spec fn put_down(
    before: Map<u64, Piece>,
    after: Map<u64, Piece>,
    more: Seq<(u64, Piece)>,
) -> bool {
    &&& after == with_all(before, more, more.len() as int)
    &&& forall|i: int| 0 <= i < more.len() ==> !before.contains_key((#[trigger] more[i]).0)
    &&& forall|i: int, j: int|
        0 <= i < j < more.len() ==> (#[trigger] more[i]).0 != (#[trigger] more[j]).0
}

proof fn lemma_with_all(pieces: Map<u64, Piece>, more: Seq<(u64, Piece)>, n: int)
    requires
        0 <= n <= more.len(),
        forall|i: int| 0 <= i < more.len() ==> !pieces.contains_key((#[trigger] more[i]).0),
        forall|i: int, j: int|
            0 <= i < j < more.len() ==> (#[trigger] more[i]).0 != (#[trigger] more[j]).0,
    ensures
        forall|i: int|
            0 <= i < n ==> with_all(pieces, more, n).contains_key((#[trigger] more[i]).0)
                && with_all(pieces, more, n)[more[i].0] == more[i].1,
        forall|id: u64| #[trigger]
            pieces.contains_key(id) ==> with_all(pieces, more, n).contains_key(id) && with_all(
                pieces,
                more,
                n,
            )[id] == pieces[id],
        forall|id: u64| #[trigger]
            with_all(pieces, more, n).contains_key(id) ==> pieces.contains_key(id) || exists|i: int|
                0 <= i < n && (#[trigger] more[i]).0 == id,
    decreases n,
{
    if n > 0 {
        lemma_with_all(pieces, more, n - 1);
        let before = with_all(pieces, more, n - 1);
        let after = with_all(pieces, more, n);
        assert forall|i: int| 0 <= i < n implies after.contains_key((#[trigger] more[i]).0)
            && after[more[i].0] == more[i].1 by {
            if i < n - 1 {
                assert(more[i].0 != more[n - 1].0);
            }
        }
        assert forall|id: u64| #[trigger] after.contains_key(id) implies pieces.contains_key(id)
            || exists|i: int| 0 <= i < n && (#[trigger] more[i]).0 == id by {
            if id == more[n - 1].0 {
                assert(more[n - 1].0 == id);
            } else {
                assert(before.contains_key(id));
                if !pieces.contains_key(id) {
                    let i = choose|i: int| 0 <= i < n - 1 && (#[trigger] more[i]).0 == id;
                    assert(more[i].0 == id);
                }
            }
        }
    }
}

proof fn lemma_one_down(before: Map<u64, Piece>, id: u64, piece: Piece)
    requires
        !before.contains_key(id),
    ensures
        put_down(before, before.insert(id, piece), seq![(id, piece)]),
{
    let one = seq![(id, piece)];
    assert(with_all(before, one, 0) == before);
    assert(with_all(before, one, 1) == before.insert(id, piece));
}

proof fn lemma_with_more(pieces: Map<u64, Piece>, a: Seq<(u64, Piece)>, b: Seq<(u64, Piece)>, n: int)
    requires
        0 <= n <= b.len(),
    ensures
        with_all(pieces, a + b, a.len() + n) == with_all(with_all(pieces, a, a.len() as int), b, n),
    decreases n,
{
    if n > 0 {
        lemma_with_more(pieces, a, b, n - 1);
        assert((a + b)[a.len() + n - 1] == b[n - 1]);
    } else {
        lemma_with_prefix(pieces, a, b, a.len() as int);
    }
}

proof fn lemma_with_prefix(
    pieces: Map<u64, Piece>,
    a: Seq<(u64, Piece)>,
    b: Seq<(u64, Piece)>,
    n: int,
)
    requires
        0 <= n <= a.len(),
    ensures
        with_all(pieces, a + b, n) == with_all(pieces, a, n),
    decreases n,
{
    if n > 0 {
        lemma_with_prefix(pieces, a, b, n - 1);
        assert((a + b)[n - 1] == a[n - 1]);
    }
}

proof fn lemma_more_down(
    start: Map<u64, Piece>,
    mid: Map<u64, Piece>,
    end: Map<u64, Piece>,
    a: Seq<(u64, Piece)>,
    b: Seq<(u64, Piece)>,
)
    requires
        put_down(start, mid, a),
        put_down(mid, end, b),
    ensures
        put_down(start, end, a + b),
{
    let all = a + b;
    lemma_with_more(start, a, b, b.len() as int);
    lemma_with_all(start, a, a.len() as int);
    assert forall|i: int| 0 <= i < all.len() implies !start.contains_key((#[trigger] all[i]).0) by {
        if i < a.len() {
            assert(all[i] == a[i]);
        } else {
            assert(all[i] == b[i - a.len()]);
        }
    }
    assert forall|i: int, j: int| 0 <= i < j < all.len() implies (#[trigger] all[i]).0 != (
    #[trigger] all[j]).0 by {
        if j < a.len() {
            assert(all[i] == a[i] && all[j] == a[j]);
        } else if i < a.len() {
            assert(all[i] == a[i] && all[j] == b[j - a.len()]);
            assert(mid.contains_key(a[i].0));
        } else {
            assert(all[i] == b[i - a.len()] && all[j] == b[j - a.len()]);
        }
    }
}

proof fn lemma_none_down(pieces: Map<u64, Piece>)
    ensures
        put_down(pieces, pieces, Seq::<(u64, Piece)>::empty()),
{
}

/// Everything that was put down at the start of a round, in order, with the
/// names it was given.
#[verifier::ext_equal]
pub struct Opening {
    pub seats: Seq<(u64, Piece)>,
    pub tiles: Seq<(u64, Piece)>,
    pub enemies: Seq<(u64, Piece)>,
    pub frogs: Seq<(u64, Piece)>,
    pub pickups: Seq<(u64, Piece)>,
}

impl Opening {
    /// Everything, in the order it was put down: the first seat before the
    /// terrain and the other seats behind it.
    pub open spec fn all(self) -> Seq<(u64, Piece)> {
        self.seats.take(1) + self.tiles + self.seats.skip(1) + self.enemies + self.frogs
            + self.pickups
    }
}

/// The tiles of the map, each once.
pub open spec fn tiles_down(tiles: Seq<Tile>, more: Seq<(u64, Piece)>) -> bool {
    more.len() == tiles.len() && forall|k: int|
        0 <= k < tiles.len() ==> (#[trigger] more[k]).1 == faced(
            tiles[k].as_piece(),
            standing_walls(tiles),
        )
}

/// The cells the map puts a wall on.
pub open spec fn standing_walls(tiles: Seq<Tile>) -> Set<Cell> {
    Set::new(
        |cell: Cell|
            exists|k: int|
                0 <= k < tiles.len() && (#[trigger] tiles[k]).material.is_wall()
                    && !tiles[k].destroyed && tiles[k].cell == cell,
    )
}

/// The tiles of the map as they come, each once.
pub open spec fn tiles_raw(tiles: Seq<Tile>, more: Seq<(u64, Piece)>) -> bool {
    more.len() == tiles.len() && forall|k: int|
        0 <= k < tiles.len() ==> (#[trigger] more[k]).1 == tiles[k].as_piece()
}

/// Facing the walls afterwards is as good as having put them down faced.
proof fn lemma_faced_down(
    before: Map<u64, Piece>,
    after: Map<u64, Piece>,
    tiles: Seq<Tile>,
    raw: Seq<(u64, Piece)>,
    faced_log: Seq<(u64, Piece)>,
)
    requires
        put_down(before, after, raw),
        tiles_raw(tiles, raw),
        forall|id: u64| #[trigger] before.contains_key(id) ==> !(before[id] is Tile),
        faced_log.len() == raw.len(),
        forall|k: int|
            0 <= k < raw.len() ==> #[trigger] faced_log[k] == (
                raw[k].0,
                faced(raw[k].1, standing_walls(tiles)),
            ),
    ensures
        put_down(before, refaced(after), faced_log),
{
    let n = raw.len() as int;
    lemma_with_all(before, raw, n);
    assert forall|i: int| 0 <= i < faced_log.len() implies !before.contains_key(
        (#[trigger] faced_log[i]).0,
    ) by {
        assert(!before.contains_key(raw[i].0));
    }
    assert forall|i: int, j: int| 0 <= i < j < faced_log.len() implies (#[trigger] faced_log[i]).0
        != (#[trigger] faced_log[j]).0 by {
        assert(raw[i].0 != raw[j].0);
    }
    lemma_with_all(before, faced_log, n);
    assert(wall_cells(after) =~= standing_walls(tiles)) by {
        assert forall|cell: Cell| wall_cells(after).contains(cell) == standing_walls(
            tiles,
        ).contains(cell) by {
            if wall_cells(after).contains(cell) {
                let id = choose|id: u64|
                    (#[trigger] thing::<Tile>(after, id)) matches Some(t) && t.material.is_wall()
                        && !t.destroyed && t.cell == cell;
                assert(after.contains_key(id));
                let k = choose|k: int| 0 <= k < n && (#[trigger] raw[k]).0 == id;
                assert(raw[k].1 == tiles[k].as_piece());
                assert(tiles[k].cell == cell);
            }
            if standing_walls(tiles).contains(cell) {
                let k = choose|k: int|
                    0 <= k < tiles.len() && (#[trigger] tiles[k]).material.is_wall()
                        && !tiles[k].destroyed && tiles[k].cell == cell;
                assert(raw[k].1 == tiles[k].as_piece());
                assert(thing::<Tile>(after, raw[k].0) == Some(tiles[k]));
            }
        }
    }
    let got = with_all(before, faced_log, n);
    let want = refaced(after);
    assert forall|id: u64| got.contains_key(id) == want.contains_key(id) by {
        if got.contains_key(id) && !before.contains_key(id) {
            let i = choose|i: int| 0 <= i < n && (#[trigger] faced_log[i]).0 == id;
            assert(after.contains_key(raw[i].0));
        }
        if after.contains_key(id) && !before.contains_key(id) {
            let i = choose|i: int| 0 <= i < n && (#[trigger] raw[i]).0 == id;
            assert(got.contains_key(faced_log[i].0));
        }
    }
    assert forall|id: u64| got.contains_key(id) implies got[id] == want[id] by {
        if before.contains_key(id) {
            assert(after[id] == before[id]);
        } else {
            let i = choose|i: int| 0 <= i < n && (#[trigger] faced_log[i]).0 == id;
            assert(after[raw[i].0] == raw[i].1);
        }
    }
    assert(got =~= want);
}

/// One pickup of its kind on every slot.
pub open spec fn slots_stocked(slots: Seq<PickupSlot>, more: Seq<(u64, Piece)>) -> bool {
    more.len() == slots.len() && forall|k: int|
        0 <= k < slots.len() ==> (#[trigger] more[k]).1 == (Pickup {
            kind: slots[k].kind,
            position: slots[k].at,
        }).as_piece()
}

/// The enemies, in slot order from the first there is.
pub open spec fn enemies_down<
    E: Fn(usize, i32, Role) -> EnemySpot,
    H: Fn() -> bool,
    K: Fn(Draw) -> bool,
    D: Fn(Point, Point) -> Scalar,
>(
    enemy: E,
    hunts: H,
    kit: K,
    dist: D,
    setup: Setup,
    first: int,
    seats: Seq<Point>,
    more: Seq<(u64, Piece)>,
) -> bool {
    forall|k: int|
        0 <= k < more.len() ==> enemy_piece(
            enemy,
            hunts,
            kit,
            dist,
            setup,
            first,
            k,
            seats,
            places_of(more).take(k),
            (#[trigger] more[k]).1,
        )
}

/// The frogs the mission has: the players' and then the enemies'. The players'
/// keeps clear of every seat but the first and of the enemies, and the enemies'
/// of them all and of the players'.
pub open spec fn frogs_down<F: Fn(Side) -> FrogSpot, D: Fn(Point, Point) -> Scalar>(
    frog: F,
    dist: D,
    setup: Setup,
    seats: Seq<Point>,
    enemies: Seq<Point>,
    ours: Option<u64>,
    theirs: Option<u64>,
    more: Seq<(u64, Piece)>,
) -> bool {
    &&& ours is Some == setup.mission.has_player_frog()
    &&& theirs is Some == setup.mission.has_enemy_frog()
    &&& exists|a: FrogSpot, b: FrogSpot, to: Point, there: Point|
        {
            &&& #[trigger] frogs_settled(
                frog,
                dist,
                setup,
                seats,
                enemies,
                theirs is Some,
                a,
                b,
                to,
                there,
            )
            &&& more == frog_of(ours, Side::Player, a, to) + frog_of(
                theirs,
                Side::Enemy,
                b,
                there,
            )
        }
}

/// Where the frogs go.
pub open spec fn frogs_settled<F: Fn(Side) -> FrogSpot, D: Fn(Point, Point) -> Scalar>(
    frog: F,
    dist: D,
    setup: Setup,
    seats: Seq<Point>,
    enemies: Seq<Point>,
    both: bool,
    a: FrogSpot,
    b: FrogSpot,
    to: Point,
    there: Point,
) -> bool {
    &&& call_ensures(frog, (Side::Player,), a)
    &&& settled(
        dist,
        setup,
        Taken { seats: seats.skip(1), enemies, frogs: Seq::empty() },
        a.samples@,
        a.at,
        to,
    )
    &&& both ==> {
        &&& call_ensures(frog, (Side::Enemy,), b)
        &&& settled(
            dist,
            setup,
            Taken { seats, enemies, frogs: seq![to] },
            b.samples@,
            b.at,
            there,
        )
    }
}

/// A side's frog, if it has one.
pub open spec fn frog_of(entity: Option<u64>, side: Side, spot: FrogSpot, at: Point) -> Seq<
    (u64, Piece),
> {
    match entity {
        Some(e) => seq![(e, frog_piece(side, spot, at))],
        None => Seq::empty(),
    }
}

/// The bonuses were rolled slot by slot, once everything else lay: only beside
/// health slots, and none for a frog that is at full health.
pub open spec fn bonuses_done<
    A: Fn(Point) -> Vec<Site>,
    X: Fn(Point, Point) -> bool,
    Y: Fn(Point, Point) -> bool,
    R: Fn(PickupKind) -> bool,
>(
    around: A,
    same: X,
    beside: Y,
    bonus: R,
    slots: Seq<PickupSlot>,
    stages: Seq<Map<u64, Piece>>,
    n: int,
) -> bool {
    stages.len() == n + 1 && forall|k: int|
        0 <= k < n ==> bonus_stage(
            around,
            same,
            beside,
            bonus,
            slots[k],
            #[trigger] stages[k],
            stages[k + 1],
        )
}

/// One slot's bonuses.
pub open spec fn bonus_stage<
    A: Fn(Point) -> Vec<Site>,
    X: Fn(Point, Point) -> bool,
    Y: Fn(Point, Point) -> bool,
    R: Fn(PickupKind) -> bool,
>(
    around: A,
    same: X,
    beside: Y,
    bonus: R,
    slot: PickupSlot,
    before: Map<u64, Piece>,
    after: Map<u64, Piece>,
) -> bool {
    if slot.kind == PickupKind::Health {
        exists|sites: Vec<Site>|
            {
                &&& #[trigger] call_ensures(around, (slot.at,), sites)
                &&& bonuses_rolled(same, beside, bonus, slot.at, false, sites@, before, after)
            }
    } else {
        after == before
    }
}

proof fn lemma_bonuses_only(a: Map<u64, Piece>, b: Map<u64, Piece>, c: Map<u64, Piece>)
    requires
        bonuses_only(a, b),
        bonuses_only(b, c),
    ensures
        bonuses_only(a, c),
{
    assert forall|id: u64| #![trigger c.contains_key(id)] if a.contains_key(id) {
        c.contains_key(id) && c[id] == a[id]
    } else {
        c.contains_key(id) ==> (c[id] matches Piece::Pickup(p) && (p.kind == PickupKind::Shield
            || p.kind == PickupKind::FrogHealth))
    } by {
        assert(b.contains_key(id) || !b.contains_key(id));
    }
}

impl Game {
    /// Bring a place ashore.
    fn bring_ashore<
        P: Fn(usize) -> i32,
        S: Fn(usize, i32) -> SeatSpot,
        E: Fn(usize, i32, Role) -> EnemySpot,
        N: Fn() -> usize,
        H: Fn() -> bool,
        F: Fn(Side) -> FrogSpot,
        A: Fn(Point) -> Vec<Site>,
        X: Fn(Point, Point) -> bool,
        Y: Fn(Point, Point) -> bool,
        R: Fn(PickupKind) -> bool,
        C: Fn(Point) -> Cell,
        Z: Fn(Cell) -> Point,
        K: Fn(Draw) -> bool,
        D: Fn(Point, Point) -> Scalar,
    >(lay: &MapLay, o: &Layout<P, S, E, N, H, F, A, X, Y, R, C, Z, K, D>, at: Point) -> (to: Point)
        requires
            well_found(*o),
            on_grid(o.cell_of, lay.reach),
        ensures
            ashore(o.cell_of, o.center, *lay, at, to),
    {
        let c: Cell = (o.cell_of)(at);
        let d: Cell = dry_cell_near(c, &lay.deep, &lay.solid, lay.reach);
        assert(call_ensures(o.cell_of, (at,), c));
        assert(dried(lay.deep@, lay.solid@, lay.reach as int, c, d));
        if d == c {
            at
        } else {
            (o.center)(d)
        }
    }

    /// Where a seat starts.
    fn seat_place<
        P: Fn(usize) -> i32,
        S: Fn(usize, i32) -> SeatSpot,
        E: Fn(usize, i32, Role) -> EnemySpot,
        N: Fn() -> usize,
        H: Fn() -> bool,
        F: Fn(Side) -> FrogSpot,
        A: Fn(Point) -> Vec<Site>,
        X: Fn(Point, Point) -> bool,
        Y: Fn(Point, Point) -> bool,
        R: Fn(PickupKind) -> bool,
        C: Fn(Point) -> Cell,
        Z: Fn(Cell) -> Point,
        K: Fn(Draw) -> bool,
        D: Fn(Point, Point) -> Scalar,
    >(
        setup: &Setup,
        lay: &MapLay,
        o: &Layout<P, S, E, N, H, F, A, X, Y, R, C, Z, K, D>,
        i: usize,
        placed: &Vec<Point>,
        spot: &SeatSpot,
    ) -> (to: Point)
        requires
            well_found(*o),
            on_grid(o.cell_of, lay.reach),
        ensures
            seat_start(
                o.cell_of,
                o.center,
                o.dist,
                *setup,
                *lay,
                i as int,
                placed@,
                *spot,
                to,
            ),
    {
        let at: Point = spot.tank.position;
        if i == 0 {
            return Self::bring_ashore(lay, o, at);
        }
        if i == 1 && spot.authored && stays_clear(&o.dist, setup.seat_spacing, at, placed) {
            return at;
        }
        let none: Vec<Point> = Vec::new();
        assert(none@ =~= Seq::<Point>::empty());
        let mid: Point = settle(
            &o.dist,
            setup,
            placed,
            &none,
            &none,
            &spot.samples,
            spot.spare,
        );
        assert(settled(
            o.dist,
            *setup,
            Taken { seats: placed@, enemies: Seq::empty(), frogs: Seq::empty() },
            spot.samples@,
            spot.spare,
            mid,
        ));
        Self::bring_ashore(lay, o, mid)
    }

    /// A seat's tank, on the chassis it is given and where it starts.
    fn seat_for<
        P: Fn(usize) -> i32,
        S: Fn(usize, i32) -> SeatSpot,
        E: Fn(usize, i32, Role) -> EnemySpot,
        N: Fn() -> usize,
        H: Fn() -> bool,
        F: Fn(Side) -> FrogSpot,
        A: Fn(Point) -> Vec<Site>,
        X: Fn(Point, Point) -> bool,
        Y: Fn(Point, Point) -> bool,
        R: Fn(PickupKind) -> bool,
        C: Fn(Point) -> Cell,
        Z: Fn(Cell) -> Point,
        K: Fn(Draw) -> bool,
        D: Fn(Point, Point) -> Scalar,
    >(
        setup: &Setup,
        lay: &MapLay,
        o: &Layout<P, S, E, N, H, F, A, X, Y, R, C, Z, K, D>,
        i: usize,
        placed: &Vec<Point>,
    ) -> (t: Tank)
        requires
            i < MAX_SEATS,
            well_found(*o),
            on_grid(o.cell_of, lay.reach),
        ensures
            seat_piece(*o, *setup, *lay, i as int, placed@, t.as_piece()),
            t.owner == Owner::Player(i as u8),
            t.mind is None,
    {
        let roll = &o.roll_row;
        let random = || -> (row: i32)
            requires
                call_requires(roll, (i,)),
            ensures
                call_ensures(roll, (i,), row),
        { roll(i) };
        let (cli, knob, map): (Option<i32>, i32, Option<TankKind>) = if i == 0 {
            (setup.player_row, setup.row_knob, setup.map_tank)
        } else if i == 1 {
            (setup.player2_row, -1, setup.map_tank2)
        } else {
            (None, -1, None)
        };
        let row: i32 = resolve_player_row(cli, knob, map, random);
        let spot: SeatSpot = (o.seat)(i, row);
        let to: Point = Self::seat_place(setup, lay, o, i, placed, &spot);
        let owner: Owner = Owner::Player(i as u8);
        let t: Tank = roll_shield(
            Tank { owner, row, position: to, mind: None, ..spot.tank },
            &setup.kit,
            &o.kit,
        );
        proof {
            let bare = Tank { owner, row, position: to, mind: None, ..spot.tank };
            let up = choose|up: bool| #[trigger]
                call_ensures(o.kit, (Draw::Shield,), up) && t == shielded(bare, up, setup.kit);
            assert(row_given(o.roll_row, *setup, i as int, row));
            assert(call_ensures(o.seat, (i, row), spot));
            assert(seat_start(
                o.cell_of,
                o.center,
                o.dist,
                *setup,
                *lay,
                i as int,
                placed@,
                spot,
                to,
            ));
            assert(call_ensures(o.kit, (Draw::Shield,), up));
        }
        t
    }

    /// Put a seat's tank down, on the chassis it is given.
    fn lay_seat<
        P: Fn(usize) -> i32,
        S: Fn(usize, i32) -> SeatSpot,
        E: Fn(usize, i32, Role) -> EnemySpot,
        N: Fn() -> usize,
        H: Fn() -> bool,
        F: Fn(Side) -> FrogSpot,
        A: Fn(Point) -> Vec<Site>,
        X: Fn(Point, Point) -> bool,
        Y: Fn(Point, Point) -> bool,
        R: Fn(PickupKind) -> bool,
        C: Fn(Point) -> Cell,
        Z: Fn(Cell) -> Point,
        K: Fn(Draw) -> bool,
        D: Fn(Point, Point) -> Scalar,
    >(
        &mut self,
        setup: &Setup,
        lay: &MapLay,
        o: &Layout<P, S, E, N, H, F, A, X, Y, R, C, Z, K, D>,
        i: usize,
        placed: &Vec<Point>,
    ) -> (r: (Point, Ghost<(u64, Piece)>))
        requires
            old(self).wf(),
            old(self).field.has_room(),
            i < old(self).round.players.seated() <= MAX_SEATS,
            well_found(*o),
            on_grid(o.cell_of, lay.reach),
        ensures
            final(self).wf(),
            r.0 == place_of(r.1@.1),
            final(self).keeps_surroundings(old(self)),
            final(self).events == old(self).events,
            put_down(old(self).field@, final(self).field@, seq![r.1@]),
            r.1@.1 is Tank,
            final(self).field@.dom().len() == old(self).field@.dom().len() + 1,
            seat_piece(*o, *setup, *lay, i as int, placed@, r.1@.1),
            final(self).round.seats@ == old(self).round.seats@.update(i as int, Some(r.1@.0)),
            final(self).round == (Round { seats: final(self).round.seats, ..old(self).round }),
    {
        let t: Tank = Self::seat_for(setup, lay, o, i, placed);
        let ghost before = self.field@;
        let entity: u64 = self.seat_tank(i, t);
        let ghost piece = t.as_piece();
        proof {
            assert(Tank { owner: Owner::Player(i as u8), mind: None, ..t } == t);
            lemma_one_down(before, entity, piece);
        }
        (t.position, Ghost((entity, piece)))
    }

    /// Put the map's tiles down as they come.
    fn lay_tiles(&mut self, tiles: &Vec<Tile>) -> (laid: Ghost<Seq<(u64, Piece)>>)
        requires
            old(self).wf(),
            old(self).field@.dom().len() + tiles@.len() < u32::MAX,
        ensures
            final(self).wf(),
            final(self).keeps_surroundings(old(self)),
            final(self).events == old(self).events,
            final(self).round == old(self).round,
            put_down(old(self).field@, final(self).field@, laid@),
            tiles_raw(tiles@, laid@),
            final(self).field@.dom().len() == old(self).field@.dom().len() + tiles@.len(),
    {
        let ghost start = self.field@;
        let ghost mut laid: Seq<(u64, Piece)> = Seq::empty();
        proof {
            lemma_none_down(start);
        }
        let mut n: usize = 0;
        while n < tiles.len()
            invariant
                n <= tiles@.len(),
                start == old(self).field@,
                start.dom().len() + tiles@.len() < u32::MAX,
                self.wf(),
                self.keeps_surroundings(old(self)),
                self.events == old(self).events,
                self.round == old(self).round,
                put_down(start, self.field@, laid),
                laid.len() == n,
                forall|k: int| 0 <= k < n ==> (#[trigger] laid[k]).1 == tiles@[k].as_piece(),
                self.field@.dom().len() == start.dom().len() + n,
            decreases tiles@.len() - n,
        {
            let ghost mid = self.field@;
            let ghost were = laid;
            let entity: u64 = self.field.spawn(tiles[n]);
            proof {
                let piece = tiles@[n as int].as_piece();
                lemma_one_down(mid, entity, piece);
                lemma_more_down(start, mid, self.field@, laid, seq![(entity, piece)]);
                laid = laid + seq![(entity, piece)];
                assert forall|k: int| 0 <= k < n + 1 implies (#[trigger] laid[k]).1
                    == tiles@[k].as_piece() by {
                    if k < n {
                        assert(laid[k] == were[k]);
                    }
                }
            }
            n += 1;
        }
        Ghost(laid)
    }

    /// Put the map's tiles down and work out which faces of the walls show.
    fn lay_terrain(&mut self, tiles: &Vec<Tile>) -> (laid: Ghost<Seq<(u64, Piece)>>)
        requires
            old(self).wf(),
            old(self).field@.dom().len() + tiles@.len() < u32::MAX,
            forall|id: u64| #[trigger]
                old(self).field@.contains_key(id) ==> !(old(self).field@[id] is Tile),
        ensures
            final(self).wf(),
            final(self).keeps_surroundings(old(self)),
            final(self).events == old(self).events,
            final(self).round == old(self).round,
            put_down(old(self).field@, final(self).field@, laid@),
            tiles_down(tiles@, laid@),
            final(self).field@.dom().len() == old(self).field@.dom().len() + tiles@.len(),
    {
        let raw: Ghost<Seq<(u64, Piece)>> = self.lay_tiles(tiles);
        let ghost down = self.field@;
        refresh_edge_masks(&mut self.field);
        let ghost laid = Seq::new(
            raw@.len(),
            |k: int| (raw@[k].0, faced(raw@[k].1, standing_walls(tiles@))),
        );
        proof {
            lemma_faced_down(old(self).field@, down, tiles@, raw@, laid);
            assert(self.field@.dom() =~= down.dom());
            assert(keeps_identities(down, self.field@));
            lemma_identities(self.round, down, self.field@);
        }
        Ghost(laid)
    }

    /// Put the seats past the first down.
    fn lay_others<
        P: Fn(usize) -> i32,
        S: Fn(usize, i32) -> SeatSpot,
        E: Fn(usize, i32, Role) -> EnemySpot,
        N: Fn() -> usize,
        H: Fn() -> bool,
        F: Fn(Side) -> FrogSpot,
        A: Fn(Point) -> Vec<Site>,
        X: Fn(Point, Point) -> bool,
        Y: Fn(Point, Point) -> bool,
        R: Fn(PickupKind) -> bool,
        C: Fn(Point) -> Cell,
        Z: Fn(Cell) -> Point,
        K: Fn(Draw) -> bool,
        D: Fn(Point, Point) -> Scalar,
    >(
        &mut self,
        setup: &Setup,
        lay: &MapLay,
        o: &Layout<P, S, E, N, H, F, A, X, Y, R, C, Z, K, D>,
        first: Point,
    ) -> (laid: Ghost<Seq<(u64, Piece)>>)
        requires
            old(self).wf(),
            old(self).field@.dom().len() + MAX_SEATS < u32::MAX,
            well_found(*o),
            on_grid(o.cell_of, lay.reach),
        ensures
            final(self).wf(),
            final(self).keeps_surroundings(old(self)),
            final(self).events == old(self).events,
            put_down(old(self).field@, final(self).field@, laid@),
            laid@.len() == final(self).round.players.seated() - 1,
            laid@.len() < MAX_SEATS,
            final(self).field@.dom().len() == old(self).field@.dom().len() + laid@.len(),
            forall|k: int|
                0 <= k < laid@.len() ==> seat_piece(
                    *o,
                    *setup,
                    *lay,
                    k + 1,
                    (seq![first] + places_of(laid@)).take(k + 1),
                    (#[trigger] laid@[k]).1,
                ),
            forall|k: int|
                0 <= k < laid@.len() ==> final(self).round.seats@[k + 1] == Some(
                    (#[trigger] laid@[k]).0,
                ),
            final(self).round.seats@[0] == old(self).round.seats@[0],
            forall|i: int|
                laid@.len() < i < MAX_SEATS ==> #[trigger] final(self).round.seats@[i]
                    == old(self).round.seats@[i],
            final(self).round == (Round { seats: final(self).round.seats, ..old(self).round }),
    {
        let seated: usize = self.round.players.count();
        let ghost start = self.field@;
        let ghost mut laid: Seq<(u64, Piece)> = Seq::empty();
        proof {
            lemma_none_down(start);
        }
        let mut placed: Vec<Point> = Vec::new();
        placed.push(first);
        assert(placed@ =~= seq![first] + places_of(laid));
        let mut i: usize = 1;
        while i < seated
            invariant
                placed@ == seq![first] + places_of(laid),
                1 <= i <= seated <= MAX_SEATS,
                seated == self.round.players.seated(),
                start == old(self).field@,
                start.dom().len() + MAX_SEATS < u32::MAX,
                well_found(*o),
                on_grid(o.cell_of, lay.reach),
                self.wf(),
                self.keeps_surroundings(old(self)),
                self.events == old(self).events,
                put_down(start, self.field@, laid),
                laid.len() == i - 1,
                self.field@.dom().len() == start.dom().len() + laid.len(),
                forall|k: int|
                    0 <= k < laid.len() ==> seat_piece(
                        *o,
                        *setup,
                        *lay,
                        k + 1,
                        (seq![first] + places_of(laid)).take(k + 1),
                        (#[trigger] laid[k]).1,
                    ),
                forall|k: int|
                    0 <= k < laid.len() ==> self.round.seats@[k + 1] == Some(
                        (#[trigger] laid[k]).0,
                    ),
                self.round.seats@[0] == old(self).round.seats@[0],
                forall|j: int|
                    laid.len() < j < MAX_SEATS ==> #[trigger] self.round.seats@[j]
                        == old(self).round.seats@[j],
                self.round == (Round { seats: self.round.seats, ..old(self).round }),
            decreases seated - i,
        {
            let ghost mid = self.field@;
            let ghost were = laid;
            let ghost sat = self.round.seats@;
            let (at, one): (Point, Ghost<(u64, Piece)>) = self.lay_seat(
                setup,
                lay,
                o,
                i,
                &placed,
            );
            placed.push(at);
            proof {
                lemma_more_down(start, mid, self.field@, laid, seq![one@]);
                laid = laid + seq![one@];
                let (now, before) = (
                    seq![first] + places_of(laid),
                    seq![first] + places_of(were),
                );
                assert(placed@ =~= now);
                assert forall|k: int| 0 <= k < laid.len() implies seat_piece(
                    *o,
                    *setup,
                    *lay,
                    k + 1,
                    now.take(k + 1),
                    (#[trigger] laid[k]).1,
                ) by {
                    if k < were.len() {
                        assert(laid[k] == were[k]);
                        assert(now.take(k + 1) =~= before.take(k + 1));
                    } else {
                        assert(now.take(k + 1) =~= before);
                    }
                }
                assert forall|k: int| 0 <= k < laid.len() implies self.round.seats@[k + 1] == Some(
                    (#[trigger] laid[k]).0,
                ) by {
                    if k < were.len() {
                        assert(laid[k] == were[k]);
                        assert(sat[k + 1] == Some(were[k].0));
                    }
                }
            }
            i += 1;
        }
        Ghost(laid)
    }
}

/// Whether a place keeps its distance from all of some places.
fn stays_clear<D: Fn(Point, Point) -> Scalar>(
    dist: &D,
    clearance: Scalar,
    p: Point,
    taken: &Vec<Point>,
) -> (yes: bool)
    requires
        forall|a: Point, b: Point| call_requires(*dist, (a, b)),
    ensures
        apart_from_all(*dist, clearance, p, taken@, yes),
{
    let mut i: usize = 0;
    while i < taken.len()
        invariant
            i <= taken@.len(),
            forall|a: Point, b: Point| call_requires(*dist, (a, b)),
            forall|k: int|
                0 <= k < i ==> apart_by(*dist, clearance, p, #[trigger] taken@[k], true),
        decreases taken@.len() - i,
    {
        let q: Point = taken[i];
        let d: Scalar = dist(p, q);
        let far: bool = clearance.le(d);
        assert(call_ensures(*dist, (p, q), d) && far == clearance.at_most(d));
        assert(apart_by(*dist, clearance, p, taken@[i as int], far));
        if !far {
            return false;
        }
        i += 1;
    }
    true
}

/// All of some places but the first.
fn rest_of(places: &Vec<Point>) -> (rest: Vec<Point>)
    requires
        places@.len() >= 1,
    ensures
        rest@ == places@.skip(1),
{
    let mut rest: Vec<Point> = Vec::new();
    let mut i: usize = 1;
    assert(rest@ =~= Seq::<Point>::empty());
    while i < places.len()
        invariant
            1 <= i <= places@.len(),
            rest@.len() == i - 1,
            forall|k: int| 0 <= k < i - 1 ==> rest@[k] == places@[k + 1],
        decreases places@.len() - i,
    {
        rest.push(places[i]);
        i += 1;
    }
    assert(rest@ =~= places@.skip(1));
    rest
}

/// Where something goes.
fn settle<D: Fn(Point, Point) -> Scalar>(
    dist: &D,
    setup: &Setup,
    seats: &Vec<Point>,
    enemies: &Vec<Point>,
    frogs: &Vec<Point>,
    samples: &Vec<Sample>,
    own: Point,
) -> (to: Point)
    requires
        forall|a: Point, b: Point| call_requires(*dist, (a, b)),
    ensures
        settled(
            *dist,
            *setup,
            Taken { seats: seats@, enemies: enemies@, frogs: frogs@ },
            samples@,
            own,
            to,
        ),
{
    let ghost taken = Taken { seats: seats@, enemies: enemies@, frogs: frogs@ };
    let mut i: usize = 0;
    while i < samples.len()
        invariant
            i <= samples@.len(),
            taken == (Taken { seats: seats@, enemies: enemies@, frogs: frogs@ }),
            forall|a: Point, b: Point| call_requires(*dist, (a, b)),
            forall|k: int|
                0 <= k < i ==> sample_does(
                    *dist,
                    *setup,
                    taken,
                    #[trigger] samples@[k],
                    false,
                ),
        decreases samples@.len() - i,
    {
        let sample: Sample = samples[i];
        if sample.legal {
            let of_seats: bool = stays_clear(dist, setup.seat_spacing, sample.at, seats);
            let of_enemies: bool = stays_clear(dist, setup.enemy_spacing, sample.at, enemies);
            let of_frogs: bool = stays_clear(dist, setup.frog_spacing, sample.at, frogs);
            if of_seats && of_enemies && of_frogs {
                assert(sample_does(*dist, *setup, taken, samples@[i as int], true));
                return sample.at;
            }
        }
        i += 1;
    }
    own
}

impl Game {
    /// How many enemies the band has.
    fn band_count<
        P: Fn(usize) -> i32,
        S: Fn(usize, i32) -> SeatSpot,
        E: Fn(usize, i32, Role) -> EnemySpot,
        N: Fn() -> usize,
        H: Fn() -> bool,
        F: Fn(Side) -> FrogSpot,
        A: Fn(Point) -> Vec<Site>,
        X: Fn(Point, Point) -> bool,
        Y: Fn(Point, Point) -> bool,
        R: Fn(PickupKind) -> bool,
        C: Fn(Point) -> Cell,
        Z: Fn(Cell) -> Point,
        K: Fn(Draw) -> bool,
        D: Fn(Point, Point) -> Scalar,
    >(setup: &Setup, o: &Layout<P, S, E, N, H, F, A, X, Y, R, C, Z, K, D>) -> (n: usize)
        requires
            well_found(*o),
        ensures
            n <= BAND_CAP,
            band_of(o.count, *setup, n as int),
    {
        let count = &o.count;
        let roll = || -> (k: usize)
            requires
                call_requires(count, ()),
            ensures
                call_ensures(count, (), k),
        { count() };
        band_size(setup.spawn_plan, setup.map_tanks, roll)
    }

    /// What the next enemy is after.
    fn next_role<
        P: Fn(usize) -> i32,
        S: Fn(usize, i32) -> SeatSpot,
        E: Fn(usize, i32, Role) -> EnemySpot,
        N: Fn() -> usize,
        H: Fn() -> bool,
        F: Fn(Side) -> FrogSpot,
        A: Fn(Point) -> Vec<Site>,
        X: Fn(Point, Point) -> bool,
        Y: Fn(Point, Point) -> bool,
        R: Fn(PickupKind) -> bool,
        C: Fn(Point) -> Cell,
        Z: Fn(Cell) -> Point,
        K: Fn(Draw) -> bool,
        D: Fn(Point, Point) -> Scalar,
    >(setup: &Setup, o: &Layout<P, S, E, N, H, F, A, X, Y, R, C, Z, K, D>) -> (role: Role)
        requires
            well_found(*o),
        ensures
            role_given(o.hunts, *setup, role),
    {
        let hunts = &o.hunts;
        let roll = || -> (h: bool)
            requires
                call_requires(hunts, ()),
            ensures
                call_ensures(hunts, (), h),
        { hunts() };
        roll_role(setup.mission, setup.hunter_share, roll)
    }

    /// Where the seats' tanks stand.
    fn seat_places(&self) -> (places: Vec<Point>)
        requires
            self.wf(),
            self.round.players.seated() <= MAX_SEATS,
            forall|i: int|
                0 <= i < self.round.players.seated() ==> #[trigger] self.round.seats@[i] is Some,
        ensures
            places@.len() == self.round.players.seated(),
            forall|i: int|
                0 <= i < places@.len() ==> #[trigger] places@[i] == place_of(
                    self.field@[self.round.seats@[i]->0],
                ),
    {
        let seated: usize = self.round.players.count();
        let mut places: Vec<Point> = Vec::new();
        let mut i: usize = 0;
        while i < seated
            invariant
                i <= seated == self.round.players.seated(),
                seated <= MAX_SEATS,
                self.wf(),
                forall|k: int|
                    0 <= k < seated ==> #[trigger] self.round.seats@[k] is Some,
                places@.len() == i,
                forall|k: int|
                    0 <= k < i ==> #[trigger] places@[k] == place_of(
                        self.field@[self.round.seats@[k]->0],
                    ),
            decreases seated - i,
        {
            assert(self.round.seats@[i as int] is Some);
            if let Some(e) = self.round.seats[i] {
                let tank: Option<Tank> = self.field.get(e);
                assert(thing::<Tank>(self.field@, e) is Some);
                if let Some(t) = tank {
                    places.push(t.position);
                }
            }
            i += 1;
        }
        places
    }

    /// The next enemy of the band, but for its slot.
    #[verifier::spinoff_prover]
    fn enemy_for<
        P: Fn(usize) -> i32,
        S: Fn(usize, i32) -> SeatSpot,
        E: Fn(usize, i32, Role) -> EnemySpot,
        N: Fn() -> usize,
        H: Fn() -> bool,
        F: Fn(Side) -> FrogSpot,
        A: Fn(Point) -> Vec<Site>,
        X: Fn(Point, Point) -> bool,
        Y: Fn(Point, Point) -> bool,
        R: Fn(PickupKind) -> bool,
        C: Fn(Point) -> Cell,
        Z: Fn(Cell) -> Point,
        K: Fn(Draw) -> bool,
        D: Fn(Point, Point) -> Scalar,
    >(
        setup: &Setup,
        o: &Layout<P, S, E, N, H, F, A, X, Y, R, C, Z, K, D>,
        first: usize,
        k: usize,
        seats: &Vec<Point>,
        placed: &Vec<Point>,
    ) -> (out: Tank)
        requires
            first + k <= usize::MAX,
            well_found(*o),
            carries(o.enemy, setup.kit),
        ensures
            out.mind is Some,
            enemy_piece(
                o.enemy,
                o.hunts,
                o.kit,
                o.dist,
                *setup,
                first as int,
                k as int,
                seats@,
                placed@,
                (Tank { owner: Owner::Enemy((first + k) as usize), ..out }).as_piece(),
            ),
    {
        let row: i32 = enemy_row(k);
        let role: Role = Self::next_role(setup, o);
        let spot: EnemySpot = (o.enemy)(k, row, role);
        let to: Point = settle(
            &o.dist,
            setup,
            seats,
            placed,
            &Vec::new(),
            &spot.samples,
            spot.tank.position,
        );
        let kitted_out: Tank = roll_enemy_tank(spot.tank, &setup.kit, &o.kit);
        let mind: Mind = Mind { role, target_player: 0, hit_alerted: false, retreating: false };
        let out: Tank = Tank { row, position: to, mind: Some(mind), ..kitted_out };
        proof {
            assert(kitted(o.kit, setup.kit, spot.tank, kitted_out));
            assert(call_ensures(o.enemy, (k, sprite_order()[k as int % 12], role), spot));
            assert(settled(
                o.dist,
                *setup,
                Taken { seats: seats@, enemies: placed@, frogs: Seq::empty() },
                spot.samples@,
                spot.tank.position,
                to,
            ));
        }
        out
    }

    /// Put the band down.
    fn lay_enemies<
        P: Fn(usize) -> i32,
        S: Fn(usize, i32) -> SeatSpot,
        E: Fn(usize, i32, Role) -> EnemySpot,
        N: Fn() -> usize,
        H: Fn() -> bool,
        F: Fn(Side) -> FrogSpot,
        A: Fn(Point) -> Vec<Site>,
        X: Fn(Point, Point) -> bool,
        Y: Fn(Point, Point) -> bool,
        R: Fn(PickupKind) -> bool,
        C: Fn(Point) -> Cell,
        Z: Fn(Cell) -> Point,
        K: Fn(Draw) -> bool,
        D: Fn(Point, Point) -> Scalar,
    >(
        &mut self,
        setup: &Setup,
        o: &Layout<P, S, E, N, H, F, A, X, Y, R, C, Z, K, D>,
        n: usize,
        seats: &Vec<Point>,
    ) -> (r: (Vec<Point>, Ghost<Seq<(u64, Piece)>>))
        requires
            old(self).wf(),
            n <= BAND_CAP,
            old(self).field@.dom().len() + BAND_CAP < u32::MAX,
            well_found(*o),
            carries(o.enemy, setup.kit),
        ensures
            final(self).wf(),
            r.0@ == places_of(r.1@),
            final(self).keeps_surroundings(old(self)),
            final(self).events == old(self).events,
            final(self).round == old(self).round,
            put_down(old(self).field@, final(self).field@, r.1@),
            r.1@.len() == n,
            final(self).field@.dom().len() == old(self).field@.dom().len() + n,
            enemies_down(
                o.enemy,
                o.hunts,
                o.kit,
                o.dist,
                *setup,
                old(self).round.players.seated(),
                seats@,
                r.1@,
            ),
    {
        let first: usize = self.first_enemy_slot();
        let ghost start = self.field@;
        let ghost mut laid: Seq<(u64, Piece)> = Seq::empty();
        proof {
            lemma_none_down(start);
        }
        let mut placed: Vec<Point> = Vec::new();
        assert(placed@ =~= places_of(laid));
        let mut k: usize = 0;
        while k < n
            invariant
                placed@ == places_of(laid),
                k <= n <= BAND_CAP,
                first == old(self).round.players.seated(),
                first <= MAX_SEATS,
                start == old(self).field@,
                start.dom().len() + BAND_CAP < u32::MAX,
                well_found(*o),
                carries(o.enemy, setup.kit),
                self.wf(),
                self.keeps_surroundings(old(self)),
                self.events == old(self).events,
                self.round == old(self).round,
                put_down(start, self.field@, laid),
                laid.len() == k,
                self.field@.dom().len() == start.dom().len() + k,
                enemies_down(
                    o.enemy,
                    o.hunts,
                    o.kit,
                    o.dist,
                    *setup,
                    first as int,
                    seats@,
                    laid,
                ),
            decreases n - k,
        {
            let ghost mid = self.field@;
            let ghost were = laid;
            let out: Tank = Self::enemy_for(setup, o, first, k, seats, &placed);
            placed.push(out.position);
            let entity: u64 = self.place_enemy(first + k, out);
            proof {
                let piece = (Tank {
                    owner: Owner::Enemy((first + k) as usize),
                    ..out
                }).as_piece();
                lemma_one_down(mid, entity, piece);
                lemma_more_down(start, mid, self.field@, laid, seq![(entity, piece)]);
                laid = laid + seq![(entity, piece)];
                assert(placed@ =~= places_of(laid));
                assert forall|j: int| 0 <= j < laid.len() implies enemy_piece(
                    o.enemy,
                    o.hunts,
                    o.kit,
                    o.dist,
                    *setup,
                    first as int,
                    j,
                    seats@,
                    places_of(laid).take(j),
                    (#[trigger] laid[j]).1,
                ) by {
                    if j < were.len() {
                        assert(laid[j] == were[j]);
                        assert(places_of(laid).take(j) =~= places_of(were).take(j));
                    } else {
                        assert(places_of(laid).take(j) =~= places_of(were));
                    }
                }
            }
            k += 1;
        }
        (placed, Ghost(laid))
    }

    /// Put the frogs down that the mission has. The players' place is rolled in
    /// any mission, so that the missions draw alike.
    fn lay_frogs<
        P: Fn(usize) -> i32,
        S: Fn(usize, i32) -> SeatSpot,
        E: Fn(usize, i32, Role) -> EnemySpot,
        N: Fn() -> usize,
        H: Fn() -> bool,
        F: Fn(Side) -> FrogSpot,
        A: Fn(Point) -> Vec<Site>,
        X: Fn(Point, Point) -> bool,
        Y: Fn(Point, Point) -> bool,
        R: Fn(PickupKind) -> bool,
        C: Fn(Point) -> Cell,
        Z: Fn(Cell) -> Point,
        K: Fn(Draw) -> bool,
        D: Fn(Point, Point) -> Scalar,
    >(
        &mut self,
        setup: &Setup,
        o: &Layout<P, S, E, N, H, F, A, X, Y, R, C, Z, K, D>,
        seats: &Vec<Point>,
        enemies: &Vec<Point>,
    ) -> (laid: Ghost<Seq<(u64, Piece)>>)
        requires
            old(self).wf(),
            old(self).field@.dom().len() + 2 < u32::MAX,
            old(self).round.frog is None,
            old(self).round.enemy_frog is None,
            old(self).round.mission == setup.mission,
            seats@.len() >= 1,
            well_found(*o),
        ensures
            final(self).wf(),
            final(self).keeps_surroundings(old(self)),
            final(self).events == old(self).events,
            put_down(old(self).field@, final(self).field@, laid@),
            final(self).field@.dom().len() <= old(self).field@.dom().len() + 2,
            frogs_down(
                o.frog,
                o.dist,
                *setup,
                seats@,
                enemies@,
                final(self).round.frog,
                final(self).round.enemy_frog,
                laid@,
            ),
            final(self).round == (Round {
                frog: final(self).round.frog,
                enemy_frog: final(self).round.enemy_frog,
                ..old(self).round
            }),
    {
        let ghost start = self.field@;
        let others: Vec<Point> = rest_of(seats);
        let none: Vec<Point> = Vec::new();
        assert(none@ =~= Seq::<Point>::empty());
        let a: FrogSpot = (o.frog)(Side::Player);
        let to: Point = settle(&o.dist, setup, &others, enemies, &none, &a.samples, a.at);
        let ours: Option<u64> = self.spawn_frog(Side::Player, to, a.variant, a.health);
        let ghost mid = self.field@;
        let ghost first = frog_of(ours, Side::Player, a, to);
        proof {
            lemma_none_down(start);
            if let Some(e) = ours {
                lemma_one_down(start, e, frog_piece(Side::Player, a, to));
            }
            assert(put_down(start, mid, first));
        }
        let ghost mut b: FrogSpot = a;
        let ghost mut there: Point = to;
        let mut theirs: Option<u64> = None;
        if self.round.mission.has_enemy_frog() {
            let spot: FrogSpot = (o.frog)(Side::Enemy);
            let mut own: Vec<Point> = Vec::new();
            own.push(to);
            assert(own@ =~= seq![to]);
            let at: Point = settle(&o.dist, setup, seats, enemies, &own, &spot.samples, spot.at);
            theirs = self.spawn_frog(Side::Enemy, at, spot.variant, spot.health);
            proof {
                b = spot;
                there = at;
            }
        }
        let ghost second = frog_of(theirs, Side::Enemy, b, there);
        proof {
            lemma_none_down(mid);
            if let Some(e) = theirs {
                lemma_one_down(mid, e, frog_piece(Side::Enemy, b, there));
            }
            assert(put_down(mid, self.field@, second));
            lemma_more_down(start, mid, self.field@, first, second);
            assert(frogs_settled(
                o.frog,
                o.dist,
                *setup,
                seats@,
                enemies@,
                theirs is Some,
                a,
                b,
                to,
                there,
            ));
        }
        Ghost(first + second)
    }

    /// Stock every slot.
    fn lay_pickups(&mut self, slots: &Vec<PickupSlot>) -> (laid: Ghost<Seq<(u64, Piece)>>)
        requires
            old(self).wf(),
            old(self).field@.dom().len() + slots@.len() < u32::MAX,
        ensures
            final(self).wf(),
            final(self).keeps_surroundings(old(self)),
            final(self).events == old(self).events,
            final(self).round == old(self).round,
            put_down(old(self).field@, final(self).field@, laid@),
            slots_stocked(slots@, laid@),
            final(self).field@.dom().len() == old(self).field@.dom().len() + slots@.len(),
    {
        let ghost start = self.field@;
        let ghost mut laid: Seq<(u64, Piece)> = Seq::empty();
        proof {
            lemma_none_down(start);
        }
        let mut n: usize = 0;
        while n < slots.len()
            invariant
                n <= slots@.len(),
                start == old(self).field@,
                start.dom().len() + slots@.len() < u32::MAX,
                self.wf(),
                self.keeps_surroundings(old(self)),
                self.events == old(self).events,
                self.round == old(self).round,
                put_down(start, self.field@, laid),
                laid.len() == n,
                forall|k: int|
                    0 <= k < n ==> (#[trigger] laid[k]).1 == (Pickup {
                        kind: slots@[k].kind,
                        position: slots@[k].at,
                    }).as_piece(),
                self.field@.dom().len() == start.dom().len() + n,
            decreases slots@.len() - n,
        {
            let ghost mid = self.field@;
            let ghost were = laid;
            let entity: u64 = self.spawn_pickup_at(slots[n].at, slots[n].kind);
            proof {
                let piece = (Pickup {
                    kind: slots@[n as int].kind,
                    position: slots@[n as int].at,
                }).as_piece();
                lemma_one_down(mid, entity, piece);
                lemma_more_down(start, mid, self.field@, laid, seq![(entity, piece)]);
                laid = laid + seq![(entity, piece)];
                assert forall|k: int| 0 <= k < n + 1 implies (#[trigger] laid[k]).1 == (Pickup {
                    kind: slots@[k].kind,
                    position: slots@[k].at,
                }).as_piece() by {
                    if k < n {
                        assert(laid[k] == were[k]);
                    }
                }
            }
            n += 1;
        }
        Ghost(laid)
    }

    /// Roll the bonuses of the health slots.
    fn lay_bonuses<
        P: Fn(usize) -> i32,
        S: Fn(usize, i32) -> SeatSpot,
        E: Fn(usize, i32, Role) -> EnemySpot,
        N: Fn() -> usize,
        H: Fn() -> bool,
        F: Fn(Side) -> FrogSpot,
        A: Fn(Point) -> Vec<Site>,
        X: Fn(Point, Point) -> bool,
        Y: Fn(Point, Point) -> bool,
        R: Fn(PickupKind) -> bool,
        C: Fn(Point) -> Cell,
        Z: Fn(Cell) -> Point,
        K: Fn(Draw) -> bool,
        D: Fn(Point, Point) -> Scalar,
    >(
        &mut self,
        slots: &Vec<PickupSlot>,
        o: &Layout<P, S, E, N, H, F, A, X, Y, R, C, Z, K, D>,
        rng: &mut SmallRng,
    ) -> (stages: Ghost<Seq<Map<u64, Piece>>>)
        requires
            old(self).wf(),
            old(self).field@.dom().len() + 2 * slots@.len() + 2 < u32::MAX,
            well_found(*o),
        ensures
            final(self).wf(),
            final(self).keeps_surroundings(old(self)),
            final(self).events == old(self).events,
            final(self).round == old(self).round,
            bonuses_done(
                o.around,
                o.same,
                o.beside,
                o.bonus,
                slots@,
                stages@,
                slots@.len() as int,
            ),
            stages@[0] == old(self).field@,
            stages@.last() == final(self).field@,
            bonuses_only(old(self).field@, final(self).field@),
    {
        let ghost start = self.field@;
        let ghost mut stages: Seq<Map<u64, Piece>> = seq![start];
        let mut n: usize = 0;
        while n < slots.len()
            invariant
                n <= slots@.len(),
                start == old(self).field@,
                start.dom().len() + 2 * slots@.len() + 2 < u32::MAX,
                well_found(*o),
                self.wf(),
                self.keeps_surroundings(old(self)),
                self.events == old(self).events,
                self.round == old(self).round,
                self.field@.dom().len() <= start.dom().len() + 2 * n,
                bonuses_done(o.around, o.same, o.beside, o.bonus, slots@, stages, n as int),
                stages[0] == start,
                stages.last() == self.field@,
                bonuses_only(start, self.field@),
            decreases slots@.len() - n,
        {
            let ghost mid = self.field@;
            let ghost were = stages;
            if slots[n].kind == PickupKind::Health {
                let sites: Vec<Site> = (o.around)(slots[n].at);
                self.maybe_spawn_health_slot_bonuses(
                    slots[n].at,
                    false,
                    &sites,
                    &o.same,
                    &o.beside,
                    &o.bonus,
                    rng,
                );
                assert(call_ensures(o.around, (slots@[n as int].at,), sites));
            }
            proof {
                lemma_bonuses_only(start, mid, self.field@);
                stages = stages.push(self.field@);
                assert(bonus_stage(
                    o.around,
                    o.same,
                    o.beside,
                    o.bonus,
                    slots@[n as int],
                    mid,
                    self.field@,
                ));
                assert forall|k: int| 0 <= k < n + 1 implies bonus_stage(
                    o.around,
                    o.same,
                    o.beside,
                    o.bonus,
                    slots@[k],
                    #[trigger] stages[k],
                    stages[k + 1],
                ) by {
                    if k < n {
                        assert(stages[k] == were[k] && stages[k + 1] == were[k + 1]);
                    }
                }
            }
            n += 1;
        }
        Ghost(stages)
    }
}

/// A round laid out, before its bonuses: every seat there is holds its tank, the
/// map lies, the band stands in its slots, the mission has its frogs and every
/// slot its pickup; and nothing else is on the field.
pub open spec fn laid_out<
    P: Fn(usize) -> i32,
    S: Fn(usize, i32) -> SeatSpot,
    E: Fn(usize, i32, Role) -> EnemySpot,
    N: Fn() -> usize,
    H: Fn() -> bool,
    F: Fn(Side) -> FrogSpot,
    A: Fn(Point) -> Vec<Site>,
    X: Fn(Point, Point) -> bool,
    Y: Fn(Point, Point) -> bool,
    R: Fn(PickupKind) -> bool,
    C: Fn(Point) -> Cell,
    Z: Fn(Cell) -> Point,
    K: Fn(Draw) -> bool,
    D: Fn(Point, Point) -> Scalar,
>(
    o: Layout<P, S, E, N, H, F, A, X, Y, R, C, Z, K, D>,
    setup: Setup,
    lay: MapLay,
    round: Round,
    opening: Opening,
    field: Map<u64, Piece>,
) -> bool {
    &&& put_down(no_pieces(), field, opening.all())
    &&& opening.seats.len() == round.players.seated()
    &&& forall|i: int|
        0 <= i < opening.seats.len() ==> seat_piece(
            o,
            setup,
            lay,
            i,
            places_of(opening.seats).take(i),
            (#[trigger] opening.seats[i]).1,
        ) && round.seats@[i] == Some(opening.seats[i].0)
    &&& forall|i: int|
        opening.seats.len() <= i < MAX_SEATS ==> #[trigger] round.seats@[i] is None
    &&& tiles_down(lay.tiles@, opening.tiles)
    &&& opening.enemies.len() == round.band_enemy_count
    &&& round.band_enemy_count <= BAND_CAP
    &&& band_of(o.count, setup, round.band_enemy_count as int)
    &&& enemies_down(
        o.enemy,
        o.hunts,
        o.kit,
        o.dist,
        setup,
        round.players.seated(),
        places_of(opening.seats),
        opening.enemies,
    )
    &&& frogs_down(
        o.frog,
        o.dist,
        setup,
        places_of(opening.seats),
        places_of(opening.enemies),
        round.frog,
        round.enemy_frog,
        opening.frogs,
    )
    &&& slots_stocked(lay.slots@, opening.pickups)
}

/// A round set up: laid out, and its bonuses rolled over what lies.
pub open spec fn set_up<
    P: Fn(usize) -> i32,
    S: Fn(usize, i32) -> SeatSpot,
    E: Fn(usize, i32, Role) -> EnemySpot,
    N: Fn() -> usize,
    H: Fn() -> bool,
    F: Fn(Side) -> FrogSpot,
    A: Fn(Point) -> Vec<Site>,
    X: Fn(Point, Point) -> bool,
    Y: Fn(Point, Point) -> bool,
    R: Fn(PickupKind) -> bool,
    C: Fn(Point) -> Cell,
    Z: Fn(Cell) -> Point,
    K: Fn(Draw) -> bool,
    D: Fn(Point, Point) -> Scalar,
>(
    o: Layout<P, S, E, N, H, F, A, X, Y, R, C, Z, K, D>,
    setup: Setup,
    lay: MapLay,
    round: Round,
    opening: Opening,
    stages: Seq<Map<u64, Piece>>,
    field: Map<u64, Piece>,
) -> bool {
    &&& laid_out(o, setup, lay, round, opening, stages[0])
    &&& bonuses_done(
        o.around,
        o.same,
        o.beside,
        o.bonus,
        lay.slots@,
        stages,
        lay.slots@.len() as int,
    )
    &&& stages.last() == field
    &&& bonuses_only(stages[0], field)
}

/// The thing under a name is one that was put down, or a bonus.
proof fn lemma_from_opening(
    all: Seq<(u64, Piece)>,
    laid: Map<u64, Piece>,
    field: Map<u64, Piece>,
    id: u64,
) -> (i: int)
    requires
        put_down(no_pieces(), laid, all),
        bonuses_only(laid, field),
        thing::<Tank>(field, id) is Some,
    ensures
        0 <= i < all.len(),
        all[i] == (id, field[id]),
{
    lemma_with_all(no_pieces(), all, all.len() as int);
    assert(field.contains_key(id));
    assert(laid.contains_key(id));
    let i = choose|i: int| 0 <= i < all.len() && (#[trigger] all[i]).0 == id;
    assert(all[i].0 == id);
    i
}

/// Where a tank of the opening stands: in a seat, or in the band.
proof fn lemma_tank_place<
    P: Fn(usize) -> i32,
    S: Fn(usize, i32) -> SeatSpot,
    E: Fn(usize, i32, Role) -> EnemySpot,
    N: Fn() -> usize,
    H: Fn() -> bool,
    F: Fn(Side) -> FrogSpot,
    A: Fn(Point) -> Vec<Site>,
    X: Fn(Point, Point) -> bool,
    Y: Fn(Point, Point) -> bool,
    R: Fn(PickupKind) -> bool,
    C: Fn(Point) -> Cell,
    Z: Fn(Cell) -> Point,
    K: Fn(Draw) -> bool,
    D: Fn(Point, Point) -> Scalar,
>(
    o: Layout<P, S, E, N, H, F, A, X, Y, R, C, Z, K, D>,
    setup: Setup,
    lay: MapLay,
    round: Round,
    opening: Opening,
    stages: Seq<Map<u64, Piece>>,
    field: Map<u64, Piece>,
    id: u64,
)
    requires
        set_up(o, setup, lay, round, opening, stages, field),
        round.players.seated() >= 1,
        round.players.seated() <= MAX_SEATS,
        thing::<Tank>(field, id) is Some,
    ensures
        ({
            let t = thing::<Tank>(field, id)->0;
            ||| {
                &&& t.mind is None
                &&& t.slot() < opening.seats.len()
                &&& opening.seats[t.slot() as int].0 == id
            }
            ||| {
                &&& t.mind is Some
                &&& opening.seats.len() <= t.slot() < opening.seats.len() + opening.enemies.len()
                &&& opening.enemies[t.slot() - opening.seats.len()].0 == id
            }
        }),
{
    let all = opening.all();
    let i = lemma_from_opening(all, stages[0], field, id);
    let a = opening.seats.take(1);
    let b = a + opening.tiles;
    let c = b + opening.seats.skip(1);
    let d = c + opening.enemies;
    let e = d + opening.frogs;
    assert(all == e + opening.pickups);
    let t = thing::<Tank>(field, id)->0;
    let piece = field[id];
    if i < a.len() {
        assert(e[i] == d[i] && d[i] == c[i] && c[i] == b[i] && b[i] == a[i]);
        assert(a[0] == opening.seats[0]);
        assert(seat_piece(
            o,
            setup,
            lay,
            0,
            places_of(opening.seats).take(0),
            opening.seats[0].1,
        ));
    } else if i < b.len() {
        assert(e[i] == d[i] && d[i] == c[i] && c[i] == b[i]);
        assert(b[i] == opening.tiles[i - a.len()]);
    } else if i < c.len() {
        let k = i - b.len();
        assert(e[i] == d[i] && d[i] == c[i]);
        assert(c[i] == opening.seats.skip(1)[k]);
        assert(opening.seats.skip(1)[k] == opening.seats[k + 1]);
        assert(seat_piece(
            o,
            setup,
            lay,
            k + 1,
            places_of(opening.seats).take(k + 1),
            opening.seats[k + 1].1,
        ));
    } else if i < d.len() {
        let k = i - c.len();
        assert(e[i] == d[i]);
        assert(d[i] == opening.enemies[k]);
        assert(enemy_piece(
            o.enemy,
            o.hunts,
            o.kit,
            o.dist,
            setup,
            round.players.seated(),
            k,
            places_of(opening.seats),
            places_of(opening.enemies).take(k),
            opening.enemies[k].1,
        ));
    } else if i < e.len() {
        assert(e[i] == opening.frogs[i - d.len()]);
        let (fa, fb, to, there) = choose|fa: FrogSpot, fb: FrogSpot, to: Point, there: Point|
            {
                &&& #[trigger] frogs_settled(
                    o.frog,
                    o.dist,
                    setup,
                    places_of(opening.seats),
                    places_of(opening.enemies),
                    round.enemy_frog is Some,
                    fa,
                    fb,
                    to,
                    there,
                )
                &&& opening.frogs == frog_of(round.frog, Side::Player, fa, to) + frog_of(
                    round.enemy_frog,
                    Side::Enemy,
                    fb,
                    there,
                )
            };
        let x = frog_of(round.frog, Side::Player, fa, to);
        let j = i - d.len();
        if j < x.len() {
            assert(opening.frogs[j] == x[j]);
        } else {
            assert(opening.frogs[j] == frog_of(
                round.enemy_frog,
                Side::Enemy,
                fb,
                there,
            )[j - x.len()]);
        }
    } else {
        assert(all[i] == opening.pickups[i - e.len()]);
    }
}

/// The seat holds a tank of its own, on the chassis it is given.
pub open spec fn seat_filled<P: Fn(usize) -> i32>(
    roll: P,
    setup: Setup,
    round: Round,
    field: Map<u64, Piece>,
    i: int,
) -> bool {
    round.seats@[i] matches Some(e) && (thing::<Tank>(field, e) matches Some(t) && t.owner
        == Owner::Player(i as u8) && t.mind is None && row_given(roll, setup, i, t.row))
}

/// The enemy placed after `k` others is this one.
pub open spec fn enemy_at<H: Fn() -> bool>(
    hunts: H,
    setup: Setup,
    field: Map<u64, Piece>,
    first: int,
    k: int,
    e: u64,
) -> bool {
    thing::<Tank>(field, e) matches Some(t) && t.owner == Owner::Enemy((first + k) as usize) && t.row
        == sprite_order()[k % 12] && (t.mind matches Some(m) && role_given(hunts, setup, m.role)
        && m == fresh_mind(m.role))
}

/// Somebody was placed after `k` others.
pub open spec fn enemy_placed<H: Fn() -> bool>(
    hunts: H,
    setup: Setup,
    field: Map<u64, Piece>,
    first: int,
    k: int,
) -> bool {
    exists|e: u64| enemy_at(hunts, setup, field, first, k, e)
}

/// What was put down lies there under its name.
proof fn lemma_in_opening(
    all: Seq<(u64, Piece)>,
    laid: Map<u64, Piece>,
    field: Map<u64, Piece>,
    i: int,
)
    requires
        put_down(no_pieces(), laid, all),
        bonuses_only(laid, field),
        0 <= i < all.len(),
    ensures
        field.contains_key(all[i].0),
        field[all[i].0] == all[i].1,
{
    lemma_with_all(no_pieces(), all, all.len() as int);
    assert(laid.contains_key(all[i].0));
}

/// A seat's tank lies there.
proof fn lemma_seat_filled<
    P: Fn(usize) -> i32,
    S: Fn(usize, i32) -> SeatSpot,
    E: Fn(usize, i32, Role) -> EnemySpot,
    N: Fn() -> usize,
    H: Fn() -> bool,
    F: Fn(Side) -> FrogSpot,
    A: Fn(Point) -> Vec<Site>,
    X: Fn(Point, Point) -> bool,
    Y: Fn(Point, Point) -> bool,
    R: Fn(PickupKind) -> bool,
    C: Fn(Point) -> Cell,
    Z: Fn(Cell) -> Point,
    K: Fn(Draw) -> bool,
    D: Fn(Point, Point) -> Scalar,
>(
    o: Layout<P, S, E, N, H, F, A, X, Y, R, C, Z, K, D>,
    setup: Setup,
    lay: MapLay,
    round: Round,
    opening: Opening,
    stages: Seq<Map<u64, Piece>>,
    field: Map<u64, Piece>,
    i: int,
)
    requires
        set_up(o, setup, lay, round, opening, stages, field),
        0 <= i < opening.seats.len(),
    ensures
        seat_filled(o.roll_row, setup, round, field, i),
{
    let all = opening.all();
    let a = opening.seats.take(1);
    let b = a + opening.tiles;
    let c = b + opening.seats.skip(1);
    let d = c + opening.enemies;
    let e = d + opening.frogs;
    assert(all == e + opening.pickups);
    let at = if i == 0 {
        0
    } else {
        b.len() + i - 1
    };
    assert(e[at] == d[at] && d[at] == c[at]);
    if i == 0 {
        assert(c[0] == b[0] && b[0] == a[0] && a[0] == opening.seats[0]);
    } else {
        assert(c[at] == opening.seats.skip(1)[i - 1]);
        assert(opening.seats.skip(1)[i - 1] == opening.seats[i]);
    }
    assert(all[at] == opening.seats[i]);
    lemma_in_opening(all, stages[0], field, at);
    assert(seat_piece(
        o,
        setup,
        lay,
        i,
        places_of(opening.seats).take(i),
        opening.seats[i].1,
    ));
}

/// An enemy of the band lies there.
proof fn lemma_enemy_placed<
    P: Fn(usize) -> i32,
    S: Fn(usize, i32) -> SeatSpot,
    E: Fn(usize, i32, Role) -> EnemySpot,
    N: Fn() -> usize,
    H: Fn() -> bool,
    F: Fn(Side) -> FrogSpot,
    A: Fn(Point) -> Vec<Site>,
    X: Fn(Point, Point) -> bool,
    Y: Fn(Point, Point) -> bool,
    R: Fn(PickupKind) -> bool,
    C: Fn(Point) -> Cell,
    Z: Fn(Cell) -> Point,
    K: Fn(Draw) -> bool,
    D: Fn(Point, Point) -> Scalar,
>(
    o: Layout<P, S, E, N, H, F, A, X, Y, R, C, Z, K, D>,
    setup: Setup,
    lay: MapLay,
    round: Round,
    opening: Opening,
    stages: Seq<Map<u64, Piece>>,
    field: Map<u64, Piece>,
    k: int,
)
    requires
        set_up(o, setup, lay, round, opening, stages, field),
        0 <= k < opening.enemies.len(),
    ensures
        enemy_at(
            o.hunts,
            setup,
            field,
            round.players.seated(),
            k,
            opening.enemies[k].0,
        ),
{
    let all = opening.all();
    let c = opening.seats.take(1) + opening.tiles + opening.seats.skip(1);
    let d = c + opening.enemies;
    let e = d + opening.frogs;
    assert(all == e + opening.pickups);
    let at = c.len() + k;
    assert(e[at] == d[at]);
    assert(all[at] == opening.enemies[k]);
    lemma_in_opening(all, stages[0], field, at);
    assert(enemy_piece(
        o.enemy,
        o.hunts,
        o.kit,
        o.dist,
        setup,
        round.players.seated(),
        k,
        places_of(opening.seats),
        places_of(opening.enemies).take(k),
        opening.enemies[k].1,
    ));
}

/// A round starts with the tanks of its seats and of its band, each in a slot
/// of its own: every seat there is holds one, on the chassis it is given and
/// without a mind; the band fills the slots behind them, one after the other,
/// each on the next chassis of the sprite order and with a mind of its own.
pub proof fn every_tank_has_its_slot<
    P: Fn(usize) -> i32,
    S: Fn(usize, i32) -> SeatSpot,
    E: Fn(usize, i32, Role) -> EnemySpot,
    N: Fn() -> usize,
    H: Fn() -> bool,
    F: Fn(Side) -> FrogSpot,
    A: Fn(Point) -> Vec<Site>,
    X: Fn(Point, Point) -> bool,
    Y: Fn(Point, Point) -> bool,
    R: Fn(PickupKind) -> bool,
    C: Fn(Point) -> Cell,
    Z: Fn(Cell) -> Point,
    K: Fn(Draw) -> bool,
    D: Fn(Point, Point) -> Scalar,
>(
    o: Layout<P, S, E, N, H, F, A, X, Y, R, C, Z, K, D>,
    setup: Setup,
    lay: MapLay,
    round: Round,
    opening: Opening,
    stages: Seq<Map<u64, Piece>>,
    field: Map<u64, Piece>,
)
    requires
        set_up(o, setup, lay, round, opening, stages, field),
        1 <= round.players.seated() <= MAX_SEATS,
    ensures
        slots_unique(field),
        forall|id: u64|
            (#[trigger] thing::<Tank>(field, id)) matches Some(t) ==> {
                &&& t.slot() < round.players.seated() + round.band_enemy_count
                &&& t.mind is Some <==> round.players.seated() <= t.slot()
            },
        forall|i: int|
            0 <= i < round.players.seated() ==> #[trigger] seat_filled(
                o.roll_row,
                setup,
                round,
                field,
                i,
            ),
        forall|k: int|
            0 <= k < round.band_enemy_count ==> #[trigger] enemy_placed(
                o.hunts,
                setup,
                field,
                round.players.seated(),
                k,
            ),
{
    assert forall|i: int| 0 <= i < round.players.seated() implies #[trigger] seat_filled(
        o.roll_row,
        setup,
        round,
        field,
        i,
    ) by {
        lemma_seat_filled(o, setup, lay, round, opening, stages, field, i);
    }
    assert forall|k: int| 0 <= k < round.band_enemy_count implies #[trigger] enemy_placed(
        o.hunts,
        setup,
        field,
        round.players.seated(),
        k,
    ) by {
        lemma_enemy_placed(o, setup, lay, round, opening, stages, field, k);
    }
    assert forall|id: u64| (#[trigger] thing::<Tank>(field, id)) is Some implies {
        let t = thing::<Tank>(field, id)->0;
        &&& t.slot() < round.players.seated() + round.band_enemy_count
        &&& t.mind is Some <==> round.players.seated() <= t.slot()
    } by {
        lemma_tank_place(o, setup, lay, round, opening, stages, field, id);
    }
    assert forall|a: u64, b: u64|
        (#[trigger] thing::<Tank>(field, a)) is Some && (#[trigger] thing::<Tank>(field, b)) is Some
            && thing::<Tank>(field, a)->0.slot() == thing::<Tank>(field, b)->0.slot() implies a
        == b by {
        lemma_tank_place(o, setup, lay, round, opening, stages, field, a);
        lemma_tank_place(o, setup, lay, round, opening, stages, field, b);
    }
}

/// A round that sends waves places nobody at the start: the tanks on its field
/// are the seats'.
pub proof fn waves_start_with_the_seats_alone<
    P: Fn(usize) -> i32,
    S: Fn(usize, i32) -> SeatSpot,
    E: Fn(usize, i32, Role) -> EnemySpot,
    N: Fn() -> usize,
    H: Fn() -> bool,
    F: Fn(Side) -> FrogSpot,
    A: Fn(Point) -> Vec<Site>,
    X: Fn(Point, Point) -> bool,
    Y: Fn(Point, Point) -> bool,
    R: Fn(PickupKind) -> bool,
    C: Fn(Point) -> Cell,
    Z: Fn(Cell) -> Point,
    K: Fn(Draw) -> bool,
    D: Fn(Point, Point) -> Scalar,
>(
    o: Layout<P, S, E, N, H, F, A, X, Y, R, C, Z, K, D>,
    setup: Setup,
    lay: MapLay,
    round: Round,
    opening: Opening,
    stages: Seq<Map<u64, Piece>>,
    field: Map<u64, Piece>,
)
    requires
        set_up(o, setup, lay, round, opening, stages, field),
        1 <= round.players.seated() <= MAX_SEATS,
        setup.spawn_plan is Waves,
    ensures
        round.band_enemy_count == 0,
        forall|id: u64|
            (#[trigger] thing::<Tank>(field, id)) matches Some(t) ==> t.mind is None && t.slot()
                < round.players.seated(),
{
    every_tank_has_its_slot(o, setup, lay, round, opening, stages, field);
}

proof fn lemma_sprites(k: int)
    requires
        0 <= k,
    ensures
        0 <= sprite_order()[k % 12] < TANK_VARIANTS,
{
    let i = k % 12;
    assert(0 <= i < 12);
    assert(i == 0 || i == 1 || i == 2 || i == 3 || i == 4 || i == 5 || i == 6 || i == 7 || i == 8
        || i == 9 || i == 10 || i == 11);
}

proof fn lemma_head_and_tail(head: (u64, Piece), tail: Seq<(u64, Piece)>)
    ensures
        (seq![head] + tail).take(1) == seq![head],
        (seq![head] + tail).skip(1) == tail,
{
    let all = seq![head] + tail;
    assert forall|k: int| 0 <= k < tail.len() implies all.skip(1)[k] == tail[k] by {
        assert(all.skip(1)[k] == all[k + 1]);
    }
    assert(all.skip(1) =~= tail);
    assert(all.take(1) =~= seq![head]);
}

/// The first seat and the others, each clear of those before it.
proof fn lemma_seats_down<
    P: Fn(usize) -> i32,
    S: Fn(usize, i32) -> SeatSpot,
    E: Fn(usize, i32, Role) -> EnemySpot,
    N: Fn() -> usize,
    H: Fn() -> bool,
    F: Fn(Side) -> FrogSpot,
    A: Fn(Point) -> Vec<Site>,
    X: Fn(Point, Point) -> bool,
    Y: Fn(Point, Point) -> bool,
    R: Fn(PickupKind) -> bool,
    C: Fn(Point) -> Cell,
    Z: Fn(Cell) -> Point,
    K: Fn(Draw) -> bool,
    D: Fn(Point, Point) -> Scalar,
>(
    o: Layout<P, S, E, N, H, F, A, X, Y, R, C, Z, K, D>,
    setup: Setup,
    lay: MapLay,
    head: (u64, Piece),
    tail: Seq<(u64, Piece)>,
    center: Point,
)
    requires
        seat_piece(o, setup, lay, 0, Seq::empty(), head.1),
        center == place_of(head.1),
        forall|k: int|
            0 <= k < tail.len() ==> seat_piece(
                o,
                setup,
                lay,
                k + 1,
                (seq![center] + places_of(tail)).take(k + 1),
                (#[trigger] tail[k]).1,
            ),
    ensures
        forall|i: int|
            0 <= i < 1 + tail.len() ==> seat_piece(
                o,
                setup,
                lay,
                i,
                places_of(seq![head] + tail).take(i),
                (#[trigger] (seq![head] + tail)[i]).1,
            ),
{
    let all = seq![head] + tail;
    let spots = places_of(all);
    assert(spots =~= seq![center] + places_of(tail));
    assert forall|i: int| 0 <= i < 1 + tail.len() implies seat_piece(
        o,
        setup,
        lay,
        i,
        spots.take(i),
        (#[trigger] all[i]).1,
    ) by {
        if i > 0 {
            assert(all[i] == tail[i - 1]);
            assert((i - 1) + 1 == i);
        } else {
            assert(all[0] == head);
            assert(spots.take(0) =~= Seq::empty());
        }
    }
}

impl Game {
    /// Set a round up. The board is cleared, the first seat's tank goes down,
    /// the map behind it, then the other seats, the band, the frogs, the
    /// pickups and their bonuses; and the round is announced.
    #[verifier::spinoff_prover]
    #[verifier::rlimit(40)]
    pub fn init<
        P: Fn(usize) -> i32,
        S: Fn(usize, i32) -> SeatSpot,
        E: Fn(usize, i32, Role) -> EnemySpot,
        N: Fn() -> usize,
        H: Fn() -> bool,
        F: Fn(Side) -> FrogSpot,
        A: Fn(Point) -> Vec<Site>,
        X: Fn(Point, Point) -> bool,
        Y: Fn(Point, Point) -> bool,
        R: Fn(PickupKind) -> bool,
        C: Fn(Point) -> Cell,
        Z: Fn(Cell) -> Point,
        K: Fn(Draw) -> bool,
        D: Fn(Point, Point) -> Scalar,
    >(
        &mut self,
        setup: &Setup,
        lay: &MapLay,
        o: &Layout<P, S, E, N, H, F, A, X, Y, R, C, Z, K, D>,
    ) -> (rng: SmallRng)
        requires
            lay.tiles@.len() + 3 * lay.slots@.len() + 64 < u32::MAX,
            well_found(*o),
            on_grid(o.cell_of, lay.reach),
            carries(o.enemy, setup.kit),
            counts_within(o.count, *setup),
        ensures
            final(self).wf(),
            final(self).no_keys(),
            final(self).pack.fresh(),
            final(self).show.blank(),
            final(self).debug_kills@ == Seq::<usize>::empty(),
            final(self).ground.fires@ == Seq::<GroundFire>::empty(),
            final(self).ground.heat@ == Seq::<Hot>::empty(),
            final(self).ground.flame_contacts@ == Seq::<u64>::empty(),
            final(self).ground.drums@ == Seq::<FlyingDrum>::empty(),
            final(self).ground.oil@ == lay.oil@,
            final(self).ground.portals@ == lay.portals@,
            final(self).ground.grass@ == lay.grass@,
            setup.seed matches Some(seed) ==> final(self).round.round_seed == seed,
            exists|opening: Opening, stages: Seq<Map<u64, Piece>>| #[trigger]
                set_up(
                    *o,
                    *setup,
                    *lay,
                    final(self).round,
                    opening,
                    stages,
                    final(self).field@,
                ),
            slots_unique(final(self).field@),
            forall|i: int|
                0 <= i < final(self).round.players.seated() ==> #[trigger] seat_filled(
                    o.roll_row,
                    *setup,
                    final(self).round,
                    final(self).field@,
                    i,
                ),
            band_of(o.count, *setup, final(self).round.band_enemy_count as int),
            forall|k: int|
                0 <= k < final(self).round.band_enemy_count ==> #[trigger] enemy_placed(
                    o.hunts,
                    *setup,
                    final(self).field@,
                    final(self).round.players.seated(),
                    k,
                ),
            forall|id: u64|
                (#[trigger] thing::<Tank>(final(self).field@, id)) matches Some(t) ==> {
                    &&& t.slot() < final(self).round.players.seated()
                        + final(self).round.band_enemy_count
                    &&& t.mind is Some <==> final(self).round.players.seated() <= t.slot()
                },
            forall|id: u64|
                (#[trigger] thing::<Tank>(final(self).field@, id)) matches Some(t) ==> 0 <= t.row
                    < TANK_VARIANTS,
            setup.spawn_plan == (SpawnPlan::Band { count: None }) && setup.map_tanks is None ==> (
            setup.fewest_enemies <= final(self).round.band_enemy_count
                || final(self).round.band_enemy_count == BAND_CAP)
                && final(self).round.band_enemy_count <= setup.most_enemies,
            final(self).round.frog is Some == setup.mission.has_player_frog(),
            final(self).round.enemy_frog is Some == setup.mission.has_enemy_frog(),
            final(self).events@ == old(self).events@.push(
                Event::RoundStarted {
                    seed: final(self).round.round_seed,
                    enemies: final(self).round.band_enemy_count,
                    mission: setup.mission,
                    spawn: match setup.spawn_plan {
                        SpawnPlan::Band { .. } => SpawnKind::Band,
                        SpawnPlan::Waves => SpawnKind::Waves,
                    },
                },
            ),
            final(self).round == (Round {
                outcome: Outcome::Playing,
                paused: false,
                frame: 0,
                round_seed: final(self).round.round_seed,
                next_shot_id: 0,
                mission: setup.mission,
                spawn_plan: setup.spawn_plan,
                band_enemy_count: final(self).round.band_enemy_count,
                restart_timer: Scalar::zero(),
                banner: Banner {
                    timer: match setup.intro {
                        Some(seconds) => seconds,
                        None => Scalar::zero(),
                    },
                    fade: Scalar::zero(),
                },
                flash: ScreenFlash::idle(),
                alert: Alert { position: None, timer: Scalar::zero() },
                pickup_respawn_timer: setup.pickup_respawn_seconds,
                seats: final(self).round.seats,
                fire_held: final(self).round.fire_held,
                frog: final(self).round.frog,
                enemy_frog: final(self).round.enemy_frog,
                ..old(self).round
            }),
    {
        let mut rng: SmallRng = self.clear_board(setup);
        let _seated: usize = self.round.players.count();
        let ghost none = self.field@;
        proof {
            assert(none.dom() =~= Set::<u64>::empty());
        }
        let nobody: Vec<Point> = Vec::new();
        let (center, head): (Point, Ghost<(u64, Piece)>) = self.lay_seat(
            setup,
            lay,
            o,
            0,
            &nobody,
        );
        let ghost f1 = self.field@;
        proof {
            let one = seq![head@];
            lemma_with_all(none, one, 1);
            assert forall|id: u64| #[trigger] f1.contains_key(id) implies !(f1[id] is Tile) by {
                let i = choose|i: int| 0 <= i < 1 && (#[trigger] one[i]).0 == id;
                assert(one[i] == head@);
            }
        }
        let tiles: Ghost<Seq<(u64, Piece)>> = self.lay_terrain(&lay.tiles);
        let ghost f2 = self.field@;
        self.ground.oil = lay.oil.clone();
        self.ground.portals = lay.portals.clone();
        self.ground.grass = lay.grass.clone();
        proof {
            assert(self.ground.oil@ =~= lay.oil@);
            assert(self.ground.portals@ =~= lay.portals@);
            assert(self.ground.grass@ =~= lay.grass@);
        }
        let tail: Ghost<Seq<(u64, Piece)>> = self.lay_others(setup, lay, o, center);
        let ghost f3 = self.field@;
        let ghost sat = self.round.seats@;
        proof {
            assert forall|i: int| 0 <= i < self.round.players.seated() implies (
            #[trigger] self.round.seats@[i]) is Some by {
                if i > 0 {
                    assert(sat[(i - 1) + 1] == Some(tail@[i - 1].0));
                }
            }
        }
        let n: usize = Self::band_count(setup, o);
        let starts: Vec<Point> = self.seat_places();
        let (placed, enemies): (Vec<Point>, Ghost<Seq<(u64, Piece)>>) = self.lay_enemies(
            setup,
            o,
            n,
            &starts,
        );
        let ghost f4 = self.field@;
        let frogs: Ghost<Seq<(u64, Piece)>> = self.lay_frogs(setup, o, &starts, &placed);
        let ghost f5 = self.field@;
        let pickups: Ghost<Seq<(u64, Piece)>> = self.lay_pickups(&lay.slots);
        let ghost f6 = self.field@;
        let stages: Ghost<Seq<Map<u64, Piece>>> = self.lay_bonuses(&lay.slots, o, &mut rng);
        self.begin_round(n);
        proof {
            let opening = Opening {
                seats: seq![head@] + tail@,
                tiles: tiles@,
                enemies: enemies@,
                frogs: frogs@,
                pickups: pickups@,
            };
            lemma_head_and_tail(head@, tail@);
            let a = seq![head@];
            lemma_more_down(none, f1, f2, a, tiles@);
            lemma_more_down(none, f2, f3, a + tiles@, tail@);
            lemma_more_down(none, f3, f4, a + tiles@ + tail@, enemies@);
            lemma_more_down(none, f4, f5, a + tiles@ + tail@ + enemies@, frogs@);
            lemma_more_down(none, f5, f6, a + tiles@ + tail@ + enemies@ + frogs@, pickups@);
            assert(nobody@ =~= Seq::<Point>::empty());
            lemma_seats_down(*o, *setup, *lay, head@, tail@, center);
            assert forall|i: int|
                0 <= i < opening.seats.len() implies self.round.seats@[i] == Some(
                (#[trigger] opening.seats[i]).0,
            ) by {
                if i > 0 {
                    assert(opening.seats[i] == tail@[i - 1]);
                    assert(sat[(i - 1) + 1] == Some(tail@[i - 1].0));
                } else {
                    assert(opening.seats[0] == head@);
                }
            }
            let base = a + tiles@ + tail@;
            lemma_with_all(none, base, base.len() as int);
            assert forall|i: int| 0 <= i < starts@.len() implies starts@[i] == places_of(
                opening.seats,
            )[i] by {
                if i > 0 {
                    let j = 1 + tiles@.len() + (i - 1);
                    assert(opening.seats[i] == tail@[i - 1]);
                    assert(base[j] == tail@[i - 1]);
                    assert(f3[base[j].0] == base[j].1);
                } else {
                    assert(opening.seats[0] == head@);
                    assert(base[0] == head@);
                    assert(f3[base[0].0] == base[0].1);
                }
            }
            assert(starts@ =~= places_of(opening.seats));
            assert(laid_out(*o, *setup, *lay, self.round, opening, f6));
            assert(set_up(*o, *setup, *lay, self.round, opening, stages@, self.field@));
            every_tank_has_its_slot(
                *o,
                *setup,
                *lay,
                self.round,
                opening,
                stages@,
                self.field@,
            );
            assert forall|id: u64|
                (#[trigger] thing::<Tank>(self.field@, id)) matches Some(t) implies 0 <= (thing::<
                Tank,
            >(self.field@, id)->0).row < TANK_VARIANTS by {
                let t = thing::<Tank>(self.field@, id)->0;
                let first = self.round.players.seated();
                if t.slot() < first {
                    let i = t.slot() as int;
                    assert(seat_filled(o.roll_row, *setup, self.round, self.field@, i));
                    let e = self.round.seats@[i]->0;
                    assert(thing::<Tank>(self.field@, e) is Some);
                    assert(e == id);
                    a_seats_chassis_is_on_the_sheet(o.roll_row, *setup, i, t.row);
                } else {
                    let k = t.slot() - first;
                    assert(enemy_placed(o.hunts, *setup, self.field@, first, k));
                    let e = choose|e: u64| enemy_at(o.hunts, *setup, self.field@, first, k, e);
                    assert(thing::<Tank>(self.field@, e) is Some);
                    assert(e == id);
                    lemma_sprites(k);
                }
            }
        }
        rng
    }
}

/// What an enemy is after follows from the mission: nobody hunts or guards
/// where the point is to destroy; protecting a frog brings hunters and nobody
/// guards, hunting one brings hunters and everyone else guards; and there are
/// hunters only where a share of them is asked for and the draw says so.
pub proof fn what_an_enemy_is_after<H: Fn() -> bool>(hunts: H, setup: Setup, role: Role)
    requires
        role_given(hunts, setup, role),
    ensures
        setup.mission is Destroy ==> role is Player,
        setup.mission is Protect ==> role is Player || role is Hunter,
        setup.mission is Hunt ==> role is Guard || role is Hunter,
        !setup.hunter_share ==> !(role is Hunter),
        setup.mission is Hunt && !setup.hunter_share ==> role is Guard,
        role is Hunter ==> call_ensures(hunts, (), true),
        setup.hunter_share && !(setup.mission is Destroy) && !call_ensures(hunts, (), false)
            ==> role is Hunter,
        fresh_mind(role).role == role && fresh_mind(role).target_player == 0,
        !fresh_mind(role).hit_alerted && !fresh_mind(role).retreating,
{
}

/// The first seat's chassis is asked for by the command line, the knob or the
/// map, the second's by the command line or the map, and nobody asks for the
/// others'.
pub proof fn who_asks_for_a_chassis(setup: Setup, i: int)
    ensures
        setup.player_row is Some ==> asked_row(setup, 0) == setup.player_row,
        setup.player_row is None && setup.row_knob >= 0 ==> asked_row(setup, 0) == Some(
            setup.row_knob,
        ),
        setup.player_row is None && setup.row_knob < 0 && setup.map_tank is Some ==> asked_row(
            setup,
            0,
        ) == Some((setup.map_tank->0).row),
        setup.player2_row is Some ==> asked_row(setup, 1) == setup.player2_row,
        setup.player2_row is None && setup.map_tank2 is Some ==> asked_row(setup, 1) == Some(
            (setup.map_tank2->0).row,
        ),
        setup.player2_row is None && setup.map_tank2 is None ==> asked_row(setup, 1) is None,
        i >= 2 ==> asked_row(setup, i) is None,
{
}

/// What is put down on an empty field takes the first legal place, and its own
/// where there is none; nothing is ever put on a place that is not legal.
pub proof fn the_first_legal_place_is_taken<D: Fn(Point, Point) -> Scalar>(
    dist: D,
    setup: Setup,
    samples: Seq<Sample>,
    own: Point,
    to: Point,
    i: int,
)
    requires
        settled(
            dist,
            setup,
            Taken { seats: Seq::empty(), enemies: Seq::empty(), frogs: Seq::empty() },
            samples,
            own,
            to,
        ),
        0 <= i < samples.len(),
        samples[i].legal,
        forall|k: int| 0 <= k < i ==> !(#[trigger] samples[k]).legal,
    ensures
        to == samples[i].at,
{
    let taken = Taken { seats: Seq::empty(), enemies: Seq::empty(), frogs: Seq::empty() };
    if forall|k: int|
        0 <= k < samples.len() ==> sample_does(dist, setup, taken, #[trigger] samples[k], false) {
        assert(sample_does(dist, setup, taken, samples[i], false));
    } else {
        let j = choose|j: int|
            {
                &&& 0 <= j < samples.len()
                &&& (#[trigger] samples[j]).at == to
                &&& sample_does(dist, setup, taken, samples[j], true)
                &&& forall|k: int|
                    0 <= k < j ==> sample_does(dist, setup, taken, #[trigger] samples[k], false)
            };
        if i < j {
            assert(sample_does(dist, setup, taken, samples[i], false));
        }
    }
}

/// A place that does keeps the seats', the enemies' and the frogs' distance,
/// each by its own measure, and is legal.
pub proof fn a_place_that_does_is_clear<D: Fn(Point, Point) -> Scalar>(
    dist: D,
    setup: Setup,
    taken: Taken,
    sample: Sample,
    i: int,
)
    requires
        sample_does(dist, setup, taken, sample, true),
    ensures
        sample.legal,
        0 <= i < taken.seats.len() ==> exists|d: Scalar| #[trigger]
            call_ensures(dist, (sample.at, taken.seats[i]), d) && setup.seat_spacing.at_most(d),
        0 <= i < taken.enemies.len() ==> exists|d: Scalar| #[trigger]
            call_ensures(dist, (sample.at, taken.enemies[i]), d) && setup.enemy_spacing.at_most(d),
        0 <= i < taken.frogs.len() ==> exists|d: Scalar| #[trigger]
            call_ensures(dist, (sample.at, taken.frogs[i]), d) && setup.frog_spacing.at_most(d),
{
    if 0 <= i < taken.seats.len() {
        assert(apart_by(dist, setup.seat_spacing, sample.at, taken.seats[i], true));
    }
    if 0 <= i < taken.enemies.len() {
        assert(apart_by(dist, setup.enemy_spacing, sample.at, taken.enemies[i], true));
    }
    if 0 <= i < taken.frogs.len() {
        assert(apart_by(dist, setup.frog_spacing, sample.at, taken.frogs[i], true));
    }
}

/// A frog is put down alive, at full health and ready to bite and hop, on its
/// own side; a side without one puts none down.
pub proof fn a_frog_starts_whole(e: u64, side: Side, spot: FrogSpot, at: Point)
    ensures
        frog_of(None, side, spot, at).len() == 0,
        ({
            let put = frog_of(Some(e), side, spot, at);
            let g = put[0].1->Frog_0;
            &&& put.len() == 1 && put[0].0 == e && put[0].1 is Frog
            &&& g.side == side && g.position == at && g.variant == spot.variant
            &&& g.health == spot.health && g.max_health == spot.health
            &&& !g.dead && g.can_attack && g.can_hop
        }),
{
}

/// How many enemies a band has: as many as the plan says, else as many as the
/// map does, but never more than the cap; and none under waves.
pub proof fn a_band_is_as_large_as_asked<N: Fn() -> usize>(count: N, setup: Setup, n: int, k: usize)
    requires
        band_of(count, setup, n),
    ensures
        setup.spawn_plan is Waves ==> n == 0,
        n <= 31,
        setup.spawn_plan == (SpawnPlan::Band { count: Some(k) }) && k <= 31 ==> n == k,
        setup.spawn_plan == (SpawnPlan::Band { count: Some(k) }) && k > 31 ==> n == 31,
        setup.spawn_plan == (SpawnPlan::Band { count: None }) && setup.map_tanks == Some(k) && k
            <= 31 ==> n == k,
        setup.spawn_plan == (SpawnPlan::Band { count: None }) && setup.map_tanks == Some(k) && k
            > 31 ==> n == 31,
{
}

/// What is put down under names of its own is on the field under them, and what
/// was there is still there.
pub proof fn what_is_put_down_is_there(
    before: Map<u64, Piece>,
    more: Seq<(u64, Piece)>,
    n: int,
    i: int,
    e: u64,
)
    requires
        0 <= n <= more.len(),
        forall|i: int, j: int|
            0 <= i < j < more.len() ==> (#[trigger] more[i]).0 != (#[trigger] more[j]).0,
    ensures
        0 <= i < n ==> with_all(before, more, n).contains_key(more[i].0) && with_all(
            before,
            more,
            n,
        )[more[i].0] == more[i].1,
        before.contains_key(e) && (forall|j: int| 0 <= j < n ==> (#[trigger] more[j]).0 != e)
            ==> with_all(before, more, n).contains_key(e) && with_all(before, more, n)[e]
            == before[e],
    decreases n,
{
    if n > 0 {
        what_is_put_down_is_there(before, more, n - 1, i, e);
    }
}

/// Every slot of the map is stocked with its own kind where it lies, and only
/// beside a health slot is anything more rolled for.
pub proof fn every_slot_is_stocked<
    A: Fn(Point) -> Vec<Site>,
    X: Fn(Point, Point) -> bool,
    Y: Fn(Point, Point) -> bool,
    R: Fn(PickupKind) -> bool,
>(
    around: A,
    same: X,
    beside: Y,
    bonus: R,
    slots: Seq<PickupSlot>,
    more: Seq<(u64, Piece)>,
    k: int,
    before: Map<u64, Piece>,
    after: Map<u64, Piece>,
)
    requires
        slots_stocked(slots, more),
        0 <= k < slots.len(),
        bonus_stage(around, same, beside, bonus, slots[k], before, after),
    ensures
        more.len() == slots.len(),
        more[k].1 is Pickup && more[k].1->Pickup_0.kind == slots[k].kind
            && more[k].1->Pickup_0.position == slots[k].at,
        !(slots[k].kind is Health) ==> after == before,
{
}

/// The map's walls are its standing tiles of brick, iron, wood and glass.
pub proof fn the_walls_of_a_map(tiles: Seq<Tile>, cell: Cell)
    ensures
        standing_walls(tiles).contains(cell) <==> exists|k: int|
            {
                &&& 0 <= k < tiles.len() && (#[trigger] tiles[k]).cell == cell
                &&& !tiles[k].destroyed
                &&& tiles[k].material is Brick || tiles[k].material is Iron || tiles[k].material
                    is Wood || tiles[k].material is Glass
            },
{
}

} // verus!
