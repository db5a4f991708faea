//! Rounds: how they start, what ends them, who is seated, what is collected
//! and who travels.

use rand::distr::Bernoulli;
use rand::rngs::SmallRng;
use rand::SeedableRng;
use tank_rounds::chassis::{roll_role, TankKind};
use tank_rounds::debug::{DebugError, TankPatch};
use tank_rounds::effects::{keep_hardest, ScreenFlash, Shockwave};
use tank_rounds::endings::{FrameMarks, Limits};
use tank_rounds::event::{Event, Outcome, SpawnKind};
use tank_rounds::frame::{Frame, ShockKind};
use tank_rounds::frog_phase::{FrogRules, Reach};
use tank_rounds::frogs::{bite, frog_reflexes, NearTank};
use tank_rounds::game::{phases, Game, Phase, Setup, Step};
use tank_rounds::input::{Input, PlayerCount};
use tank_rounds::kit::{roll_enemy_tank, Draw, Kit};
use tank_rounds::layout::{EnemySpot, FrogSpot, Layout, MapLay, Sample, SeatSpot};
use tank_rounds::kinds::{ActiveWeapon, Cell, Dir, Drum, Intent, LaserVariant, Material, Mission, Owner, PickupKind, PlasmaVariant, Role, Side, SpawnPlan};
use tank_rounds::dice::Odds;
use tank_rounds::pickups::{bonus_pickup_cell, BonusCell, Healing, Looks, PickupSlot, PickupStock, Stand};
use tank_rounds::pieces::{Frog, HullContact, Mind, Missile, Pickup, ProvisionalKind, Shot, ShotState, Tank, Tile, WeaponQueue, Wound};
use tank_rounds::placement::dry_cell_near;
use tank_rounds::scalar::{Point, Scalar};
use tank_rounds::supply::Site;
use tank_rounds::tiles::{cleanup_done, refresh_edge_masks};

const MAX_DAMAGE: f32 = 100.0;

fn s(v: f32) -> Scalar {
    Scalar { bits: v.to_bits() }
}

fn v(x: Scalar) -> f32 {
    f32::from_bits(x.bits)
}

fn at(x: f32, y: f32) -> Point {
    Point { x: s(x), y: s(y) }
}

fn tank() -> Tank {
    Tank {
        owner: Owner::Player(0),
        row: 0,
        position: at(0.0, 0.0),
        rotation: s(0.0),
        commanded: at(0.0, 0.0),
        asked: at(0.0, 0.0),
        velocity: at(0.0, 0.0),
        top_speed: s(100.0),
        contact: HullContact { touching_static: false, touching_tank: false, impulse: s(0.0) },
        damage: s(0.0),
        wreck: false,
        burnt_out: false,
        shield: s(0.0),
        shield_delay: s(0.0),
        shield_broke: false,
        has_body: true,
        rolling_in: false,
        mind: None,
        weapon: ActiveWeapon::Shell,
        queue: WeaponQueue::empty(),
        shells: 10,
        laser_charges: 0,
        minigun_ammo: 0,
        missile_ammo: 0,
        plasma_ammo: 0,
        flame_fuel: s(0.0),
        speed_boost: s(0.0),
        fire_cooldown: s(0.0),
        ram_cooldown: s(0.0),
        portal_cooldown: s(0.0),
        burn_timer: s(0.0),
        flame_held: false,
        laser_variant: LaserVariant::Red,
        plasma_variant: PlasmaVariant::Teal,
        shell_variant: 0,
        damage_variant: 0,
        wreck_col: None,
    }
}

fn mind(role: Role) -> Mind {
    Mind { role, target_player: 0, hit_alerted: false, retreating: false }
}

fn enemy() -> Tank {
    Tank { mind: Some(mind(Role::Player)), ..tank() }
}

fn tile(material: Material, col: i32, row: i32) -> Tile {
    Tile {
        position: at(col as f32 * 32.0, row as f32 * 32.0),
        cell: Cell { col, row },
        material,
        variant: 0,
        drum: Drum::Oil,
        health: s(100.0),
        max_health: s(100.0),
        destroyed: false,
        burning: false,
        flammable: false,
        fuse: None,
        ram_timer: s(0.0),
        heat: s(0.0),
        edge_mask: 0,
        soot: 0,
    }
}

fn setup(mission: Mission) -> Setup {
    Setup {
        seed: Some(7),
        mission,
        spawn_plan: SpawnPlan::Band { count: None },
        intro: None,
        pickup_respawn_seconds: s(20.0),
        player_row: None,
        player2_row: None,
        row_knob: -1,
        map_tank: None,
        map_tank2: None,
        map_tanks: None,
        fewest_enemies: 1,
        most_enemies: 4,
        seat_spacing: s(120.0),
        enemy_spacing: s(40.0),
        frog_spacing: s(200.0),
        hunter_share: false,
        kit: Kit { laser: 3, plasma: 5, minigun: 30, shield: s(60.0), damage_variants: 3 },
    }
}

fn open_map() -> MapLay {
    MapLay { tiles: vec![], oil: vec![], portals: vec![], grass: vec![], slots: vec![], deep: vec![], solid: vec![], reach: 6 }
}

/// Set a round up: enemies in a row, frogs apart, and a bonus beside every
/// health slot if `bonus`.
fn set_up(game: &mut Game, setup: &Setup, lay: &MapLay, bonus: bool) {
    set_up_with(game, setup, lay, bonus, false, |_d: Draw| false);
}

fn cell_at(p: Point) -> Cell {
    Cell { col: (v(p.x) / 32.0).floor() as i32, row: (v(p.y) / 32.0).floor() as i32 }
}

fn middle(c: Cell) -> Point {
    at(c.col as f32 * 32.0 + 16.0, c.row as f32 * 32.0 + 16.0)
}

fn set_up_with(game: &mut Game, setup: &Setup, lay: &MapLay, bonus: bool, authored: bool, kit: impl Fn(Draw) -> bool) {
    set_up_among(game, setup, lay, bonus, authored, kit, |_k: usize| vec![]);
}

fn set_up_among(
    game: &mut Game,
    setup: &Setup,
    lay: &MapLay,
    bonus: bool,
    authored: bool,
    kit: impl Fn(Draw) -> bool,
    samples: impl Fn(usize) -> Vec<Sample>,
) {
    set_up_spread(game, setup, lay, bonus, authored, kit, |_i: usize| vec![], samples, |_side: Side| vec![]);
}

/// A round, with the places each seat, each enemy and each frog may take.
fn set_up_spread(
    game: &mut Game,
    setup: &Setup,
    lay: &MapLay,
    bonus: bool,
    authored: bool,
    kit: impl Fn(Draw) -> bool,
    seats: impl Fn(usize) -> Vec<Sample>,
    samples: impl Fn(usize) -> Vec<Sample>,
    frogs: impl Fn(Side) -> Vec<Sample>,
) {
    game.init(
        setup,
        lay,
        &Layout {
            roll_row: |i: usize| 4 + i as i32,
            seat: |i: usize, _row: i32| SeatSpot {
                tank: tank(),
                authored,
                samples: seats(i),
                spare: tank().position,
            },
            enemy: |k: usize, _row: i32, _role: Role| EnemySpot {
                tank: Tank { position: at(600.0 + 40.0 * k as f32, 100.0), ..tank() },
                samples: samples(k),
            },
            count: || 2,
            hunts: || true,
            frog: |side: Side| FrogSpot {
                at: at(if side == Side::Player { 320.0 } else { 640.0 }, 320.0),
                samples: frogs(side),
                variant: 0,
                health: s(60.0),
            },
            around: |p: Point| {
                let there = at(v(p.x) + 32.0, v(p.y));
                vec![Site { at: there, open: true, inside: true }]
            },
            same: |a: Point, b: Point| a == b,
            beside: |a: Point, b: Point| (v(a.x) - v(b.x)).abs() < 40.0 && a.y == b.y,
            bonus: |_k: PickupKind| bonus,
            cell_of: cell_at,
            center: middle,
            kit,
            dist: apart,
        },
    );
}

/// A round of a mission with one seated player and so many enemies.
fn round(mission: Mission, enemies: usize) -> Game {
    let mut game = Game::new(PlayerCount::one());
    let plan = SpawnPlan::Band { count: Some(enemies) };
    set_up(&mut game, &Setup { spawn_plan: plan, ..setup(mission) }, &open_map(), false);
    game
}

fn get_tank(game: &Game, entity: u64) -> Tank {
    game.field.get::<Tank>(entity).expect("a tank")
}

fn get_frog(game: &Game, entity: u64) -> Frog {
    game.field.get::<Frog>(entity).expect("a frog")
}

fn ended(game: &mut Game) -> Vec<Event> {
    let mut f = Frame::new();
    game.check_round_end(&mut f, true, s(3.0));
    f.events
}

fn stock(t: Tank, _kind: PickupKind) -> PickupStock {
    PickupStock {
        shells: 10,
        laser: 4,
        minigun: 40,
        missiles: 8,
        plasma: 6,
        healed: s((v(t.damage) - 50.0).max(0.0)),
        fuel: s(v(t.flame_fuel) + 5.0),
        boost: s(8.0),
        shield: s(60.0),
        rare: false,
    }
}

/// Every laser is blue and no plasma is purple.
fn looks() -> Looks {
    Looks { laser: Odds::Always, plasma: Odds::Never }
}

fn heal(frog: Frog) -> Healing {
    Healing { frog: Frog { health: frog.max_health, ..frog }, amount: s(v(frog.max_health) - v(frog.health)) }
}

/// Run a pickup phase in which everyone stands where the pickups lie.
fn collect_all(game: &mut Game, wants: bool) -> (usize, Frame) {
    let mut f = Frame::new();
    let lying = game.lying();
    let tanks = game.collectors();
    let stands: Vec<Vec<Stand>> = lying
        .iter()
        .map(|_| tanks.iter().map(|t| Stand { wants: wants || t.is_player, distance: s(3.0) }).collect())
        .collect();
    let mut rng = SmallRng::seed_from_u64(1);
    let taken = game.pickup_phase(&mut f, &lying, &tanks, &stands, s(20.0), stock, &looks(), heal, &mut rng);
    (taken.len(), f)
}

#[test]
fn a_destroy_round_has_no_frog_and_ends_on_the_last_wreck() {
    let mut game = round(Mission::Destroy, 1);
    assert_eq!(game.round.mission, Mission::Destroy);
    assert!(game.round.frog.is_none() && game.round.enemy_frog.is_none());
    assert_eq!(game.field.all::<Frog>().len(), 0);
    assert!(matches!(game.events()[..], [Event::RoundStarted { mission: Mission::Destroy, .. }]));
    assert!(ended(&mut game).is_empty());
    game.debug_kill(1).unwrap();
    let mut f = Frame::new();
    game.apply_debug_kills(&mut f, s(MAX_DAMAGE));
    assert_eq!(f.kills.len(), 1);
    assert_eq!(ended(&mut game), [Event::RoundEnded { outcome: Outcome::Won }]);
    assert_eq!(game.outcome(), Outcome::Won);
}

#[test]
fn a_round_with_no_enemies_is_a_sandbox_that_never_ends_on_its_own() {
    let mut game = round(Mission::Destroy, 0);
    for _ in 0..600 {
        assert!(ended(&mut game).is_empty());
    }
    assert_eq!(game.outcome(), Outcome::Playing, "an empty round must not end by wreck count");
}

#[test]
fn the_intro_freezes_the_round_and_any_input_skips_it() {
    let mut game = Game::new(PlayerCount::one());
    set_up(&mut game, &Setup { intro: Some(s(2.0)), ..setup(Mission::Protect) }, &open_map(), false);
    assert!(game.round.banner.is_up());
    assert_eq!(game.update(Input::default()), Step::Intro { skip: false });
    let mut input = Input::default();
    input.seats[0].fire = true;
    assert_eq!(game.update(input), Step::Intro { skip: true });
    game.round.banner.tick(true, s(1.9), s(0.0));
    assert_eq!(v(game.round.banner.timer), 0.0, "fire skips the intro");
    assert_eq!(game.update(Input::default()), Step::Play);
}

#[test]
fn a_single_player_round_ignores_the_second_seat() {
    let mut game = round(Mission::Destroy, 1);
    let second = Intent { move_dir: Some(Dir::Left), fire: true, ..Intent::default() };
    assert_eq!(game.update(Input::two(Intent::default(), second)), Step::Play);
    assert_eq!(game.seat(1), None);
    let before = game.field.all::<Tank>().len();
    assert_eq!(game.drive_player(1, &second), None);
    assert_eq!(game.field.all::<Tank>().len(), before);
}

#[test]
fn a_hunt_round_is_won_when_the_enemy_frog_dies_and_lost_when_the_players_does() {
    let mut game = round(Mission::Hunt, 1);
    assert_eq!(game.field.all::<Frog>().len(), 2);
    let (own, other) = (game.round.frog.unwrap(), game.round.enemy_frog.unwrap());
    assert_eq!(get_frog(&game, own).side, Side::Player);
    assert_eq!(get_frog(&game, other).side, Side::Enemy);
    let dead = Frog { dead: true, health: s(0.0), ..get_frog(&game, other) };
    game.field.put(other, dead);
    assert_eq!(ended(&mut game), [Event::RoundEnded { outcome: Outcome::Won }]);

    let mut game = round(Mission::Hunt, 1);
    let own = game.round.frog.unwrap();
    let dead = Frog { dead: true, health: s(0.0), ..get_frog(&game, own) };
    game.field.put(own, dead);
    assert_eq!(ended(&mut game), [Event::RoundEnded { outcome: Outcome::Lost }]);
}

#[test]
fn every_seat_wrecked_at_once_still_loses_the_round() {
    let mut game = Game::new(PlayerCount::two());
    let plan = SpawnPlan::Band { count: Some(1) };
    set_up(&mut game, &Setup { spawn_plan: plan, ..setup(Mission::Destroy) }, &open_map(), false);
    let (one, two) = (game.seat(0).unwrap(), game.seat(1).unwrap());
    let down = |game: &mut Game, e: u64| {
        let t = get_tank(game, e);
        game.field.put(e, Tank { wreck: true, damage: s(MAX_DAMAGE), ..t });
    };
    down(&mut game, one);
    assert!(ended(&mut game).is_empty(), "one tank keeps the round going");
    down(&mut game, two);
    assert_eq!(ended(&mut game), [Event::RoundEnded { outcome: Outcome::Lost }]);
}

#[test]
fn losing_comes_before_winning() {
    let mut game = round(Mission::Destroy, 1);
    for (e, t) in game.field.all::<Tank>() {
        game.field.put(e, Tank { wreck: true, ..t });
    }
    assert_eq!(ended(&mut game), [Event::RoundEnded { outcome: Outcome::Lost }]);
}

#[test]
fn a_waves_round_is_won_only_once_the_last_wave_has_come() {
    let mut game = Game::new(PlayerCount::one());
    set_up(&mut game, &Setup { spawn_plan: SpawnPlan::Waves, ..setup(Mission::Destroy) }, &open_map(), false);
    assert!(!game.spawn_plan_finished(false));
    assert!(game.spawn_plan_finished(true));
    let mut f = Frame::new();
    game.check_round_end(&mut f, false, s(3.0));
    assert_eq!(game.outcome(), Outcome::Playing);
    assert!(round(Mission::Destroy, 1).spawn_plan_finished(false), "a band is there from the start");
}

#[test]
fn the_restart_counts_down_once_the_round_is_over() {
    let mut game = round(Mission::Destroy, 1);
    let seat = game.player().unwrap();
    let t = get_tank(&game, seat);
    game.field.put(seat, Tank { wreck: true, ..t });
    ended(&mut game);
    assert_eq!(v(game.round.restart_timer), 3.0);
    assert_eq!(game.update(Input::default()), Step::Over);
    assert!(!game.restart_countdown(s(1.0)));
    assert!(game.restart_countdown(s(0.0)));
    let mut input = Input::default();
    input.restart_pressed = true;
    assert_eq!(game.update(input), Step::Restart);
}

#[test]
fn pausing_twice_resumes() {
    let mut game = round(Mission::Destroy, 1);
    let mut pause = Input::default();
    pause.pause_pressed = true;
    assert_eq!(game.update(pause), Step::Paused);
    assert_eq!(game.update(Input::default()), Step::Paused);
    assert_eq!(game.update(pause), Step::Play);
    assert_eq!(game.frame(), 3);
}

#[test]
fn a_frame_runs_its_phases_in_order() {
    let play = phases(Step::Play);
    let place = |p: Phase| play.iter().position(|q| *q == p);
    assert!(place(Phase::Frogs) < place(Phase::Pickups));
    assert!(place(Phase::Players) < place(Phase::Enemies));
    assert!(place(Phase::Flames) < place(Phase::StepWorld));
    assert!(place(Phase::Explosions) < place(Phase::Cleanup));
    assert!(place(Phase::Cleanup) < place(Phase::RoundEnd));
    assert!(phases(Step::Paused).is_empty());
    assert!(!phases(Step::Over).contains(&Phase::Players));
}

#[test]
fn seats_keep_their_tanks_and_enemies_come_after_them() {
    let game = round(Mission::Protect, 3);
    assert_eq!(game.first_enemy_slot(), 1);
    assert_eq!(game.round_seed(), 7);
    let seat = game.player().unwrap();
    assert!(game.is_player(seat));
    assert_eq!(game.player_index(seat), Some(0));
    for (e, t) in game.standing_enemies() {
        assert!(!game.is_player(e));
        assert_eq!(game.player_index(e), None);
        assert!(matches!(t.owner, Owner::Enemy(_)));
    }
    assert_eq!(game.standing_enemies().len(), 3);
    assert_eq!(game.tank_entity_by_slot(9), None);
}

#[test]
fn a_held_fire_key_fires_shells_only_once() {
    let mut game = round(Mission::Destroy, 1);
    let fire = Intent { fire: true, ..Intent::default() };
    let mut shots = 0;
    for _ in 0..30 {
        shots += usize::from(game.drive_player(0, &fire).is_some());
    }
    assert_eq!(shots, 1);
    game.drive_player(0, &Intent::default());
    assert_eq!(game.drive_player(0, &fire), Some(ActiveWeapon::Shell), "a fresh press fires again");
}

#[test]
fn destroy_rolls_no_roles_and_hunt_rolls_hunters_or_guards() {
    for heads in [true, false] {
        assert_eq!(roll_role(Mission::Destroy, true, || heads), Role::Player);
        assert_ne!(roll_role(Mission::Hunt, true, || heads), Role::Player);
    }
    assert_eq!(roll_role(Mission::Hunt, true, || true), Role::Hunter);
    assert_eq!(roll_role(Mission::Hunt, false, || true), Role::Guard);
    assert_eq!(roll_role(Mission::Protect, false, || true), Role::Player);
}

#[test]
fn a_frog_never_bites_its_own_side() {
    let frog = Frog {
        side: Side::Player,
        position: at(0.0, 0.0),
        health: s(60.0),
        max_health: s(60.0),
        variant: 0,
        dead: false,
        can_attack: true,
        can_hop: true,
    };
    let near = |owner: Owner, distance: f32| NearTank { entity: 1, owner, wreck: false, rolling_in: false, distance: s(distance) };
    let own = vec![near(Owner::Player(0), 10.0)];
    let r = frog_reflexes(&frog, &own, s(40.0), s(40.0));
    assert_eq!(r.bite, None);
    assert_eq!(r.hop, Some(0), "but it still keeps its distance");
    let both = vec![near(Owner::Player(0), 5.0), near(Owner::Enemy(3), 30.0), near(Owner::Enemy(4), 20.0)];
    assert_eq!(frog_reflexes(&frog, &both, s(40.0), s(4.0)).bite, Some(2), "the nearest foe");
    let enemys = Frog { side: Side::Enemy, ..frog };
    assert_eq!(frog_reflexes(&enemys, &both, s(40.0), s(4.0)).bite, Some(0));
}

#[test]
fn a_frog_bites_the_other_side() {
    let mut f = Frame::new();
    let hit = |t: Tank, is_player: bool| {
        let damage = if is_player { 5.0 } else { 100.0 };
        (s(damage), Tank { damage: s(v(t.damage) + damage), wreck: v(t.damage) + damage >= MAX_DAMAGE, ..t })
    };
    let bitten = bite(&mut f, Side::Player, Tank { owner: Owner::Enemy(2), ..enemy() }, false, hit);
    assert!(bitten.wreck);
    assert_eq!(f.kills.len(), 1);
    assert_eq!(f.events, [Event::FrogBite { side: Side::Player, slot: 2, damage: s(100.0), killed: true }]);
    let seat = bite(&mut f, Side::Enemy, tank(), true, hit);
    assert_eq!(v(seat.damage), 5.0);
    assert_eq!(f.kills.len(), 1);
}

#[test]
fn a_frog_pack_restores_the_players_hurt_frog_to_full() {
    let mut game = round(Mission::Protect, 0);
    let frog = game.round.frog.unwrap();
    let hurt = Frog { health: s(10.0), ..get_frog(&game, frog) };
    game.field.put(frog, hurt);
    game.spawn_pickup_at(at(0.0, 0.0), PickupKind::FrogHealth);
    let (taken, f) = collect_all(&mut game, true);
    assert_eq!(taken, 1);
    assert_eq!(v(get_frog(&game, frog).health), 60.0);
    assert!(f.events.iter().any(|e| matches!(e, Event::FrogHealed { side: Side::Player, slot: 0, amount, .. } if v(*amount) == 50.0)));
    assert!(game.lying().is_empty());
}

#[test]
fn a_frog_pack_is_left_on_the_field_while_the_frog_is_at_full_health() {
    let mut game = round(Mission::Protect, 0);
    game.spawn_pickup_at(at(0.0, 0.0), PickupKind::FrogHealth);
    assert_eq!(collect_all(&mut game, true).0, 0);
    assert_eq!(game.lying().len(), 1);
}

#[test]
fn a_frog_pack_heals_the_frog_and_never_the_tank_that_took_it() {
    let mut game = round(Mission::Protect, 0);
    let (frog, seat) = (game.round.frog.unwrap(), game.player().unwrap());
    let hurt = Frog { health: s(10.0), ..get_frog(&game, frog) };
    game.field.put(frog, hurt);
    let t = get_tank(&game, seat);
    game.field.put(seat, Tank { damage: s(40.0), ..t });
    game.spawn_pickup_at(at(0.0, 0.0), PickupKind::FrogHealth);
    collect_all(&mut game, true);
    assert_eq!(v(get_tank(&game, seat).damage), 40.0);
}

#[test]
fn an_enemy_in_a_hunt_round_heals_the_enemy_frog_and_not_the_players() {
    let mut game = round(Mission::Hunt, 1);
    let (own, other) = (game.round.frog.unwrap(), game.round.enemy_frog.unwrap());
    for frog in [own, other] {
        let hurt = Frog { health: s(10.0), ..get_frog(&game, frog) };
        game.field.put(frog, hurt);
    }
    game.spawn_pickup_at(at(600.0, 100.0), PickupKind::FrogHealth);
    let mut f = Frame::new();
    let (lying, tanks) = (game.lying(), game.collectors());
    let stands = vec![tanks.iter().map(|t| Stand { wants: true, distance: s(if t.is_player { 21.0 } else { 20.0 }) }).collect()];
    let mut rng = SmallRng::seed_from_u64(1);
    game.pickup_phase(&mut f, &lying, &tanks, &stands, s(20.0), stock, &looks(), heal, &mut rng);
    assert_eq!(v(get_frog(&game, other).health), 60.0);
    assert_eq!(v(get_frog(&game, own).health), 10.0);
}

#[test]
fn a_frog_pack_does_not_revive_a_dead_frog() {
    let mut game = round(Mission::Protect, 0);
    let frog = game.round.frog.unwrap();
    let dead = Frog { dead: true, health: s(0.0), ..get_frog(&game, frog) };
    game.field.put(frog, dead);
    game.spawn_pickup_at(at(0.0, 0.0), PickupKind::FrogHealth);
    collect_all(&mut game, true);
    assert!(get_frog(&game, frog).dead);
}

#[test]
fn an_enemy_leaves_behind_what_it_does_not_need() {
    let mut game = round(Mission::Destroy, 1);
    let seat = game.player().unwrap();
    game.field.despawn(seat);
    game.round.seats[0] = None;
    game.spawn_pickup_at(at(0.0, 0.0), PickupKind::Health);
    assert_eq!(collect_all(&mut game, false).0, 0);
    assert_eq!(game.lying().len(), 1);
    assert_eq!(collect_all(&mut game, true).0, 1);
}

#[test]
fn a_player_still_collects_what_it_does_not_need() {
    let mut game = round(Mission::Destroy, 0);
    game.spawn_pickup_at(at(0.0, 0.0), PickupKind::Ammo);
    let (taken, f) = collect_all(&mut game, false);
    assert_eq!(taken, 1);
    assert_eq!(f.events, [Event::PickupCollected { slot: 0, kind: PickupKind::Ammo }]);
}

#[test]
fn a_bonus_shield_lands_on_a_free_neighbouring_cell() {
    let mut rng = SmallRng::seed_from_u64(3);
    let mut cells = Vec::new();
    for (dc, dr) in [(-1, -1), (0, -1), (1, -1), (-1, 0), (1, 0), (-1, 1), (0, 1), (1, 1)] {
        cells.push(BonusCell { at: at((20 + dc) as f32, (11 + dr) as f32), open: true, inside: true, free: true });
    }
    let p = bonus_pickup_cell(&cells, &mut rng).expect("an open map has a free neighbour");
    assert!((v(p.x) - 20.0).abs() <= 1.0 && (v(p.y) - 11.0).abs() <= 1.0 && (v(p.x), v(p.y)) != (20.0, 11.0));
}

#[test]
fn a_walled_in_health_slot_gets_no_bonus_shield() {
    let mut rng = SmallRng::seed_from_u64(3);
    let shut = |open: bool, inside: bool, free: bool| BonusCell { at: at(0.0, 0.0), open, inside, free };
    let cells = vec![shut(false, true, true), shut(true, true, false), shut(true, false, true)];
    assert_eq!(bonus_pickup_cell(&cells, &mut rng), None);
}

fn apart(a: Point, b: Point) -> Scalar {
    s(((v(a.x) - v(b.x)).powi(2) + (v(a.y) - v(b.y)).powi(2)).sqrt())
}

/// A round with a player at the origin and so many enemies further off.
fn portal_round(portals: &[Point], enemies: usize) -> Game {
    let mut game = round(Mission::Destroy, enemies);
    game.ground.portals = portals.to_vec();
    game
}

/// A frame of travel. Each portal has the cells to its east, the nearest first,
/// at the portal itself, on its rim and then a cell apart.
fn travel(game: &mut Game, rng: &mut SmallRng) -> Frame {
    let portals = game.ground.portals.clone();
    let cells = |j: usize| [0.0, 16.0, 32.0, 64.0].iter().map(|d| at(v(portals[j].x) + d, v(portals[j].y))).collect();
    let mut f = Frame::new();
    game.portal_phase(&mut f, s(16.0), s(30.0), s(2.0), &apart, &cells, rng);
    f
}

fn no_cells(game: &mut Game, rng: &mut SmallRng) -> Frame {
    let mut f = Frame::new();
    game.portal_phase(&mut f, s(16.0), s(30.0), s(2.0), &apart, &|_j: usize| vec![], rng);
    f
}

#[test]
fn a_single_portal_does_nothing() {
    let mut game = portal_round(&[at(0.0, 0.0)], 0);
    assert!(!game.portals_active());
    assert_eq!(game.portals().len(), 1);
    assert!(game.active_portals().is_empty());
    let mut rng = SmallRng::seed_from_u64(1);
    assert!(travel(&mut game, &mut rng).events.is_empty());
    assert_eq!(rng, SmallRng::seed_from_u64(1));
}

/// A sixtieth of a second for every tank's portal cooldown.
fn cool(game: &mut Game) {
    let mut rng = SmallRng::seed_from_u64(1);
    let age = |t: Tank, runs: bool| {
        let left = if runs { (v(t.portal_cooldown) - 1.0 / 60.0).max(0.0) } else { v(t.portal_cooldown) };
        Tank { portal_cooldown: s(left), ..t }
    };
    game.tick_timers(s(16.0), &vec![0], &apart, &age, &mut rng);
}

#[test]
fn driving_into_a_portal_places_the_tank_beside_another() {
    let (a, b) = (at(0.0, 0.0), at(500.0, 500.0));
    let mut game = portal_round(&[a, b], 0);
    assert!(game.portals_active());
    assert_eq!(game.portals(), &vec![a, b]);
    let seat = game.player().unwrap();
    let t = get_tank(&game, seat);
    let rushing = at(80.0, 0.0);
    game.field.put(seat, Tank { rotation: s(90.0), commanded: rushing, asked: rushing, velocity: rushing, ..t });
    let mut rng = SmallRng::seed_from_u64(1);
    let f = travel(&mut game, &mut rng);
    let t = get_tank(&game, seat);
    assert_eq!(t.position, at(532.0, 500.0), "the nearest cell outside B's trigger radius");
    assert!(v(apart(t.position, b)) > 16.0 && v(apart(t.position, b)) <= 64.0, "outside the radius, but beside B");
    assert_eq!(v(t.rotation), 90.0, "heading kept");
    assert_eq!((t.velocity, t.commanded), (at(0.0, 0.0), at(0.0, 0.0)), "no momentum carried");
    assert_eq!(v(t.portal_cooldown), 2.0);
    assert_eq!(f.events, [Event::Teleported { slot: 0, x: s(0.0), y: s(0.0), to_x: s(532.0), to_y: s(500.0) }]);
    for _ in 0..60 {
        cool(&mut game);
        assert!(travel(&mut game, &mut rng).events.is_empty(), "no hop while the cooldown runs");
    }
    let cooling = |left: f32| TankPatch {
        damage: None,
        shells_ammo: None,
        minigun_ammo: None,
        plasma_ammo: None,
        laser_charges: None,
        shield: None,
        speed_boost: None,
        portal_cooldown: Some(s(left)),
    };
    game.debug_teleport(0, b, Some(s(90.0))).unwrap();
    game.debug_set_tank(0, &cooling(0.5), s(MAX_DAMAGE)).unwrap();
    for _ in 0..180 {
        cool(&mut game);
        assert!(travel(&mut game, &mut rng).events.is_empty(), "a tank standing on a portal never re-triggers");
    }
    assert!(v(get_tank(&game, seat).portal_cooldown) > 0.0, "the cooldown froze on the portal");
    game.debug_teleport(0, at(500.0, 596.0), Some(s(0.0))).unwrap();
    for _ in 0..60 {
        cool(&mut game);
        assert!(travel(&mut game, &mut rng).events.is_empty());
    }
    assert_eq!(v(get_tank(&game, seat).portal_cooldown), 0.0, "off the portal the cooldown ran out");
    game.debug_teleport(0, b, None).unwrap();
    let back = travel(&mut game, &mut rng);
    assert!(matches!(back.events[..], [Event::Teleported { slot: 0, .. }]), "coming back onto B after leaving hops again");
    assert_eq!(get_tank(&game, seat).position, at(32.0, 0.0), "out of the only other portal");
    assert_eq!(v(get_tank(&game, seat).rotation), 0.0);
}

#[test]
fn an_arrival_keeps_clear_of_everybody_else() {
    let mut game = portal_round(&[at(0.0, 0.0), at(500.0, 500.0)], 1);
    let foe = game.tank_entity_by_slot(1).unwrap();
    let t = get_tank(&game, foe);
    game.field.put(foe, Tank { position: at(532.0, 510.0), ..t });
    let seat = game.player().unwrap();
    let mut rng = SmallRng::seed_from_u64(1);
    travel(&mut game, &mut rng);
    assert_eq!(get_tank(&game, seat).position, at(564.0, 500.0), "the nearer cell is taken");
}

#[test]
fn a_portal_with_no_free_arrival_cell_does_not_fire_and_draws_no_rng() {
    let mut game = portal_round(&[at(0.0, 0.0), at(500.0, 500.0)], 0);
    let mut rng = SmallRng::seed_from_u64(1);
    assert!(no_cells(&mut game, &mut rng).events.is_empty());
    assert_eq!(rng, SmallRng::seed_from_u64(1));
    let mut crowded = portal_round(&[at(0.0, 0.0), at(500.0, 500.0)], 2);
    for (slot, x) in [(1usize, 532.0f32), (2, 564.0)] {
        let foe = crowded.tank_entity_by_slot(slot).unwrap();
        let t = get_tank(&crowded, foe);
        crowded.field.put(foe, Tank { position: at(x, 500.0), ..t });
    }
    assert!(travel(&mut crowded, &mut rng).events.is_empty(), "nowhere to arrive: no hop");
    assert_eq!(rng, SmallRng::seed_from_u64(1));
}

#[test]
fn a_tank_that_stands_in_no_entrance_stays() {
    let mut game = portal_round(&[at(40.0, 0.0), at(500.0, 500.0)], 0);
    let mut rng = SmallRng::seed_from_u64(1);
    assert!(travel(&mut game, &mut rng).events.is_empty());
    assert_eq!(rng, SmallRng::seed_from_u64(1));
}

#[test]
fn an_enemy_that_travels_plans_afresh() {
    let mut game = portal_round(&[at(600.0, 100.0), at(200.0, 500.0)], 1);
    let e = game.tank_entity_by_slot(1).unwrap();
    let t = get_tank(&game, e);
    let m = Mind { hit_alerted: true, retreating: true, ..t.mind.unwrap() };
    game.field.put(e, Tank { mind: Some(m), ..t });
    let mut rng = SmallRng::seed_from_u64(1);
    let f = travel(&mut game, &mut rng);
    assert!(matches!(f.events[..], [Event::Teleported { slot: 1, .. }]));
    let after = get_tank(&game, e);
    assert_eq!(after.position, at(232.0, 500.0));
    assert_eq!((after.mind.unwrap().role, after.mind.unwrap().target_player), (m.role, m.target_player));
    assert!(!after.mind.unwrap().retreating, "it was backing off somewhere else");
}

#[test]
fn a_weapons_look_is_rolled_with_each_pickup() {
    let mut game = round(Mission::Destroy, 0);
    let seat = game.player().unwrap();
    let t = get_tank(&game, seat);
    game.field.put(seat, Tank { plasma_variant: PlasmaVariant::Purple, ..t });
    game.spawn_pickup_at(at(0.0, 0.0), PickupKind::Minigun);
    collect_all(&mut game, true);
    assert_eq!(get_tank(&game, seat).laser_variant, LaserVariant::Red, "nothing else touches the look");
    game.spawn_pickup_at(at(0.0, 0.0), PickupKind::Laser);
    game.spawn_pickup_at(at(0.0, 0.0), PickupKind::Plasma);
    collect_all(&mut game, true);
    let t = get_tank(&game, seat);
    assert_eq!((t.laser_variant, t.plasma_variant), (LaserVariant::Blue, PlasmaVariant::Teal));
    let mut rng = SmallRng::seed_from_u64(4);
    let even = Looks { laser: Odds::Sometimes(Bernoulli::new(0.5).unwrap()), plasma: Odds::Never };
    let blue = (0..64).filter(|_| even.roll(PickupKind::Laser, &mut rng)).count();
    assert!(blue > 0 && blue < 64);
    let mut still = SmallRng::seed_from_u64(4);
    assert!(!even.roll(PickupKind::Ammo, &mut still) && !even.roll(PickupKind::Plasma, &mut still));
    assert_eq!(still, SmallRng::seed_from_u64(4), "only an open look draws");
}

#[test]
fn a_start_in_deep_water_spawns_on_the_shore() {
    let start = Cell { col: 20, row: 11 };
    let mut deep = Vec::new();
    for col in 19..=21 {
        for row in 10..=12 {
            deep.push(Cell { col, row });
        }
    }
    let shore = dry_cell_near(start, &deep, &vec![], 6);
    assert!(!deep.contains(&shore));
    assert_eq!((shore.col - 20).abs().max((shore.row - 11).abs()), 2);
    assert_eq!(dry_cell_near(start, &vec![], &vec![], 6), start);
}

#[test]
fn overlapping_shocks_are_capped_and_keep_the_hardest_hit() {
    assert!(v(ShockKind::Kill.strength()) > v(ShockKind::CookOff.strength()), "a kill outranks a cook-off pop");
    let shock = |remaining: f32| Shockwave { at: at(0.0, 0.0), strength: s(1.0), time: s(0.0), remaining: s(remaining) };
    let mut list = vec![shock(0.1), shock(1.0)];
    keep_hardest(&mut list, &vec![shock(0.5), shock(0.0)], 2);
    assert_eq!(list.len(), 2, "never more than there is room for");
    assert!(list.iter().all(|w| v(w.remaining) >= 0.5));
}

#[test]
fn screen_flashes_are_spaced_out_and_cookoffs_stay_local() {
    let mut flash = ScreenFlash::idle();
    assert!(flash.age.is_none(), "nothing flashes at the start of a round");
    flash.flash_screen(s(0.6));
    assert_eq!(flash.age, Some(s(0.0)));
    flash.tick(s(0.1), s(0.3), s(0.5));
    flash.flash_screen(s(0.6));
    assert_eq!(flash.age, Some(s(0.1)), "a second kill inside the gap does not restart the flash");
    flash.tick(s(0.3), s(0.3), s(0.0));
    assert!(flash.age.is_none(), "the flash has faded out");
    flash.flash_screen(s(0.6));
    assert!(flash.age.is_some(), "a kill after the gap flashes again");
}

#[test]
fn destroying_a_tile_re_exposes_its_neighbours() {
    let mut game = round(Mission::Destroy, 0);
    let ids: Vec<u64> = (10..=12).map(|row| game.field.spawn(tile(Material::Glass, 20, row))).collect();
    refresh_edge_masks(&mut game.field);
    let south = 0b0001_0000u8;
    let mask = |game: &Game, id: u64| game.field.get::<Tile>(id).map(|t| t.edge_mask);
    assert_eq!(mask(&game, ids[1]).unwrap() & south, south, "it starts with a wall to its south");
    let gone = Tile { destroyed: true, ..game.field.get::<Tile>(ids[2]).unwrap() };
    game.field.put(ids[2], gone);
    assert_eq!(cleanup_done(&mut game.field), [ids[2]]);
    assert_eq!(mask(&game, ids[2]), None);
    assert_eq!(mask(&game, ids[1]).unwrap() & south, 0);
}

#[test]
fn a_frame_is_closed_with_its_events_and_its_newest_marks() {
    let mut game = round(Mission::Destroy, 0);
    game.update(Input::default());
    let mut f = Frame::new();
    f.record(Event::CookOff { x: s(1.0), y: s(2.0) });
    let shock = Shockwave { at: at(0.0, 0.0), strength: s(1.0), time: s(0.0), remaining: s(1.0) };
    let marks = FrameMarks {
        shocks: vec![shock; 3],
        muzzle_flashes: vec![shock],
        impact_flashes: vec![],
        scorches: vec![],
        decals: vec![],
    };
    game.finish_frame(&f, &marks, &Limits { shocks: 2, scorches: 4, decals: 4 });
    assert_eq!(game.events(), &vec![Event::CookOff { x: s(1.0), y: s(2.0) }]);
    assert_eq!(game.show.shocks.len(), 2);
    assert_eq!(game.show.muzzle_flashes.len(), 1);
}

#[test]
fn shots_are_numbered_in_spawn_order_and_finished_ones_go() {
    let mut game = round(Mission::Destroy, 0);
    let shot = |kind: ProvisionalKind| Shot { kind, id: 0, owner: Owner::Player(0), position: at(0.0, 0.0), prev_position: at(0.0, 0.0), velocity: at(0.0, 0.0), rotation: s(0.0), variant: 0, plasma_variant: PlasmaVariant::Teal, shooter_row: 0, state: ShotState::Flying };
    let missile = Missile {
        id: 0,
        owner: Owner::Player(0),
        position: at(0.0, 0.0),
        aim: at(0.0, 0.0),
        offset: at(0.0, 0.0),
        target: None,
        climbed: false,
        locked: false,
        diving: false,
        arrived: false,
    };
    let ids = game.spawn_pending(
        &vec![shot(ProvisionalKind::Shell), shot(ProvisionalKind::Shell)],
        &vec![shot(ProvisionalKind::Plasma)],
        &vec![shot(ProvisionalKind::Bullet)],
        &vec![missile],
    );
    assert_eq!(ids.len(), 5);
    assert_eq!(game.round.next_shot_id, 5);
    let mut numbers: Vec<u32> = game.field.all::<Shot>().iter().map(|(_, sh)| sh.id).collect();
    numbers.extend(game.field.all::<Missile>().iter().map(|(_, m)| m.id));
    numbers.sort_unstable();
    assert_eq!(numbers, [1, 2, 3, 4, 5]);
    let done = Shot { state: ShotState::Done, ..game.field.get::<Shot>(ids[0]).unwrap() };
    game.field.put(ids[0], done);
    game.despawn_done();
    assert_eq!(game.field.get::<Shot>(ids[0]), None);
    assert_eq!(game.field.all::<Shot>().len(), 3);
}

#[test]
fn tooling_reports_what_it_cannot_do() {
    let mut game = round(Mission::Destroy, 2);
    assert_eq!(game.debug_kill(9), Err(DebugError::NoTank(9)));
    assert_eq!(game.debug_teleport(9, at(1.0, 1.0), None), Err(DebugError::NoTank(9)));
    let patch = TankPatch {
        damage: Some(s(500.0)),
        shells_ammo: None,
        minigun_ammo: Some(20),
        plasma_ammo: None,
        laser_charges: None,
        shield: None,
        speed_boost: None,
        portal_cooldown: None,
    };
    assert!(matches!(game.debug_set_tank(9, &patch, s(MAX_DAMAGE)), Err(DebugError::NoTank(9))));
    assert_eq!(game.debug_set_tank(1, &patch, s(MAX_DAMAGE)).unwrap(), [ActiveWeapon::Minigun]);
    assert_eq!(game.debug_kill(1), Err(DebugError::AlreadyWreck(1)));
    let moved = game.debug_teleport(2, at(64.0, 96.0), Some(s(270.0))).unwrap();
    assert_eq!((get_tank(&game, moved).position, get_tank(&game, moved).rotation), (at(64.0, 96.0), s(270.0)));
    assert!(matches!(game.debug_spawn_enemy(enemy(), Some(99)), Err(DebugError::RowOutside(99))));
    let fresh = game.debug_spawn_enemy(enemy(), Some(2));
    assert!(fresh.is_ok());
    assert_eq!(game.standing_enemies().len(), 2);
}

#[test]
fn a_seat_is_boosted_and_measured_and_an_empty_one_is_not() {
    let mut game = round(Mission::Destroy, 0);
    let seat = game.player().unwrap();
    game.give_seat_boost(0, s(8.0));
    assert_eq!(v(get_tank(&game, seat).speed_boost), 8.0);
    assert_eq!(game.seat_motion(0), Some((at(0.0, 0.0), s(0.0), at(0.0, 0.0))));
    game.give_seat_boost(5, s(8.0));
    assert_eq!(game.seat_motion(5), None);
}

#[test]
fn a_target_counts_only_while_it_stands() {
    let mut game = round(Mission::Hunt, 1);
    let own = game.round.frog.unwrap();
    assert!(game.target_state(own).is_some());
    assert_eq!(game.frog_order(), [own, game.round.enemy_frog.unwrap()]);
    let dead = Frog { dead: true, ..get_frog(&game, own) };
    game.field.put(own, dead);
    assert!(game.target_state(own).is_none());
    let wall = game.field.spawn(tile(Material::Brick, 3, 3));
    assert!(game.target_state(wall).is_some());
    let seat = game.player().unwrap();
    let t = get_tank(&game, seat);
    game.field.put(seat, Tank { wreck: true, ..t });
    assert!(game.target_state(seat).is_none());
    let pack = game.field.spawn(Pickup { kind: PickupKind::Health, position: at(0.0, 0.0) });
    assert!(game.target_state(pack).is_none());
    game.field.despawn(wall);
    assert!(game.target_state(wall).is_none());
}

#[test]
fn waders_are_listed_by_slot() {
    let game = round(Mission::Destroy, 2);
    let wet = game.wading(&|p: Point| v(p.x) >= 600.0);
    assert_eq!(wet.iter().map(|w| w.slot).collect::<Vec<_>>(), [1, 2]);
}

#[test]
fn map_tank_key_spawns_that_chassis() {
    let titan = TankKind { row: 10 };
    let spawn_row = |cli: Option<i32>| {
        let mut game = Game::new(PlayerCount::one());
        let asked = Setup {
            seed: Some(11),
            spawn_plan: SpawnPlan::Band { count: Some(1) },
            player_row: cli,
            map_tank: Some(titan),
            map_tanks: Some(1),
            ..setup(Mission::Destroy)
        };
        set_up(&mut game, &asked, &open_map(), false);
        get_tank(&game, game.player().expect("player entity spawned in init")).row
    };
    assert_eq!(spawn_row(None), 10);
    assert_eq!(spawn_row(Some(TankKind::scout().row)), 0);
}

#[test]
fn a_waves_round_starts_with_its_seats_alone() {
    let mut game = Game::new(PlayerCount::one());
    set_up(&mut game, &Setup { spawn_plan: SpawnPlan::Waves, ..setup(Mission::Destroy) }, &open_map(), false);
    assert_eq!(game.tank_snapshots().len(), 1, "only the player at init");
    assert!(matches!(game.events()[..], [Event::RoundStarted { enemies: 0, spawn: SpawnKind::Waves, .. }]));
    assert_eq!(game.outcome(), Outcome::Playing, "no instant win with nobody on the field");
}

#[test]
fn nothing_pins_a_seat_past_the_second() {
    let mut game = Game::new(PlayerCount::from_count(3).unwrap());
    let asked = Setup { player_row: Some(99), player2_row: Some(-4), ..setup(Mission::Destroy) };
    set_up(&mut game, &asked, &open_map(), false);
    let rows: Vec<i32> = (0..3).map(|i| get_tank(&game, game.seat(i).unwrap()).row).collect();
    assert_eq!(rows, [11, 0, 6], "brought into the sheet, and a roll where nobody asked");
    assert_eq!(game.seat(3), None);
}

#[test]
fn a_band_stands_behind_the_seats_on_the_sprite_order() {
    let mut game = Game::new(PlayerCount::two());
    let plan = SpawnPlan::Band { count: Some(13) };
    set_up(&mut game, &Setup { spawn_plan: plan, ..setup(Mission::Destroy) }, &open_map(), false);
    assert_eq!(game.round.band_enemy_count, 13);
    assert!(matches!(game.events()[..], [Event::RoundStarted { seed: 7, enemies: 13, mission: Mission::Destroy, spawn: SpawnKind::Band }]));
    let rows: Vec<i32> = (0..13).map(|k| get_tank(&game, game.tank_entity_by_slot(2 + k).unwrap()).row).collect();
    assert_eq!(rows, [1, 0, 4, 2, 7, 3, 9, 5, 10, 6, 8, 11, 1]);
    assert_eq!(game.field.all::<Tank>().len(), 15);
    assert_eq!(game.field.all::<Tank>().iter().filter(|(_, t)| t.mind.is_some()).count(), 13);
}

#[test]
fn the_map_says_how_many_where_the_plan_does_not_and_a_roll_where_neither_does() {
    let placed = |count: Option<usize>, map: Option<usize>| {
        let mut game = Game::new(PlayerCount::one());
        set_up(&mut game, &Setup { spawn_plan: SpawnPlan::Band { count }, map_tanks: map, ..setup(Mission::Destroy) }, &open_map(), false);
        game.round.band_enemy_count
    };
    assert_eq!(placed(Some(1), Some(5)), 1);
    assert_eq!(placed(None, Some(5)), 5);
    assert_eq!(placed(None, None), 2);
}

#[test]
fn enemies_start_in_the_role_the_mission_gives_them() {
    let roles = |mission: Mission, share: bool| -> Vec<Role> {
        let mut game = Game::new(PlayerCount::one());
        set_up(&mut game, &Setup { hunter_share: share, ..setup(mission) }, &open_map(), false);
        game.standing_enemies().iter().map(|(_, t)| t.mind.unwrap().role).collect()
    };
    assert_eq!(roles(Mission::Destroy, true), [Role::Player, Role::Player]);
    assert_eq!(roles(Mission::Protect, true), [Role::Hunter, Role::Hunter]);
    assert_eq!(roles(Mission::Hunt, false), [Role::Guard, Role::Guard]);
}

#[test]
fn a_map_lies_as_it_was_drawn() {
    let mut game = Game::new(PlayerCount::one());
    let slot = |x: f32, kind: PickupKind| PickupSlot { at: at(x, 50.0), kind };
    let lay = MapLay {
        tiles: vec![tile(Material::Brick, 3, 4), tile(Material::Glass, 5, 4)],
        oil: vec![Cell { col: 7, row: 7 }],
        portals: vec![at(10.0, 10.0), at(90.0, 90.0)],
        grass: vec![Cell { col: 2, row: 2 }],
        slots: vec![slot(100.0, PickupKind::Laser), slot(300.0, PickupKind::Health)],
        ..open_map()
    };
    set_up(&mut game, &setup(Mission::Protect), &lay, true);
    assert_eq!(game.field.all::<Tile>().len(), 2);
    assert_eq!(game.ground.oil, lay.oil);
    assert!(game.conceals(Cell { col: 2, row: 2 }) && !game.conceals(Cell { col: 2, row: 3 }));
    assert_eq!(game.portals().len(), 2);
    let mut kinds: Vec<(i32, PickupKind)> = game.field.all::<Pickup>().iter().map(|(_, p)| (v(p.position.x) as i32, p.kind)).collect();
    kinds.sort_by_key(|k| k.0);
    assert_eq!(kinds, [(100, PickupKind::Laser), (300, PickupKind::Health), (332, PickupKind::Shield)], "a bonus beside the health slot, and no pack for a frog in full health");
    assert!(game.round.frog.is_some() && game.round.enemy_frog.is_none());
}

#[test]
fn a_round_starts_over_on_a_clear_board() {
    let mut game = round(Mission::Hunt, 3);
    game.ground.oil = vec![Cell { col: 1, row: 1 }];
    game.field.spawn(tile(Material::Brick, 3, 4));
    let plan = SpawnPlan::Band { count: Some(1) };
    set_up(&mut game, &Setup { spawn_plan: plan, ..setup(Mission::Destroy) }, &open_map(), false);
    assert_eq!((game.field.all::<Tank>().len(), game.field.all::<Tile>().len(), game.field.all::<Frog>().len()), (2, 0, 0));
    assert!(game.ground.oil.is_empty());
    assert_eq!(game.events().len(), 2, "what was recorded before stays readable");
}

/// One frame of the frogs: a bite takes `damage`, and a hop goes ten pixels
/// along if there is a way.
fn frog_frame(game: &mut Game, damage: f32, way: bool) -> Frame {
    let mut f = Frame::new();
    let rules = FrogRules {
        distance: apart,
        reach: |_g: Frog| Reach { attack: s(40.0), avoid: s(60.0) },
        strike: |t: Tank, spare: bool| {
            let mut after = t;
            let total = v(t.damage) + damage;
            after.take_damage(&Wound {
                shield_left: s((v(t.shield) - damage).max(0.0)),
                damage: s(if spare { total.min(MAX_DAMAGE - 1.0) } else { total }),
                recharge_delay: s(1.0),
                limit: s(MAX_DAMAGE),
            });
            (s(damage), after)
        },
        landing: |g: Frog, _from: Point| if way { Some(at(v(g.position.x) + 10.0, v(g.position.y))) } else { None },
    };
    game.frog_phase(&mut f, &rules);
    f
}

fn move_tank(game: &mut Game, slot: usize, p: Point) {
    let e = game.tank_entity_by_slot(slot).unwrap();
    let t = get_tank(game, e);
    game.field.put(e, Tank { position: p, ..t });
}

#[test]
fn a_frogs_hops_carry_it_away_from_what_crowds_it() {
    let mut game = round(Mission::Protect, 0);
    let frog = game.round.frog.unwrap();
    move_tank(&mut game, 0, at(300.0, 320.0));
    let f = frog_frame(&mut game, 20.0, true);
    assert!(f.events.is_empty(), "it does not bite its own side");
    assert_eq!(get_frog(&game, frog).position, at(330.0, 320.0));
    assert!(!get_frog(&game, frog).can_hop, "it needs its rest");
    frog_frame(&mut game, 20.0, true);
    assert_eq!(get_frog(&game, frog).position, at(330.0, 320.0));
}

#[test]
fn a_boxed_in_frog_stays_put() {
    let mut game = round(Mission::Protect, 0);
    let frog = game.round.frog.unwrap();
    let start = get_frog(&game, frog).position;
    for _ in 0..120 {
        move_tank(&mut game, 0, at(v(start.x) - 54.0, v(start.y)));
        frog_frame(&mut game, 20.0, false);
    }
    assert_eq!(get_frog(&game, frog).position, start, "a boxed-in frog hopped into the walls around it");
    assert!(get_frog(&game, frog).can_hop);
}

#[test]
fn a_frog_phase_bites_the_nearest_foe_and_never_kills_a_seat() {
    let mut game = round(Mission::Hunt, 2);
    let (own, other) = (game.round.frog.unwrap(), game.round.enemy_frog.unwrap());
    move_tank(&mut game, 1, at(350.0, 320.0));
    move_tank(&mut game, 2, at(340.0, 320.0));
    move_tank(&mut game, 0, at(650.0, 320.0));
    let f = frog_frame(&mut game, 500.0, false);
    let (bitten, spared) = (game.tank_entity_by_slot(2).unwrap(), game.tank_entity_by_slot(1).unwrap());
    assert!(get_tank(&game, bitten).wreck);
    assert!(!get_tank(&game, spared).wreck, "one bite a frame");
    assert!(!get_tank(&game, game.player().unwrap()).wreck, "never the killing blow on a player");
    assert_eq!(v(get_tank(&game, game.player().unwrap()).damage), MAX_DAMAGE - 1.0);
    assert_eq!(f.kills.iter().map(|k| k.victim).collect::<Vec<_>>(), [Owner::Enemy(2)]);
    assert_eq!(
        f.events,
        [
            Event::FrogBite { side: Side::Player, slot: 2, damage: s(500.0), killed: true },
            Event::FrogBite { side: Side::Enemy, slot: 0, damage: s(500.0), killed: false },
        ]
    );
    assert!(!get_frog(&game, own).can_attack && !get_frog(&game, other).can_attack);
    assert!(frog_frame(&mut game, 500.0, false).events.is_empty(), "both rest");
}

#[test]
fn a_shield_takes_a_bite_whole() {
    let mut game = round(Mission::Protect, 1);
    move_tank(&mut game, 1, at(340.0, 320.0));
    let e = game.tank_entity_by_slot(1).unwrap();
    let t = get_tank(&game, e);
    game.field.put(e, Tank { shield: s(30.0), ..t });
    frog_frame(&mut game, 500.0, false);
    let after = get_tank(&game, e);
    assert_eq!((v(after.damage), v(after.shield), after.wreck, after.shield_broke), (0.0, 0.0, false, true));
}

#[test]
fn an_enemy_with_no_frog_of_its_own_wastes_the_pack() {
    let mut game = round(Mission::Protect, 1);
    let frog = game.round.frog.expect("a Protect round has a frog");
    let hurt = Frog { health: s(25.0), ..get_frog(&game, frog) };
    game.field.put(frog, hurt);
    game.spawn_pickup_at(at(600.0, 100.0), PickupKind::FrogHealth);
    let mut f = Frame::new();
    let (lying, tanks) = (game.lying(), game.collectors());
    let stands = vec![tanks.iter().map(|t| Stand { wants: true, distance: s(if t.is_player { 21.0 } else { 20.0 }) }).collect()];
    let mut rng = SmallRng::seed_from_u64(1);
    game.pickup_phase(&mut f, &lying, &tanks, &stands, s(20.0), stock, &looks(), heal, &mut rng);
    assert!(game.lying().is_empty(), "the enemy took it");
    assert_eq!(v(get_frog(&game, frog).health), 25.0, "and healed nothing");
    assert!(!f.events.iter().any(|e| matches!(e, Event::FrogHealed { .. })));
}

#[test]
fn a_weapon_pickup_comes_up_at_once_and_the_next_waits_behind_it() {
    let mut game = round(Mission::Destroy, 0);
    let seat = game.player().unwrap();
    game.spawn_pickup_at(at(0.0, 0.0), PickupKind::Laser);
    collect_all(&mut game, true);
    assert_eq!((get_tank(&game, seat).weapon, get_tank(&game, seat).laser_charges), (ActiveWeapon::Laser, 4));
    game.spawn_pickup_at(at(0.0, 0.0), PickupKind::Minigun);
    collect_all(&mut game, true);
    let mut t = get_tank(&game, seat);
    assert_eq!((t.weapon, t.queue.first, t.minigun_ammo), (ActiveWeapon::Laser, Some(ActiveWeapon::Minigun), 40));
    t.enqueue_weapon(ActiveWeapon::Minigun);
    assert_eq!(t.queue.second, None, "it waits once");
    t.spend_weapon();
    assert_eq!(t.weapon, ActiveWeapon::Minigun);
    t.spend_weapon();
    assert_eq!(t.weapon, ActiveWeapon::Shell);
}

#[test]
fn bringing_a_cell_to_the_shore_twice_changes_nothing() {
    let mut deep = Vec::new();
    for col in 18..=22 {
        for row in 9..=13 {
            deep.push(Cell { col, row });
        }
    }
    let once = dry_cell_near(Cell { col: 20, row: 11 }, &deep, &vec![], 6);
    assert_ne!(once, Cell { col: 20, row: 11 });
    assert_eq!(dry_cell_near(once, &deep, &vec![], 6), once);
    let stuck = dry_cell_near(Cell { col: 20, row: 11 }, &deep, &vec![], 1);
    assert_eq!(stuck, Cell { col: 20, row: 11 }, "no shore within reach");
    assert_eq!(dry_cell_near(stuck, &deep, &vec![], 1), stuck);
}

#[test]
fn a_seat_that_would_start_in_a_lake_starts_on_its_shore() {
    let mut deep = Vec::new();
    for col in -2..=2 {
        for row in -2..=2 {
            deep.push(Cell { col, row });
        }
    }
    let lay = MapLay { deep, ..open_map() };
    let near = Setup { seat_spacing: s(100.0), ..setup(Mission::Destroy) };
    let mut game = Game::new(PlayerCount::two());
    set_up_with(&mut game, &near, &lay, false, true, |_d: Draw| false);
    let first = get_tank(&game, game.seat(0).unwrap());
    assert_eq!(cell_at(first.position), Cell { col: -3, row: -3 }, "the shore is three rings out");
    assert_eq!(first.position, middle(Cell { col: -3, row: -3 }));
    let second = get_tank(&game, game.seat(1).unwrap());
    assert_eq!(second.position, at(0.0, 0.0), "the map put the second seat there");
    let far = Setup { seat_spacing: s(114.0), ..setup(Mission::Destroy) };
    set_up_with(&mut game, &far, &lay, false, true, |_d: Draw| false);
    let second = get_tank(&game, game.seat(1).unwrap());
    assert_eq!(second.position, middle(Cell { col: -3, row: -3 }), "the map's place is too near the first seat");
    set_up_with(&mut game, &near, &lay, false, false, |_d: Draw| false);
    let second = get_tank(&game, game.seat(1).unwrap());
    assert_eq!(second.position, middle(Cell { col: -3, row: -3 }));
}

#[test]
fn a_tank_starts_with_what_it_drew() {
    let starts = |yes: &'static [Draw]| {
        let mut game = Game::new(PlayerCount::one());
        set_up_with(&mut game, &setup(Mission::Destroy), &open_map(), false, false, move |d: Draw| yes.contains(&d));
        (get_tank(&game, game.player().unwrap()), get_tank(&game, game.tank_entity_by_slot(1).unwrap()))
    };
    let (seat, enemy) = starts(&[]);
    assert_eq!((v(seat.shield), enemy.weapon, v(enemy.shield)), (0.0, ActiveWeapon::Shell, 0.0));
    let (seat, enemy) = starts(&[Draw::Special, Draw::Laser, Draw::Plasma, Draw::Shield]);
    assert_eq!((v(seat.shield), seat.weapon), (60.0, ActiveWeapon::Shell), "a seat draws for its shield alone");
    assert_eq!((enemy.weapon, enemy.laser_charges, enemy.plasma_ammo, v(enemy.shield)), (ActiveWeapon::Laser, 3, 0, 60.0));
    let (_, enemy) = starts(&[Draw::Special, Draw::Plasma]);
    assert_eq!((enemy.weapon, enemy.plasma_ammo), (ActiveWeapon::Plasma, 5));
    let (_, enemy) = starts(&[Draw::Special]);
    assert_eq!((enemy.weapon, enemy.minigun_ammo), (ActiveWeapon::Minigun, 30));
    let (_, enemy) = starts(&[Draw::Laser]);
    assert_eq!((enemy.weapon, enemy.laser_charges), (ActiveWeapon::Shell, 0), "no kind without a weapon");
}

#[test]
fn a_round_starts_with_its_walls_facing_each_other() {
    let mut game = Game::new(PlayerCount::one());
    let lay = MapLay { tiles: vec![tile(Material::Brick, 3, 4), tile(Material::Brick, 4, 4), tile(Material::Brick, 9, 9)], ..open_map() };
    set_up(&mut game, &setup(Mission::Destroy), &lay, false);
    let before: Vec<(i32, u8)> = game.field.all::<Tile>().iter().map(|(_, t)| (t.cell.col, t.edge_mask)).collect();
    refresh_edge_masks(&mut game.field);
    let after: Vec<(i32, u8)> = game.field.all::<Tile>().iter().map(|(_, t)| (t.cell.col, t.edge_mask)).collect();
    assert_eq!(before, after, "they were worked out already");
    let mask = |col: i32| before.iter().find(|b| b.0 == col).unwrap().1;
    assert_ne!(mask(3), mask(9), "a wall with a neighbour shows fewer faces");
    assert_ne!(mask(3), mask(4));
}

#[test]
fn a_shield_pickup_heals_to_full_and_absorbs_until_it_is_spent() {
    let mut game = round(Mission::Destroy, 1);
    let player = game.player().expect("player");
    let t = get_tank(&game, player);
    game.field.put(player, Tank { damage: s(50.0), shield: s(0.0), ..t });
    game.spawn_pickup_at(at(0.0, 0.0), PickupKind::Shield);
    collect_all(&mut game, false);
    let mut tank = get_tank(&game, player);
    assert_eq!(v(tank.damage), 0.0, "the shield pickup is a full heal");
    let capacity = 60.0;
    assert_eq!(v(tank.shield), capacity, "pool filled to its capacity");
    let blow = |t: &Tank, damage: f32| Wound {
        shield_left: s((v(t.shield) - damage).max(0.0)),
        damage: s((v(t.damage) + damage).min(MAX_DAMAGE)),
        recharge_delay: s(2.0),
        limit: s(MAX_DAMAGE),
    };
    let w = blow(&tank, 30.0);
    assert!(!tank.take_damage(&w), "an absorbed hit lands nothing");
    assert_eq!(v(tank.damage), 0.0);
    assert_eq!(v(tank.shield), capacity - 30.0, "the shield paid for it");
    tank.spend_shield(s(0.0), s(2.0));
    assert!(tank.shield_broke, "the blow that empties the pool shatters it");
    assert!(!tank.is_shielded());
    let w = blow(&tank, 30.0);
    assert!(tank.take_damage(&w));
    assert_eq!(v(tank.damage), 30.0, "unshielded again once the pool is spent");
}

#[test]
fn an_enemy_draws_one_special_weapon_in_one_of_its_looks() {
    let kit = Kit { laser: 3, plasma: 5, minigun: 30, shield: s(60.0), damage_variants: 3 };
    let base = Tank { shell_variant: 2, damage_variant: 1, ..enemy() };
    let drawn = |yes: &[Draw]| roll_enemy_tank(base, &kit, &|d: Draw| yes.contains(&d));
    let laser = drawn(&[Draw::Special, Draw::Laser, Draw::Blue]);
    assert_eq!((laser.weapon, laser.laser_charges, laser.laser_variant), (ActiveWeapon::Laser, 3, LaserVariant::Blue));
    let red = drawn(&[Draw::Special, Draw::Laser, Draw::Purple]);
    assert_eq!((red.laser_variant, red.plasma_variant), (LaserVariant::Red, PlasmaVariant::Teal));
    let plasma = drawn(&[Draw::Special, Draw::Plasma, Draw::Purple, Draw::Shield]);
    assert_eq!((plasma.weapon, plasma.plasma_ammo, plasma.plasma_variant), (ActiveWeapon::Plasma, 5, PlasmaVariant::Purple));
    assert_eq!(v(plasma.shield), 60.0);
    let minigun = drawn(&[Draw::Special]);
    assert_eq!((minigun.weapon, minigun.minigun_ammo), (ActiveWeapon::Minigun, 30));
    let plain = drawn(&[Draw::Laser, Draw::Blue]);
    assert_eq!(plain, base, "nothing is drawn for without a special weapon");
    assert_eq!((laser.shell_variant, laser.damage_variant), (2, 1));
}

#[test]
fn enemies_start_clear_of_the_seats_and_of_each_other() {
    let mut game = Game::new(PlayerCount::one());
    let plan = SpawnPlan::Band { count: Some(3) };
    let sample = |x: f32, legal: bool| Sample { at: at(x, 0.0), legal };
    let samples = |k: usize| match k {
        0 => vec![sample(119.0, true), sample(400.0, false), sample(120.0, true), sample(300.0, true)],
        1 => vec![sample(159.0, true), sample(160.0, true)],
        _ => vec![sample(130.0, true), sample(0.0, true)],
    };
    set_up_among(&mut game, &Setup { spawn_plan: plan, ..setup(Mission::Destroy) }, &open_map(), false, false, |_d: Draw| false, samples);
    let place = |slot: usize| get_tank(&game, game.tank_entity_by_slot(slot).unwrap()).position;
    assert_eq!(place(1), at(120.0, 0.0), "far enough from the seat at the origin, and legal");
    assert_eq!(place(2), at(160.0, 0.0), "far enough from the first");
    assert_eq!(place(3), at(680.0, 100.0), "no sample would do, so it stays where it was");
}

#[test]
fn seats_start_clear_of_the_seats_before_them() {
    let mut game = Game::new(PlayerCount::from_count(3).unwrap());
    let sample = |x: f32, y: f32, legal: bool| Sample { at: at(x, y), legal };
    let seats = |i: usize| match i {
        0 => vec![sample(900.0, 900.0, true)],
        1 => vec![sample(119.0, 0.0, true), sample(0.0, 300.0, false), sample(120.0, 0.0, true)],
        _ => vec![sample(239.0, 0.0, true), sample(0.0, 119.0, true), sample(0.0, 130.0, true)],
    };
    set_up_spread(
        &mut game,
        &setup(Mission::Destroy),
        &open_map(),
        false,
        true,
        |_d: Draw| false,
        seats,
        |_k: usize| vec![],
        |_side: Side| vec![],
    );
    let place = |i: usize| get_tank(&game, game.seat(i).unwrap()).position;
    assert_eq!(place(0), at(0.0, 0.0), "the first seat takes no other place");
    assert_eq!(place(1), at(120.0, 0.0), "the map's place is the first seat's, so it takes the next clear one");
    assert_eq!(place(2), at(0.0, 130.0), "clear of both");
}

#[test]
fn frogs_start_clear_of_the_enemies_and_of_each_other() {
    let mut game = Game::new(PlayerCount::one());
    let plan = SpawnPlan::Band { count: Some(1) };
    let sample = |x: f32, legal: bool| Sample { at: at(x, 0.0), legal };
    let frogs = |side: Side| match side {
        Side::Player => vec![sample(330.0, true), sample(500.0, false), sample(100.0, true)],
        Side::Enemy => vec![sample(310.0, true), sample(-110.0, true), sample(250.0, true), sample(350.0, true)],
    };
    set_up_spread(
        &mut game,
        &Setup { spawn_plan: plan, ..setup(Mission::Hunt) },
        &open_map(),
        false,
        false,
        |_d: Draw| false,
        |_i: usize| vec![],
        |_k: usize| vec![sample(300.0, true)],
        frogs,
    );
    let own = get_frog(&game, game.round.frog.unwrap());
    assert_eq!(own.position, at(100.0, 0.0), "clear of the enemy, and near the first seat if need be");
    let other = get_frog(&game, game.round.enemy_frog.unwrap());
    assert_eq!(other.position, at(350.0, 0.0), "clear of the enemy, of the seat and of the other frog");
}
