//! Whole turns on the field: the pack's, the players', the physics' and what
//! goes off in between.

use std::cell::RefCell;

use rand::distr::Bernoulli;
use rand::rngs::SmallRng;
use rand::{RngExt, SeedableRng};
use tank_rounds::blasts::record_quarantine;
use tank_rounds::chain::{Aftermath, Ordnance};
use tank_rounds::combat::{ExplosionQueue, TankHit};
use tank_rounds::command::{Approach, CommandCtx, UnitView};
use tank_rounds::detonation::{BlastOutcome, BlastRules, Source, WreckRules};
use tank_rounds::effects::{
    lay_tracks, push_decal, tick_cookoffs, Cookoff, ScreenFlash, Shockwave, Stride, TrackMark, TrackStep, Treads,
};
use tank_rounds::endings::Durations;
use tank_rounds::enemies::{AiMemory, Ring};
use tank_rounds::engage::{Contender, EngageCtx};
use tank_rounds::event::Event;
use tank_rounds::frame::{
    BlastShape, Fireball, FireballKind, Frame, Kill, PendingBlast, Scorch, ShockKind,
};
use tank_rounds::game::{Game, Mark, Setup};
use tank_rounds::dice::Odds;
use tank_rounds::hits::{Candidate, MaterialOdds, ShellTarget, TerrainBox};
use tank_rounds::input::PlayerCount;
use tank_rounds::kit::Kit;
use tank_rounds::kinds::{ActiveWeapon, Cell, Dir, Drum, Intent, LaserVariant, Material, Mission, Owner, PickupKind, PlasmaVariant, Role, Side, SpawnPlan};
use tank_rounds::pickups::{bonus_cells, PickupSlot};
use tank_rounds::pieces::{Frog, Fuse, HullContact, Mind, Missile, Pickup, ProvisionalKind, Shot, ShotState, Tank, Tile, WeaponQueue, Wound};
use tank_rounds::props::{Blow, Push, Spark};
use tank_rounds::scalar::{Point, Scalar};
use tank_rounds::shots::{HitResult, Landed};
use tank_rounds::supply::Site;
use tank_rounds::thinking::{Brief, Traced};
use tank_rounds::turn::{PackRules, Pending, Thought};
use tank_rounds::volley::{Beam, Flown, Gunnery, ShotRules};

const MAX_DAMAGE: f32 = 100.0;
const GRID: f32 = 32.0;

fn s(v: f32) -> Scalar {
    Scalar { bits: v.to_bits() }
}

fn v(x: Scalar) -> f32 {
    f32::from_bits(x.bits)
}

fn at(x: f32, y: f32) -> Point {
    Point { x: s(x), y: s(y) }
}

fn apart(a: Point, b: Point) -> Scalar {
    s(((v(a.x) - v(b.x)).powi(2) + (v(a.y) - v(b.y)).powi(2)).sqrt())
}

fn center(c: Cell) -> Point {
    at(c.col as f32 * GRID, c.row as f32 * GRID)
}

fn tank() -> Tank {
    Tank {
        owner: Owner::Player(0),
        row: 0,
        position: at(0.0, 0.0),
        rotation: s(0.0),
        commanded: at(0.0, 0.0),
        asked: at(0.0, 0.0),
        velocity: at(0.0, 0.0),
        top_speed: s(100.0),
        contact: HullContact { touching_static: false, touching_tank: false, impulse: s(0.0) },
        damage: s(0.0),
        wreck: false,
        burnt_out: false,
        shield: s(0.0),
        shield_delay: s(0.0),
        shield_broke: false,
        has_body: true,
        rolling_in: false,
        mind: None,
        weapon: ActiveWeapon::Shell,
        queue: WeaponQueue::empty(),
        shells: 10,
        laser_charges: 0,
        minigun_ammo: 0,
        missile_ammo: 0,
        plasma_ammo: 0,
        flame_fuel: s(0.0),
        speed_boost: s(0.0),
        fire_cooldown: s(0.0),
        ram_cooldown: s(0.0),
        portal_cooldown: s(0.0),
        burn_timer: s(0.0),
        flame_held: false,
        laser_variant: LaserVariant::Red,
        plasma_variant: PlasmaVariant::Teal,
        shell_variant: 0,
        damage_variant: 0,
        wreck_col: None,
    }
}

fn enemy(x: f32, y: f32, role: Role) -> Tank {
    let mind = Mind { role, target_player: 0, hit_alerted: false, retreating: false };
    Tank { mind: Some(mind), position: at(x, y), ..tank() }
}

fn tile(material: Material, col: i32, row: i32) -> Tile {
    Tile {
        position: center(Cell { col, row }),
        cell: Cell { col, row },
        material,
        variant: 0,
        drum: Drum::Oil,
        health: s(100.0),
        max_health: s(100.0),
        destroyed: false,
        burning: false,
        flammable: false,
        fuse: None,
        ram_timer: s(0.0),
        heat: s(0.0),
        edge_mask: 0,
        soot: 0,
    }
}

/// A round with so many seated players, a hundred pixels apart.
fn round(mission: Mission, seats: usize) -> Game {
    let mut game = Game::new(PlayerCount::from_count(seats).unwrap());
    game.clear_board(&Setup {
        seed: Some(7),
        mission,
        spawn_plan: SpawnPlan::Band { count: None },
        intro: None,
        pickup_respawn_seconds: s(20.0),
        player_row: None,
        player2_row: None,
        row_knob: -1,
        map_tank: None,
        map_tank2: None,
        map_tanks: None,
        fewest_enemies: 1,
        most_enemies: 4,
        seat_spacing: s(120.0),
        enemy_spacing: s(40.0),
        frog_spacing: s(200.0),
        hunter_share: false,
        kit: Kit { laser: 3, plasma: 5, minigun: 30, shield: s(60.0), damage_variants: 3 },
    });
    for i in 0..seats {
        game.seat_tank(i, Tank { position: at(i as f32 * 100.0, 0.0), ..tank() });
    }
    game
}

fn get_tank(game: &Game, entity: u64) -> Tank {
    game.field.get::<Tank>(entity).expect("a tank")
}

fn get_tile(game: &Game, entity: u64) -> Tile {
    game.field.get::<Tile>(entity).expect("a tile")
}

fn hurt_by(t: Tank, damage: f32) -> Tank {
    let mut after = t;
    after.take_damage(&Wound {
        shield_left: s((v(t.shield) - damage).max(0.0)),
        damage: s(v(t.damage) + damage),
        recharge_delay: s(2.0),
        limit: s(MAX_DAMAGE),
    });
    after
}

fn worn(t: Tile, damage: f32) -> Blow {
    let left = (v(t.health) - damage).max(0.0);
    Blow {
        worn: Tile { health: s(left), destroyed: left <= 0.0, ..t },
        worn_out: left <= 0.0,
        fuse: Fuse { left: s(0.5), total: s(0.5), from: None },
        half_health: s(v(t.max_health) * 0.5),
        face: 4,
    }
}

fn coin() -> Bernoulli {
    Bernoulli::new(0.5).unwrap()
}

fn rules(trace: bool) -> PackRules {
    PackRules { view_range: s(300.0), leash: s(200.0), flee: s(90.0), hold: s(4.0), decayed: s(0.0), trace }
}

fn contender(_ring: Ring, entity: u64) -> Contender {
    Contender { entity, bearing: [s(1.0); 4], lateral: [s(1.0); 4], reachable: [true; 16] }
}

fn memory(action: &'static str) -> AiMemory {
    AiMemory { last_action: Some(action), retreating: false, breaching: None, escapes: 0 }
}

fn think(_e: u64, t: Tank, b: Brief) -> Thought {
    let intent = Intent { move_dir: Some(Dir::Left), fire: b.line_of_sight, ..Intent::default() };
    Thought { tank: t, intent, before: memory("patrol"), after: memory("attack") }
}

fn clear(_e: u64, _t: Tank) -> Traced {
    Traced { direct_route: true, in_range: true, clear_fire: true, clear_sight: true }
}

fn no_plan(units: &Vec<UnitView>) -> CommandCtx {
    let far = Approach { gap: s(1000.0), reach: s(50.0), closing: s(0.0), wait: s(100.0) };
    CommandCtx {
        enabled: true,
        watch: s(400.0),
        min_closing: s(10.0),
        horizon: s(2.0),
        yield_hold: s(3.0),
        escalate: s(1.0),
        ease: s(0.5),
        approaches: vec![vec![far; units.len()]; units.len()],
        lane_ttls: Vec::new(),
        claim_helds: Vec::new(),
    }
}

fn enemy_turn(game: &mut Game, f: &mut Frame, hidden: bool, trace: bool) -> (Vec<Pending>, Vec<Intent>) {
    game.enemy_phase(
        f,
        &rules(trace),
        &|_p: Point| hidden,
        &apart,
        &|d: Scalar| s(v(d) + 50.0),
        &contender,
        &|_r: Ring| EngageCtx { points: [Some(at(9.0, 9.0)); 16], line_of_sight: [true; 16] },
        &|_e: u64| false,
        &clear,
        &think,
        &|_e: u64, _t: Tank| (0, s(0.0)),
        &no_plan,
        &|slow: Scalar, by: Scalar| s(v(slow).max(v(by))),
    )
}

#[test]
fn the_pack_sees_thinks_and_fires_in_one_turn() {
    let mut game = round(Mission::Destroy, 1);
    let ready = game.place_enemy(1, enemy(100.0, 0.0, Role::Player));
    let reloading = game.place_enemy(2, Tank { fire_cooldown: s(0.5), ..enemy(120.0, 0.0, Role::Player) });
    let mut f = Frame::new();
    let (pending, intents) = enemy_turn(&mut game, &mut f, false, true);
    assert_eq!(pending.len(), 2);
    assert_eq!(intents.len(), 2);
    for p in &pending {
        assert!(p.intent.fire, "both see the player");
        assert_eq!(p.fires, p.entity == ready, "only a weapon that is ready fires");
        assert_eq!(p.slot, if p.entity == reloading { 2 } else { 1 });
    }
    assert_eq!(game.round.alert.current(), Some(at(0.0, 0.0)), "the pack knows where the player is");
    assert!(f.events.iter().any(|e| matches!(e, Event::Alert { on: true, .. })));
    let changed = f.events.iter().filter(|e| matches!(e, Event::AiAction { from: Some("patrol"), to: Some("attack"), .. }));
    assert_eq!(changed.count(), 2);
    assert_eq!(game.pack.report.tanks.len(), 2, "every enemy is on the report");
}

#[test]
fn a_player_in_tall_grass_is_lost_to_the_pack() {
    let mut game = round(Mission::Destroy, 1);
    game.place_enemy(1, enemy(100.0, 0.0, Role::Player));
    let mut f = Frame::new();
    let (pending, _) = enemy_turn(&mut game, &mut f, true, true);
    assert!(!pending[0].intent.fire && !pending[0].fires);
    assert_eq!(game.round.alert.current(), None);
    assert!(!f.events.iter().any(|e| matches!(e, Event::Alert { .. })));
}

#[test]
fn a_tank_you_just_shot_finds_you_in_the_grass() {
    let mut game = round(Mission::Destroy, 1);
    let mind = Mind { role: Role::Player, target_player: 0, hit_alerted: true, retreating: false };
    game.place_enemy(1, Tank { mind: Some(mind), ..enemy(100.0, 0.0, Role::Player) });
    let (pending, _) = enemy_turn(&mut game, &mut Frame::new(), true, false);
    assert!(pending[0].fires);
}

#[test]
fn an_enemy_turns_on_the_nearer_player_once_the_margin_is_met() {
    let mut game = round(Mission::Destroy, 2);
    let e = game.place_enemy(2, enemy(105.0, 0.0, Role::Player));
    let mut f = Frame::new();
    enemy_turn(&mut game, &mut f, false, true);
    assert_eq!(get_tank(&game, e).mind.unwrap().target_player, 1);
    assert!(f.events.contains(&Event::Retarget { slot: 2, player: 1 }));
}

#[test]
fn the_commander_holds_back_whoever_gives_way() {
    let mut game = round(Mission::Destroy, 1);
    game.place_enemy(1, enemy(100.0, 0.0, Role::Player));
    game.place_enemy(2, enemy(200.0, 0.0, Role::Player));
    let meet = |units: &Vec<UnitView>| {
        let near = Approach { gap: s(100.0), reach: s(50.0), closing: s(100.0), wait: s(0.5) };
        CommandCtx { approaches: vec![vec![near; units.len()]; units.len()], ..no_plan(units) }
    };
    let views = game.player_views(&|_p: Point| false);
    let (pending, intents) = game.play_turn(
        &mut Frame::new(),
        &views,
        &rules(false),
        &clear,
        &think,
        &|_e: u64, _t: Tank| (0, s(0.0)),
        &meet,
        &|slow: Scalar, by: Scalar| s(v(slow).max(v(by))),
    );
    let eased: Vec<usize> = pending
        .iter()
        .zip(&intents)
        .filter(|(p, i)| **i != p.intent)
        .map(|(p, _)| p.slot)
        .collect();
    assert_eq!(eased.len(), 1, "one of the two, never both");
}

#[test]
fn a_player_phase_fires_once_per_press_and_skips_a_seat_driving_in() {
    let mut game = round(Mission::Destroy, 2);
    let late = game.players()[1].unwrap();
    let mut t = get_tank(&game, late);
    t.rolling_in = true;
    game.field.put(late, t);
    let fire = Intent { fire: true, ..Intent::default() };
    assert_eq!(game.player_phase(&vec![fire, fire]), [Some(ActiveWeapon::Shell), None]);
    assert_eq!(game.player_phase(&vec![fire, fire]), [None, None], "the key is still down");
    game.player_phase(&vec![Intent::default(), fire]);
    assert_eq!(game.player_phase(&vec![fire, fire]), [Some(ActiveWeapon::Shell), None]);
}

fn ram_frame(game: &mut Game, f: &mut Frame, hidden: bool) -> usize {
    let strike = |a: Tank, b: Tank| (s(10.0), hurt_by(a, 10.0), hurt_by(b, 10.0));
    let gentle = |a: Tank, b: Tank| (s(5.0), hurt_by(a, 5.0), hurt_by(b, 5.0));
    let (first, second) = game.sync_tanks_and_ram(
        f,
        s(1.0),
        &|_e: u64, t: Tank| Tank { velocity: at(1.0, 0.0), ..t },
        &|_a: u64, _b: u64| true,
        &|_p: Point| hidden,
        &strike,
        &gentle,
    );
    first.iter().chain(second.iter()).filter(|r| r.is_some()).count()
}

#[test]
fn a_ram_names_the_player_first_and_cools_both_tanks_down() {
    let mut game = round(Mission::Destroy, 1);
    let e = game.place_enemy(1, enemy(10.0, 0.0, Role::Player));
    let mut f = Frame::new();
    assert_eq!(ram_frame(&mut game, &mut f, false), 1);
    assert_eq!(f.events, [Event::Ram { slot: 0, other_slot: 1, damage: s(10.0) }]);
    assert_eq!(v(get_tank(&game, e).damage), 10.0);
    assert_eq!(v(get_tank(&game, e).velocity.x), 1.0, "it stands where the physics put it");
    assert_eq!(ram_frame(&mut game, &mut f, false), 0, "both are cooling down");
}

#[test]
fn a_player_lost_in_grass_is_not_rammed() {
    let mut game = round(Mission::Destroy, 1);
    game.place_enemy(1, enemy(10.0, 0.0, Role::Player));
    let mut f = Frame::new();
    assert_eq!(ram_frame(&mut game, &mut f, true), 0);
    assert!(f.events.is_empty());
}

#[test]
fn two_players_ram_each_other_gently_and_enemies_ram_by_slot() {
    let mut game = round(Mission::Destroy, 2);
    let mut f = Frame::new();
    assert_eq!(ram_frame(&mut game, &mut f, true), 1);
    assert_eq!(f.events, [Event::Ram { slot: 0, other_slot: 1, damage: s(5.0) }]);
    game.place_enemy(4, enemy(10.0, 0.0, Role::Player));
    game.place_enemy(3, enemy(20.0, 0.0, Role::Player));
    let mut f = Frame::new();
    assert_eq!(ram_frame(&mut game, &mut f, true), 1);
    assert_eq!(f.events, [Event::Ram { slot: 3, other_slot: 4, damage: s(10.0) }]);
}

/// Push one tile for so many frames; says in which it fell.
fn push_until_it_falls(material: Material, limit: f32, frames: usize) -> Option<usize> {
    let mut game = round(Mission::Destroy, 1);
    let e = game.field.spawn(tile(material, 1, 0));
    let mut rng = SmallRng::seed_from_u64(1);
    let dt = 1.0 / 60.0;
    for frame in 0..frames {
        let mut f = Frame::new();
        game.ram_props(
            &mut f,
            &|_e: u64, t: Tile| Push {
                pushed: true,
                timer_up: s(v(t.ram_timer) + dt),
                timer_down: s((v(t.ram_timer) - dt).max(0.0)),
                limit: s(limit),
            },
            &|t: Tile| worn(t, f32::MAX),
            &|t: Tile| worn(t, 60.0 * dt),
            &Bernoulli::new(1.0).unwrap(),
            &mut rng,
        );
        if get_tile(&game, e).destroyed {
            assert!(f.events.iter().any(|e| matches!(e, Event::ObstacleDestroyed { .. })));
            return Some(frame);
        }
    }
    None
}

#[test]
fn a_tank_pushing_into_a_sandbag_flattens_it_and_a_fence_faster() {
    let sandbag = push_until_it_falls(Material::Sandbag, 0.8, 240).expect("the sandbag collapses");
    assert!(sandbag > 24, "it takes its seconds of pushing, not a touch: frame {}", sandbag);
    let fence = push_until_it_falls(Material::Fence, 0.4, 240).expect("the fence gives way");
    assert!(fence < sandbag, "fence {} vs sandbag {}", fence, sandbag);
    assert_eq!(push_until_it_falls(Material::Iron, 0.1, 240), None);
}

#[test]
fn ramming_a_barrel_sets_it_off() {
    let frame = push_until_it_falls(Material::Barrel, 99.0, 180).expect("pushing into a barrel pops it");
    assert!(frame > 60, "it is worn down, not popped at a touch: frame {}", frame);
}

#[test]
fn a_push_that_stops_runs_the_clock_back() {
    let mut game = round(Mission::Destroy, 1);
    let e = game.field.spawn(Tile { ram_timer: s(0.5), ..tile(Material::Sandbag, 1, 0) });
    let mut rng = SmallRng::seed_from_u64(1);
    game.ram_props(
        &mut Frame::new(),
        &|_e: u64, _t: Tile| Push { pushed: false, timer_up: s(9.0), timer_down: s(0.25), limit: s(0.1) },
        &|t: Tile| worn(t, f32::MAX),
        &|t: Tile| worn(t, 1.0),
        &coin(),
        &mut rng,
    );
    assert_eq!(v(get_tile(&game, e).ram_timer), 0.25);
    assert!(!get_tile(&game, e).destroyed);
    assert_eq!(rng, SmallRng::seed_from_u64(1), "nothing is drawn");
}

fn blast_rules() -> BlastRules {
    BlastRules {
        radius: s(100.0),
        cell: Cell { col: 0, row: 0 },
        reach: 1,
        gap: s(0.3),
        parts: 0,
        track_reach: s(40.0),
        track_marks: 2,
        rethrow_reach: s(70.0),
        rethrow_max: 1,
        pop_hash: 7,
        pop_max: 2,
    }
}

/// Set a barrel off at the origin.
fn detonate(game: &mut Game, f: &mut Frame, live: bool, rolled: &RefCell<Vec<(Material, bool)>>) -> BlastOutcome {
    let from = at(0.0, 0.0);
    let blast = PendingBlast { center: from, drum: Drum::Oil, shape: BlastShape::Shot { dir: at(1.0, 0.0) } };
    let mut rng = SmallRng::seed_from_u64(1);
    let spark = |pool: bool| move |cell: Cell| Spark { cell, at: center(cell), on_field: true, wet: false, seconds: s(3.0), spread_at: s(1.0), pool };
    game.apply_blast(
        f,
        &blast,
        live,
        &blast_rules(),
        &Odds::Always,
        &Bernoulli::new(1.0).unwrap(),
        &|c: Point, p: Point| apart(p, c),
        &|_w: Source, t: Tank, d: Scalar| hurt_by(t, 150.0 - v(d)),
        &|_w: Source, g: Frog, _d: Scalar| Frog { health: s(0.0), dead: true, ..g },
        &|_w: Source, _c: Point, t: Tile, d: Scalar, roll: bool| {
            rolled.borrow_mut().push((t.material, roll));
            (s(1.0 - v(d) / 100.0), worn(t, 500.0))
        },
        &|p: Point, c: Cell| apart(center(c), p),
        &spark(true),
        &spark(false),
        &|m: Mark| m.sprite != 0,
        &|_c: Point, n: u32| Cookoff { at: at(n as f32, 0.0), left: s(1.0) },
        &mut rng,
    )
}

#[test]
fn a_shot_barrel_detonates_and_hurts_the_shooter_in_range() {
    let mut game = round(Mission::Hunt, 1);
    let shooter = game.player().unwrap();
    let far = game.place_enemy(1, enemy(90.0, 0.0, Role::Player));
    let out = game.place_enemy(2, enemy(101.0, 0.0, Role::Player));
    let frog = game.spawn_frog(Side::Player, at(20.0, 0.0), 0, s(20.0)).unwrap();
    let wall = game.field.spawn(tile(Material::Brick, 1, 0));
    let barrel = game.field.spawn(tile(Material::Barrel, 2, 0));
    let lit = Tile { fuse: Some(Fuse { left: s(1.0), total: s(1.0), from: None }), ..tile(Material::Barrel, 0, 2) };
    let burning = game.field.spawn(lit);
    game.show.tracks = (0..4).map(|i| TrackMark { at: at(i as f32 * 15.0, 0.0), scorched: false }).collect();
    game.show.decals = vec![Mark { at: at(5.0, 0.0), sprite: 0 }, Mark { at: at(6.0, 0.0), sprite: 1 }, Mark { at: at(7.0, 0.0), sprite: 2 }];
    let mut f = Frame::new();
    let rolled = RefCell::new(Vec::new());
    let r = detonate(&mut game, &mut f, true, &rolled);
    assert!(get_tank(&game, shooter).wreck, "the shooter stood inside the blast radius");
    assert_eq!(get_tile(&game, wall).soot, 4, "the face that looked at it is sooted");
    assert_eq!(get_tile(&game, barrel).soot, 0, "a wall's business only");
    assert_eq!(v(get_tank(&game, far).damage), 60.0);
    assert_eq!(v(get_tank(&game, out).damage), 0.0, "out of reach");
    assert_eq!(r.shoved, [far], "whoever lives is shoved");
    assert_eq!(f.kills, [Kill { at: at(0.0, 0.0), victim: Owner::Player(0) }]);
    assert!(game.field.get::<Frog>(frog).unwrap().dead);
    assert!(get_tile(&game, wall).destroyed);
    assert!(get_tile(&game, barrel).fuse.is_some() && !get_tile(&game, barrel).destroyed, "a barrel chains");
    assert_eq!(get_tile(&game, burning), lit, "a lit fuse is passed over");
    let mut seen = rolled.into_inner();
    seen.sort_by_key(|(_, roll)| *roll);
    assert_eq!(seen, [(Material::Barrel, false), (Material::Brick, true)], "nothing is rolled for a barrel");
    assert!(r.pool);
    assert_eq!(game.ground.fires.len(), 5, "a plus of fire");
    assert_eq!(f.shocks.last().unwrap().kind, ShockKind::Barrel);
    assert_eq!(r.show.streak, Some(at(1.0, 0.0)), "the scorch is drawn out along the shot");
    assert_eq!(r.show.parts, 0);
    assert!(f.rubble.iter().any(|r| r.material == Material::Barrel), "without parts the rubble stays");
    assert_eq!(r.show.rethrown, [1], "one lying piece, no more than the cap");
    assert_eq!(game.show.cookoffs.len(), 1, "seven modulo three");
    let burnt: Vec<bool> = game.show.tracks.iter().map(|t| t.scorched).collect();
    assert_eq!(burnt, [false, true, true, false], "the newest two in reach");
    assert_eq!(game.round.flash.age, Some(s(0.0)));
}

#[test]
fn on_the_end_screen_a_blast_is_only_shown() {
    let mut game = round(Mission::Destroy, 1);
    let wall = game.field.spawn(tile(Material::Brick, 1, 0));
    let mut f = Frame::new();
    let rolled = RefCell::new(Vec::new());
    let r = detonate(&mut game, &mut f, false, &rolled);
    assert!(r.shoved.is_empty() && !r.pool && f.kills.is_empty());
    assert!(!get_tile(&game, wall).destroyed && rolled.borrow().is_empty());
    assert!(game.ground.fires.is_empty());
    assert_eq!(f.shocks.len(), 1, "the show plays");
}

fn cracked(_w: Source, _c: Point, t: Tile, d: Scalar, _roll: bool) -> (Scalar, Blow) {
    (s(1.0 - v(d) / 100.0), worn(t, 10.0))
}

#[test]
fn a_missile_soots_a_wall_and_a_wreck_does_not() {
    let mut rng = SmallRng::seed_from_u64(1);
    for (source, soot) in [(Source::Missile, 6), (Source::Oil, 6), (Source::Fuel, 6), (Source::Wreck, 2)] {
        let mut game = round(Mission::Destroy, 1);
        let wall = game.field.spawn(Tile { soot: 2, ..tile(Material::Iron, 1, 0) });
        let far = game.field.spawn(tile(Material::Iron, 9, 0));
        let mut f = Frame::new();
        let range = |c: Point, p: Point| apart(p, c);
        game.shake_tiles(&mut f, source, at(0.0, 0.0), s(100.0), false, &range, &cracked, &coin(), &mut rng);
        assert_eq!(get_tile(&game, wall).soot, soot, "{source:?}");
        assert_eq!(v(get_tile(&game, wall).health), 90.0);
        assert_eq!(get_tile(&game, far).soot, 0, "out of reach");
    }
}

#[test]
fn a_wrecks_splash_sets_off_a_barrel_next_to_it() {
    let mut game = round(Mission::Destroy, 1);
    let seat = game.player().unwrap();
    let ally = game.place_enemy(2, enemy(10.0, 0.0, Role::Player));
    let barrel = game.field.spawn(tile(Material::Barrel, 1, 0));
    let mut f = Frame::new();
    let mut rng = SmallRng::seed_from_u64(1);
    let kill = Kill { at: at(20.0, 0.0), victim: Owner::Enemy(1) };
    let shoved = game.apply_explosion(
        &mut f,
        &kill,
        s(100.0),
        &|c: Point, p: Point| apart(p, c),
        &|_w: Source, t: Tank, _d: Scalar| hurt_by(t, 30.0),
        &cracked,
        &coin(),
        &mut rng,
    );
    assert_eq!(f.events[0], Event::Wreck { slot: 1, x: s(20.0), y: s(0.0) });
    assert_eq!(f.shocks[0].kind, ShockKind::Kill);
    assert_eq!(v(get_tank(&game, seat).damage), 30.0, "the side opposing the victim is hurt");
    assert_eq!(v(get_tank(&game, ally).damage), 0.0);
    assert_eq!(shoved, [seat, ally], "everyone is shoved");
    let fuse = get_tile(&game, barrel).fuse.expect("the wreck's explosion fuses the barrel");
    assert_eq!(fuse.from, Some(at(20.0, 0.0)), "and the barrel remembers what lit it");
    assert_eq!(game.fused_barrels().len(), 1);
}

#[test]
fn a_missile_burst_hurts_opponents_and_barrels_alike() {
    let mut game = round(Mission::Hunt, 1);
    let seat = game.player().unwrap();
    let foe = game.place_enemy(1, enemy(10.0, 0.0, Role::Player));
    let own = game.spawn_frog(Side::Player, at(5.0, 0.0), 0, s(20.0)).unwrap();
    let barrel = game.field.spawn(tile(Material::Barrel, 1, 0));
    let m = Missile {
        id: 1,
        owner: Owner::Player(0),
        position: at(0.0, 0.0),
        aim: at(0.0, 0.0),
        offset: at(0.0, 0.0),
        target: None,
        climbed: true,
        locked: true,
        diving: true,
        arrived: true,
    };
    let mut rng = SmallRng::seed_from_u64(1);
    let mut burst = |game: &mut Game, f: &mut Frame, live: bool| {
        game.missile_blast(
            f,
            &m,
            live,
            s(60.0),
            &|c: Point, p: Point| apart(p, c),
            &|_w: Source, t: Tank, _d: Scalar| hurt_by(t, 30.0),
            &|_w: Source, g: Frog, _d: Scalar| Frog { dead: true, ..g },
            &cracked,
            &coin(),
            &mut rng,
        )
    };
    let mut f = Frame::new();
    assert!(burst(&mut game, &mut f, false).is_empty());
    assert_eq!(f.events, [Event::MissileBlast { slot: 0, x: s(0.0), y: s(0.0) }]);
    assert_eq!(f.shocks[0].kind, ShockKind::Missile);
    assert_eq!(v(get_tank(&game, foe).damage), 0.0, "not on the end screen");
    let shoved = burst(&mut game, &mut f, true);
    assert_eq!(shoved, [seat, foe]);
    assert_eq!(v(get_tank(&game, foe).damage), 30.0);
    assert_eq!(v(get_tank(&game, seat).damage), 0.0);
    assert!(!game.field.get::<Frog>(own).unwrap().dead, "its own side's frog is spared");
    assert!(get_tile(&game, barrel).fuse.is_some());
}

#[test]
fn a_missile_leaves_the_field_and_bursts() {
    let mut game = round(Mission::Destroy, 1);
    let seat = game.player().unwrap();
    let foe = game.place_enemy(1, enemy(10.0, 0.0, Role::Player));
    let down = Missile {
        id: 1,
        owner: Owner::Player(0),
        position: at(0.0, 0.0),
        aim: at(0.0, 0.0),
        offset: at(0.0, 0.0),
        target: None,
        climbed: true,
        locked: true,
        diving: true,
        arrived: true,
    };
    let spent = game.field.spawn(down);
    let flying = game.field.spawn(Missile { id: 2, arrived: false, ..down });
    let mut f = Frame::new();
    let mut rng = SmallRng::seed_from_u64(1);
    let bursts = game.resolve_missiles(
        &mut f,
        true,
        s(60.0),
        &|c: Point, p: Point| apart(p, c),
        &|w: Source, t: Tank, _d: Scalar| hurt_by(t, if w == Source::Missile { 40.0 } else { 0.0 }),
        &|_w: Source, g: Frog, _d: Scalar| g,
        &cracked,
        &coin(),
        &mut rng,
    );
    assert_eq!(bursts.len(), 1);
    assert_eq!(bursts[0].missile, down);
    assert_eq!(f.scorches, [Scorch { at: down.position, streak: None, dry_only: true }]);
    assert_eq!(bursts[0].shoved, [seat, foe]);
    assert_eq!(v(get_tank(&game, foe).damage), 40.0);
    assert_eq!(game.field.get::<Missile>(spent), None);
    assert!(game.field.get::<Missile>(flying).is_some(), "one still in the air flies on");
    assert_eq!(f.shocks.len(), 1);
}

#[test]
fn one_explosion_sets_off_the_next_until_none_is_left() {
    let mut game = round(Mission::Destroy, 1);
    let seat = game.player().unwrap();
    let near = game.place_enemy(1, enemy(90.0, 0.0, Role::Player));
    let next = game.place_enemy(2, enemy(170.0, 0.0, Role::Player));
    let barrel = game.field.spawn(tile(Material::Barrel, 1, 0));
    let mut f = Frame::new();
    f.pending_blasts.push(PendingBlast { center: at(0.0, 0.0), drum: Drum::Fuel, shape: BlastShape::Plain });
    let spark = |pool: bool| move |cell: Cell| Spark { cell, at: center(cell), on_field: true, wet: false, seconds: s(3.0), spread_at: s(1.0), pool };
    let works = Ordnance {
        plan: |_b: PendingBlast| BlastRules { pop_max: 0, ..blast_rules() },
        range: |c: Point, p: Point| apart(p, c),
        strike: |w: Source, t: Tank, _d: Scalar| hurt_by(t, if w == Source::Fuel { 150.0 } else { 20.0 }),
        bite: |_w: Source, g: Frog, _d: Scalar| g,
        wear: cracked,
        cells: |p: Point, c: Cell| apart(center(c), p),
        pool: spark(true),
        trail: spark(false),
        lying: |_m: Mark| true,
        pop: |c: Point, n: u32| Cookoff { at: c, left: s(n as f32) },
        odds: Odds::Never,
    };
    let plan = WreckRules { gap: s(0.3), track_reach: s(40.0), track_marks: 1, pops: 2 };
    let mut rng = SmallRng::seed_from_u64(1);
    let left = game.explosions(
        &mut f,
        true,
        &plan,
        s(100.0),
        &coin(),
        &works,
        &mut rng,
    );
    assert!(get_tank(&game, seat).wreck && get_tank(&game, near).wreck, "the barrel takes both with it");
    assert_eq!(v(get_tank(&game, next).damage), 0.0, "out of the barrel's reach, and spared by its ally's wreck");
    assert_eq!(left.len(), 3, "the barrel and then both wrecks");
    assert!(matches!(left[0], Aftermath::Blast { blast: PendingBlast { drum: Drum::Fuel, .. }, .. }));
    let order: Vec<Owner> = left
        .iter()
        .filter_map(|l| match l {
            Aftermath::Wreck { kill, .. } => Some(kill.victim),
            Aftermath::Blast { .. } => None,
        })
        .collect();
    assert_eq!(order, [Owner::Player(0), Owner::Enemy(1)], "players first");
    assert!(matches!(&left[2], Aftermath::Wreck { shoved, .. } if shoved == &[next]), "an ally is shoved all the same");
    assert_eq!(f.pending_blasts.len(), 1, "a barrel in a blast goes on a fuse");
    assert!(get_tile(&game, barrel).fuse.is_some());
    assert_eq!(game.show.cookoffs.len(), 4, "two pops a wreck, each at its own");
    assert_eq!(game.show.cookoffs[2].at, at(90.0, 0.0));
    assert_eq!(f.shocks.iter().filter(|k| k.kind == ShockKind::Kill).count(), 2);
    let again = game.explode_next(
        &mut f,
        &mut ExplosionQueue { wrecks_done: 2, blasts_done: 1 },
        true,
        &plan,
        s(100.0),
        &coin(),
        &works,
        &mut rng,
    );
    assert!(again.is_none(), "everything is worked off");
}

#[test]
fn a_dying_tank_throws_wreckage_and_cooks_off() {
    let mut game = round(Mission::Destroy, 1);
    let plan = WreckRules { gap: s(0.3), track_reach: s(40.0), track_marks: 1, pops: 3 };
    game.show.tracks = vec![TrackMark { at: at(0.0, 0.0), scorched: false }; 2];
    game.wreck_fx(at(0.0, 0.0), &plan, &|c: Point, p: Point| apart(p, c), &|_c: Point, n: u32| Cookoff { at: at(n as f32, 0.0), left: s(n as f32) });
    assert_eq!(game.round.flash, ScreenFlash { age: Some(s(0.0)), cooldown: s(0.3) }, "and flashes");
    assert_eq!(game.show.tracks.iter().filter(|t| t.scorched).count(), 1);
    assert_eq!(game.show.cookoffs.len(), 3, "with its ammo queued to cook off");
    let mut f = Frame::new();
    let lefts = vec![s(-0.1), s(0.9), s(1.9)];
    tick_cookoffs(&mut game.show.cookoffs, &lefts, &mut f);
    assert_eq!(f.events, [Event::CookOff { x: s(0.0), y: s(0.0) }], "the secondaries fire after the kill");
    assert_eq!(f.shocks[0].kind, ShockKind::CookOff);
    assert!(f.kills.is_empty());
    assert_eq!(game.show.cookoffs.len(), 2);
    game.wreck_fx(at(0.0, 0.0), &WreckRules { pops: -1, ..plan }, &|c: Point, p: Point| apart(p, c), &|_c: Point, _n: u32| panic!("none are queued"));
    assert_eq!(game.show.cookoffs.len(), 2);
}

#[test]
fn effects_end_when_their_time_is_up() {
    let mut game = round(Mission::Destroy, 1);
    let wave = |time: f32| Shockwave { at: at(0.0, 0.0), strength: s(1.0), time: s(time), remaining: s(1.0) };
    game.show.shocks = vec![wave(0.0), wave(0.9)];
    game.show.muzzle_flashes = vec![wave(0.05)];
    game.show.impact_flashes = vec![wave(0.0)];
    game.round.flash.flash_screen(s(0.5));
    let durations = Durations {
        shocks: s(1.0),
        muzzle_flashes: s(0.1),
        impact_flashes: s(0.3),
        flash: s(0.2),
        flash_age: s(0.1),
        flash_cooldown: s(0.4),
    };
    let age = |w: Shockwave| (s(v(w.time) + 0.1), s(0.5));
    game.tick_effects(&durations, &age);
    assert_eq!(game.show.shocks, [Shockwave { time: s(0.1), remaining: s(0.5), ..wave(0.0) }]);
    assert!(game.show.muzzle_flashes.is_empty());
    assert_eq!(game.show.impact_flashes.len(), 1);
    assert_eq!(game.round.flash, ScreenFlash { age: Some(s(0.1)), cooldown: s(0.4) });
    game.tick_effects(&Durations { flash_age: s(0.2), flash_cooldown: s(0.3), ..durations }, &age);
    assert_eq!(game.round.flash, ScreenFlash { age: None, cooldown: s(0.3) });
}

#[test]
fn tracks_are_laid_by_what_the_hull_does() {
    let treads = Treads { frame: 2, turned: s(0.5), track_accum: s(3.0), marks: 7 };
    let stride = |moved: f32| Stride {
        moved: s(moved),
        turns: 5,
        turned: s(0.25),
        presses: vec![at(1.0, 0.0), at(5.0, 0.0)],
        track_accum: s(1.5),
    };
    let lay = |tank: Tank, moved: f32, dry: bool| {
        let mut marks = vec![TrackMark { at: at(-9.0, 0.0), scorched: true }];
        let (step, after) = lay_tracks(&mut marks, &tank, treads, &stride(moved), s(90.0), dry, 4);
        (step, after, marks.len(), marks[marks.len() - 1])
    };
    let old = TrackMark { at: at(-9.0, 0.0), scorched: true };
    let turned = Treads { frame: 3, turned: s(0.25), ..treads };
    assert_eq!(
        lay(tank(), 2.0, true),
        (TrackStep::Mark, Treads { track_accum: s(1.5), marks: 9, ..turned }, 3, TrackMark { at: at(5.0, 0.0), scorched: false })
    );
    assert_eq!(lay(tank(), 2.0, false), (TrackStep::Wade, Treads { track_accum: s(0.0), ..turned }, 1, old));
    assert_eq!(lay(tank(), 0.0, true), (TrackStep::Idle, Treads { frame: 0, ..treads }, 1, old));
    assert_eq!(lay(hurt_by(tank(), 95.0), 2.0, true), (TrackStep::Nothing, treads, 1, old));
    let mut marks = vec![1, 2];
    push_decal(&mut marks, 3, 2);
    assert_eq!(marks, [2, 3]);
    let mut f = Frame::new();
    record_quarantine(&mut f, 0, 0);
    assert!(f.events.is_empty());
    record_quarantine(&mut f, 1, 0);
    assert_eq!(f.events, [Event::PhysicsQuarantine { bodies: 1, colliders: 0 }]);
}

fn here(a: Point, b: Point) -> bool {
    v(apart(a, b)) <= 0.5
}

fn close_by(a: Point, b: Point) -> bool {
    v(apart(a, b)) <= GRID * 1.5
}

fn sites(slot: Point) -> Vec<Site> {
    let cell = Cell { col: (v(slot.x) / GRID).round() as i32, row: (v(slot.y) / GRID).round() as i32 };
    bonus_cells(cell).iter().map(|c| Site { at: center(*c), open: true, inside: true }).collect()
}

fn kinds(game: &Game) -> Vec<PickupKind> {
    let mut all: Vec<(u64, Pickup)> = game.field.all();
    all.sort_by_key(|(id, _)| *id);
    all.iter().map(|(_, p)| p.kind).collect()
}

fn supply(game: &mut Game, f: &mut Frame, slots: &Vec<PickupSlot>, next: f32, roll: bool, rng: &mut SmallRng) -> Option<PickupSlot> {
    game.tick_respawn(
        f,
        slots,
        s(next),
        s(20.0),
        &sites,
        &here,
        &close_by,
        &|_k: PickupKind| roll,
        &|g: Frog| v(g.health) < v(g.max_health),
        rng,
    )
}

#[test]
fn a_collected_pickup_respawns_only_after_the_delay() {
    let mut game = round(Mission::Destroy, 1);
    let slots = vec![PickupSlot { at: at(320.0, 0.0), kind: PickupKind::Ammo }];
    let crate_id = game.spawn_pickup_at(slots[0].at, slots[0].kind);
    let mut rng = SmallRng::seed_from_u64(1);
    let mut f = Frame::new();
    assert_eq!(supply(&mut game, &mut f, &slots, 3.0, false, &mut rng), None);
    assert_eq!(v(game.round.pickup_respawn_timer), 20.0, "a full field holds the clock");
    game.field.despawn(crate_id);
    assert_eq!(supply(&mut game, &mut f, &slots, 19.0, false, &mut rng), None, "not before the delay");
    assert_eq!(v(game.round.pickup_respawn_timer), 19.0);
    assert_eq!(rng, SmallRng::seed_from_u64(1));
    assert_eq!(supply(&mut game, &mut f, &slots, -0.1, false, &mut rng), Some(slots[0]));
    assert_eq!(f.events, [Event::PickupRespawned { kind: PickupKind::Ammo, x: s(320.0), y: s(0.0) }]);
    assert_eq!(v(game.round.pickup_respawn_timer), 20.0);
    assert_eq!(kinds(&game), [PickupKind::Ammo]);
}

#[test]
fn a_bonus_off_its_slot_never_makes_the_field_look_full() {
    let mut game = round(Mission::Destroy, 1);
    let slots = vec![PickupSlot { at: at(320.0, 0.0), kind: PickupKind::Ammo }];
    game.spawn_pickup_at(at(352.0, 0.0), PickupKind::Shield);
    let mut rng = SmallRng::seed_from_u64(1);
    assert!(supply(&mut game, &mut Frame::new(), &slots, 0.0, false, &mut rng).is_some());
}

#[test]
fn the_bonus_pack_rolls_only_while_the_frog_is_hurt() {
    let slots = vec![PickupSlot { at: at(320.0, 320.0), kind: PickupKind::Health }];
    for (health, expected) in [
        (60.0, vec![PickupKind::Health, PickupKind::Shield]),
        (30.0, vec![PickupKind::Health, PickupKind::Shield, PickupKind::FrogHealth]),
    ] {
        let mut game = round(Mission::Protect, 1);
        let frog = game.spawn_frog(Side::Player, at(0.0, 0.0), 0, s(60.0)).expect("a Protect round has a frog");
        let g = game.field.get::<Frog>(frog).unwrap();
        game.field.put(frog, Frog { health: s(health), ..g });
        let mut rng = SmallRng::seed_from_u64(1);
        supply(&mut game, &mut Frame::new(), &slots, 0.0, true, &mut rng);
        assert_eq!(kinds(&game), expected);
    }
}

#[test]
fn a_pristine_frogs_health_slot_draws_no_more_rng_than_the_shield_roll_alone() {
    let slot = center(Cell { col: 11, row: 10 });
    let (mut with_gate, mut shield_only) = (SmallRng::seed_from_u64(99), SmallRng::seed_from_u64(99));
    let (mut a, mut b) = (round(Mission::Destroy, 1), round(Mission::Destroy, 1));
    let yes = |_k: PickupKind| true;
    a.maybe_spawn_health_slot_bonuses(slot, false, &sites(slot), &here, &close_by, &yes, &mut with_gate);
    b.maybe_spawn_bonus(slot, PickupKind::Shield, &sites(slot), &here, &close_by, &yes, &mut shield_only);
    assert_eq!(with_gate.random::<u64>(), shield_only.random::<u64>(), "a pristine frog must add no draw of its own");
    assert_eq!(kinds(&a), kinds(&b));
}

#[test]
fn a_bonus_already_there_is_not_rolled_for() {
    let slot = at(320.0, 320.0);
    let mut game = round(Mission::Destroy, 1);
    game.spawn_pickup_at(at(352.0, 320.0), PickupKind::Shield);
    let mut rng = SmallRng::seed_from_u64(5);
    let never = |_k: PickupKind| -> bool { panic!("nothing is rolled") };
    assert_eq!(game.maybe_spawn_bonus(slot, PickupKind::Shield, &sites(slot), &here, &close_by, &never, &mut rng), None);
    let full: Vec<Site> = vec![
        Site { at: at(352.0, 320.0), open: true, inside: true },
        Site { at: at(0.0, 0.0), open: false, inside: true },
        Site { at: at(0.0, 0.0), open: true, inside: false },
    ];
    let yes = |_k: PickupKind| true;
    assert_eq!(game.maybe_spawn_bonus(slot, PickupKind::FrogHealth, &full, &here, &close_by, &yes, &mut rng), None);
    assert_eq!(rng, SmallRng::seed_from_u64(5));
}

fn no_odds() -> MaterialOdds {
    MaterialOdds {
        brick: Odds::Never,
        iron: Odds::Never,
        wood: Odds::Never,
        glass: Odds::Never,
        sandbag: Odds::Never,
        barrel: Odds::Never,
        fence: Odds::Never,
        tree: Odds::Never,
        pine: Odds::Never,
    }
}

fn shot_rules(live: bool) -> ShotRules {
    ShotRules {
        pass_over: no_odds(),
        deflects: no_odds(),
        fence_one_shot: coin(),
        can_bounce: true,
        frog_hops: true,
        live,
    }
}

fn along_the_way(target: ShellTarget, owner: Option<Owner>, enters: f32) -> Candidate {
    Candidate { target, owner, wreck: false, enters: Some(s(enters)) }
}

fn shell(id: u32, owner: Owner) -> Shot {
    Shot { kind: ProvisionalKind::Shell, id, owner, position: at(0.0, 0.0), prev_position: at(0.0, 0.0), velocity: at(0.0, 0.0), rotation: s(0.0), variant: 0, plasma_variant: PlasmaVariant::Teal, shooter_row: 0, state: ShotState::Flying }
}

/// Fly every shell along the same way; each takes a hundred off.
fn volley(game: &mut Game, f: &mut Frame, way: Vec<Candidate>, boxes: &Vec<TerrainBox>, live: bool) -> Vec<Flown> {
    let gunnery = Gunnery {
        along: |_s: Shot, t: Scalar| at(v(t) * 100.0, 0.0),
        turn: |s: Shot, _away: Point| s,
        spend: |t: Tank, _s: Shot| (s(v(t.shield) - 30.0), s(2.0)),
        ricochets: |_s: Shot, b: TerrainBox| b.material == Material::Iron,
        reflect: |s: Shot, _b: TerrainBox| (s, Scalar { bits: 90.0f32.to_bits() }),
        wound: |t: Tank, d: Scalar| hurt_by(t, v(d)),
        hurt: |g: Frog, _d: Scalar| g,
        wear: |t: Tile, d: Scalar| worn(t, v(d)),
        roll: |_s: Shot| s(100.0),
        travel: |_s: Shot| at(1.0, 0.0),
    };
    let mut rng = SmallRng::seed_from_u64(1);
    game.resolve_projectiles(
        f,
        ProvisionalKind::Shell,
        boxes,
        &shot_rules(live),
        &|_e: u64, _s: Shot| way.clone(),
        &|_e: u64| vec![],
        &gunnery,
        &mut rng,
    )
}

#[test]
fn a_shot_passes_through_what_an_earlier_one_wrecked() {
    let mut game = round(Mission::Destroy, 1);
    let front = game.place_enemy(1, enemy(50.0, 0.0, Role::Player));
    let back = game.place_enemy(2, enemy(80.0, 0.0, Role::Player));
    game.field.spawn(shell(1, Owner::Player(0)));
    game.field.spawn(shell(2, Owner::Player(0)));
    game.field.spawn(Shot { state: ShotState::Bursting, ..shell(3, Owner::Player(0)) });
    game.field.spawn(Shot { kind: ProvisionalKind::Bullet, ..shell(4, Owner::Player(0)) });
    let way = vec![
        along_the_way(ShellTarget::EnemyTank(front), Some(Owner::Enemy(1)), 0.5),
        along_the_way(ShellTarget::EnemyTank(back), Some(Owner::Enemy(2)), 0.8),
        along_the_way(ShellTarget::EnemyTank(9999), Some(Owner::Enemy(3)), 0.1),
    ];
    let mut f = Frame::new();
    let outs = volley(&mut game, &mut f, way.clone(), &vec![], true);
    assert_eq!(outs.len(), 2, "only the shells in the air");
    assert_eq!(outs[0].landed, Landed::Burst(ShellTarget::EnemyTank(front), at(50.0, 0.0), true));
    assert_eq!(outs[0].hit, Some(HitResult::Tank(front, TankHit::Killed)));
    assert_eq!(outs[1].hit, Some(HitResult::Tank(back, TankHit::Killed)));
    assert_eq!(f.kills.len(), 2);
    assert_eq!(volley(&mut game, &mut f, way, &vec![], true).len(), 0, "both have burst");
}

#[test]
fn a_dead_round_bursts_its_shots_without_hitting() {
    let mut game = round(Mission::Destroy, 1);
    let e = game.place_enemy(1, enemy(50.0, 0.0, Role::Player));
    let shot = game.field.spawn(shell(1, Owner::Player(0)));
    let way = vec![along_the_way(ShellTarget::EnemyTank(e), Some(Owner::Enemy(1)), 0.5)];
    let mut f = Frame::new();
    let outs = volley(&mut game, &mut f, way, &vec![], false);
    assert_eq!(outs[0].hit, None);
    assert!(f.events.is_empty());
    assert_eq!(v(get_tank(&game, e).damage), 0.0);
    assert_eq!(game.field.get::<Shot>(shot).unwrap().state, ShotState::Bursting);
}

#[test]
fn a_shell_ricochets_off_iron_and_flies_on() {
    let mut game = round(Mission::Destroy, 1);
    let wall = game.field.spawn(tile(Material::Iron, 1, 0));
    let shot = game.field.spawn(shell(1, Owner::Player(0)));
    let boxes = vec![TerrainBox { entity: wall, center: center(Cell { col: 1, row: 0 }), half: at(16.0, 16.0), material: Material::Iron }];
    let way = vec![along_the_way(ShellTarget::Obstacle(wall), None, 0.2)];
    let mut f = Frame::new();
    let outs = volley(&mut game, &mut f, way, &boxes, true);
    assert_eq!(outs[0].landed, Landed::Bounced(at(20.0, 0.0)));
    assert_eq!(outs[0].hit, None);
    assert_eq!(f.events, [Event::Ricochet { slot: 0, x: s(20.0), y: s(0.0), heading: s(90.0) }]);
    assert_eq!(game.field.get::<Shot>(shot).unwrap().state, ShotState::Flying);
}

#[test]
fn beams_strike_the_nearest_thing_at_once_or_reach_their_end() {
    let mut game = round(Mission::Destroy, 1);
    let e = game.place_enemy(1, enemy(50.0, 0.0, Role::Player));
    let wall = game.field.spawn(tile(Material::Brick, 2, 0));
    let beam = Beam { owner: Owner::Player(0), start: at(0.0, 0.0), end: at(100.0, 0.0) };
    let off = Beam { end: at(0.0, 100.0), ..beam };
    let way = |b: Beam| {
        if b == off {
            vec![]
        } else {
            vec![
                along_the_way(ShellTarget::Obstacle(wall), None, 0.7),
                along_the_way(ShellTarget::EnemyTank(e), Some(Owner::Enemy(1)), 0.5),
            ]
        }
    };
    let mut f = Frame::new();
    let mut rng = SmallRng::seed_from_u64(1);
    let outs = game.resolve_lasers(
        &mut f,
        &vec![beam, off, beam, beam],
        &way,
        &|b: Beam, t: Scalar| at(v(b.end.x) * v(t), 0.0),
        &|t: Tank, d: Scalar| hurt_by(t, v(d)),
        &|g: Frog, _d: Scalar| g,
        &|t: Tile, d: Scalar| worn(t, v(d)),
        &|_b: Beam| s(60.0),
        &coin(),
        &mut rng,
    );
    assert_eq!(outs[0], (at(50.0, 0.0), Some(HitResult::Tank(e, TankHit::Survived))));
    assert_eq!(outs[1], (at(0.0, 100.0), None));
    assert_eq!(outs[2].1, Some(HitResult::Tank(e, TankHit::Killed)));
    assert_eq!(outs[3], (at(70.0, 0.0), Some(HitResult::Tile(false))), "past the wreck");
}

#[test]
fn a_blast_plays_its_show_on_the_end_screen_and_hurts_nobody() {
    for live in [true, false] {
        let mut game = round(Mission::Destroy, 1);
        let seat = game.player().unwrap();
        let mut f = Frame::new();
        detonate(&mut game, &mut f, live, &RefCell::new(Vec::new()));
        assert_eq!(f.shocks.len(), 1);
        assert_eq!(f.flashes, [at(0.0, 0.0)]);
        assert_eq!(f.fireballs, [Fireball { at: at(0.0, 0.0), kind: FireballKind::Oil }]);
        assert_eq!(f.scorches, [Scorch { at: at(0.0, 0.0), streak: Some(at(1.0, 0.0)), dry_only: false }]);
        assert_eq!(get_tank(&game, seat).wreck, live);
        assert_eq!(f.kills.len(), usize::from(live));
    }
}
