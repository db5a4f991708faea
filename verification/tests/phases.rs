//! A frame's phases on the field: shots landing, fire spreading, streams,
//! fuses, blasts, missiles, rams and the pack's perception.

use rand::distr::Bernoulli;
use rand::rngs::SmallRng;
use rand::SeedableRng;
use tank_rounds::blasts::Harm;
use tank_rounds::chart::{nav_grid_ascii, Spot, TankSpot};
use tank_rounds::clusters::clusters;
use tank_rounds::combat::{cookoff_count, pool_cells, ram, shell_vs_shell, ExplosionQueue, Explosion, FrogHit, TankHit};
use tank_rounds::command::UnitView;
use tank_rounds::comms::Unit;
use tank_rounds::enemies::Ring;
use tank_rounds::engage::{Contender, EngageCtx, EngageStatus};
use tank_rounds::event::{Event, HitTarget};
use tank_rounds::flame::{Flare, FlameLimits, Hot, TileFlame};
use tank_rounds::frame::{BlastShape, Frame, PendingBlast};
use tank_rounds::game::{Game, Setup};
use tank_rounds::dice::Odds;
use tank_rounds::hits::{fly, line_of_sight, sweep, Candidate, MaterialOdds, ShellTarget, TerrainBox};
use tank_rounds::input::PlayerCount;
use tank_rounds::kit::Kit;
use tank_rounds::kinds::{ActiveWeapon, Cell, Drum, LaserVariant, Material, Mission, Owner, PlasmaVariant, Role, Side, SpawnPlan};
use tank_rounds::missiles::Tubes;
use tank_rounds::pieces::{Frog, Fuse, HullContact, Mind, Missile, ProvisionalKind, Shot, ShotState, Tank, Tile, WeaponQueue, Wound};
use tank_rounds::props::{
    burning_cells, light_cell, Blow, DamageCause, GroundFire, Landing, Spark,
};
use tank_rounds::scalar::{Point, Scalar};
use tank_rounds::shots::{HitResult, Landed};
use tank_rounds::streams::{GroundFlame, StreamRules};
use tank_rounds::thinking::{planning_order, Traced};

const MAX_DAMAGE: f32 = 100.0;
const GRID: f32 = 32.0;

fn s(v: f32) -> Scalar {
    Scalar { bits: v.to_bits() }
}

fn v(x: Scalar) -> f32 {
    f32::from_bits(x.bits)
}

fn at(x: f32, y: f32) -> Point {
    Point { x: s(x), y: s(y) }
}

fn apart(a: Point, b: Point) -> Scalar {
    s(((v(a.x) - v(b.x)).powi(2) + (v(a.y) - v(b.y)).powi(2)).sqrt())
}

fn center(c: Cell) -> Point {
    at(c.col as f32 * GRID, c.row as f32 * GRID)
}

fn tank() -> Tank {
    Tank {
        owner: Owner::Player(0),
        row: 0,
        position: at(0.0, 0.0),
        rotation: s(0.0),
        commanded: at(0.0, 0.0),
        asked: at(0.0, 0.0),
        velocity: at(0.0, 0.0),
        top_speed: s(100.0),
        contact: HullContact { touching_static: false, touching_tank: false, impulse: s(0.0) },
        damage: s(0.0),
        wreck: false,
        burnt_out: false,
        shield: s(0.0),
        shield_delay: s(0.0),
        shield_broke: false,
        has_body: true,
        rolling_in: false,
        mind: None,
        weapon: ActiveWeapon::Shell,
        queue: WeaponQueue::empty(),
        shells: 10,
        laser_charges: 0,
        minigun_ammo: 0,
        missile_ammo: 0,
        plasma_ammo: 0,
        flame_fuel: s(0.0),
        speed_boost: s(0.0),
        fire_cooldown: s(0.0),
        ram_cooldown: s(0.0),
        portal_cooldown: s(0.0),
        burn_timer: s(0.0),
        flame_held: false,
        laser_variant: LaserVariant::Red,
        plasma_variant: PlasmaVariant::Teal,
        shell_variant: 0,
        damage_variant: 0,
        wreck_col: None,
    }
}

fn mind(role: Role) -> Mind {
    Mind { role, target_player: 0, hit_alerted: false, retreating: false }
}

fn enemy(x: f32, y: f32) -> Tank {
    Tank { mind: Some(mind(Role::Player)), position: at(x, y), ..tank() }
}

fn tile(material: Material, col: i32, row: i32) -> Tile {
    Tile {
        position: center(Cell { col, row }),
        cell: Cell { col, row },
        material,
        variant: 0,
        drum: Drum::Oil,
        health: s(100.0),
        max_health: s(100.0),
        destroyed: false,
        burning: false,
        flammable: false,
        fuse: None,
        ram_timer: s(0.0),
        heat: s(0.0),
        edge_mask: 0,
        soot: 0,
    }
}

/// A round with one seated player at the origin.
fn round(mission: Mission) -> Game {
    let mut game = Game::new(PlayerCount::one());
    game.clear_board(&Setup {
        seed: Some(7),
        mission,
        spawn_plan: SpawnPlan::Band { count: None },
        intro: None,
        pickup_respawn_seconds: s(20.0),
        player_row: None,
        player2_row: None,
        row_knob: -1,
        map_tank: None,
        map_tank2: None,
        map_tanks: None,
        fewest_enemies: 1,
        most_enemies: 4,
        seat_spacing: s(120.0),
        enemy_spacing: s(40.0),
        frog_spacing: s(200.0),
        hunter_share: false,
        kit: Kit { laser: 3, plasma: 5, minigun: 30, shield: s(60.0), damage_variants: 3 },
    });
    game.seat_tank(0, tank());
    game
}

fn get_tank(game: &Game, entity: u64) -> Tank {
    game.field.get::<Tank>(entity).expect("a tank")
}

fn get_tile(game: &Game, entity: u64) -> Tile {
    game.field.get::<Tile>(entity).expect("a tile")
}

fn hurt_by(t: Tank, damage: f32) -> Tank {
    let mut after = t;
    after.take_damage(&Wound {
        shield_left: s((v(t.shield) - damage).max(0.0)),
        damage: s(v(t.damage) + damage),
        recharge_delay: s(2.0),
        limit: s(MAX_DAMAGE),
    });
    after
}

fn no_odds() -> MaterialOdds {
    MaterialOdds {
        brick: Odds::Never,
        iron: Odds::Never,
        wood: Odds::Never,
        glass: Odds::Never,
        sandbag: Odds::Never,
        barrel: Odds::Never,
        fence: Odds::Never,
        tree: Odds::Never,
        pine: Odds::Never,
    }
}

fn worn(t: Tile, damage: f32) -> Blow {
    let left = (v(t.health) - damage).max(0.0);
    Blow {
        worn: Tile { health: s(left), destroyed: left <= 0.0, ..t },
        worn_out: left <= 0.0,
        fuse: Fuse { left: s(0.5), total: s(0.5), from: None },
        half_health: s(v(t.max_health) * 0.5),
        face: 4,
    }
}

fn shell(owner: Owner) -> Shot {
    Shot { kind: ProvisionalKind::Shell, id: 1, owner, position: at(0.0, 0.0), prev_position: at(0.0, 0.0), velocity: at(0.0, 0.0), rotation: s(0.0), variant: 0, plasma_variant: PlasmaVariant::Teal, shooter_row: 0, state: ShotState::Flying }
}

fn candidate(target: ShellTarget, owner: Option<Owner>, enters: f32) -> Candidate {
    Candidate { target, owner, wreck: false, enters: Some(s(enters)) }
}

/// Land one shot on the first of the candidates; iron bounces it.
fn land(game: &mut Game, f: &mut Frame, shot: u64, cs: &Vec<Candidate>, boxes: &Vec<TerrainBox>) -> Landed {
    let mut rng = SmallRng::seed_from_u64(1);
    game.land_shot(
        f,
        shot,
        cs,
        boxes,
        &mut vec![],
        &no_odds(),
        &no_odds(),
        true,
        true,
        &|_s: Shot, t: Scalar| at(v(t) * 100.0, 0.0),
        &|s: Shot, _away: Point| s,
        &|t: Tank, _s: Shot| (s(v(t.shield) - 30.0), s(2.0)),
        &|_s: Shot, b: TerrainBox| b.material == Material::Iron,
        &|s: Shot, _b: TerrainBox| (s, Scalar { bits: 90.0f32.to_bits() }),
        &mut rng,
    )
}

#[test]
fn a_wreck_neither_deals_nor_takes_ram_damage() {
    let mut f = Frame::new();
    let wreck = Tank { position: at(100.0, 100.0), damage: s(MAX_DAMAGE), wreck: true, ..tank() };
    let live = Tank { position: at(130.0, 100.0), damage: s(10.0), ..tank() };
    let r = ram(&mut f, wreck, live, s(1.0), |_a: Tank, _b: Tank| panic!("nothing is rolled"));
    assert!(r.is_none());
    assert!(f.kills.is_empty());
}

#[test]
fn live_tanks_exchange_damage_once_per_cooldown() {
    let mut game = round(Mission::Destroy);
    let (a, b) = (game.player().unwrap(), game.place_enemy(1, enemy(30.0, 0.0)));
    let strike = |x: Tank, y: Tank| (s(12.0), hurt_by(x, 12.0), hurt_by(y, 12.0));
    let mut f = Frame::new();
    let r = game.ram_pair(&mut f, b, a, s(1.5), false, &strike).expect("contact");
    assert_eq!(v(r.damage), 12.0);
    assert_eq!(get_tank(&game, a).damage, get_tank(&game, b).damage);
    assert_eq!(v(get_tank(&game, a).ram_cooldown), 1.5);
    assert_eq!(f.events, [Event::Ram { slot: 0, other_slot: 1, damage: s(12.0) }]);
    assert!(game.ram_pair(&mut f, b, a, s(1.5), false, &strike).is_none());
    assert_eq!(v(get_tank(&game, b).damage), 12.0, "second contact inside the cooldown must not re-damage");
}

#[test]
fn two_enemies_ram_each_other() {
    let mut game = round(Mission::Destroy);
    let (a, b) = (game.place_enemy(1, enemy(0.0, 0.0)), game.place_enemy(2, enemy(30.0, 0.0)));
    let mut f = Frame::new();
    let strike = |x: Tank, y: Tank| (s(120.0), hurt_by(x, 120.0), hurt_by(y, 120.0));
    game.ram_pair(&mut f, a, b, s(1.5), true, &strike).expect("contact");
    assert_eq!(f.kills.iter().map(|k| k.victim).collect::<Vec<_>>(), [Owner::Enemy(1), Owner::Enemy(2)]);
    assert_eq!(f.events, [Event::Ram { slot: 1, other_slot: 2, damage: s(120.0) }]);
}

#[test]
fn a_wreck_does_not_absorb_shells() {
    let mut game = round(Mission::Destroy);
    let cell = |row: i32| at(20.0 * 32.0 + 16.0, row as f32 * 32.0 + 16.0);
    let wreck = game.place_enemy(1, Tank { wreck: true, damage: s(MAX_DAMAGE), position: cell(11), ..enemy(0.0, 0.0) });
    let glass = game.field.spawn(Tile { position: cell(8), ..tile(Material::Glass, 20, 8) });
    let shot = game.field.spawn(Shot { position: cell(15), ..shell(Owner::Player(0)) });
    let in_the_way = Candidate { wreck: true, ..candidate(ShellTarget::EnemyTank(wreck), Some(Owner::Enemy(1)), 0.2) };
    let behind = candidate(ShellTarget::Obstacle(glass), None, 0.7);
    assert_eq!(sweep(&vec![in_the_way, behind], Owner::Player(0)), Some((ShellTarget::Obstacle(glass), s(0.7))));
    let mut f = Frame::new();
    let landed = land(&mut game, &mut f, shot, &vec![in_the_way, behind], &vec![]);
    assert!(matches!(landed, Landed::Burst(ShellTarget::Obstacle(e), ..) if e == glass), "the shell reached the glass behind the wreck");
    assert_eq!(get_tile(&game, glass).cell.row, 8);
}

#[test]
fn sandbags_and_fences_do_not_block_sight_but_barrels_and_walls_do() {
    let across = |material: Material| {
        let b = TerrainBox { entity: 1, center: at(0.0, 0.0), half: at(16.0, 16.0), material };
        line_of_sight(&vec![b], &vec![true], &vec![])
    };
    assert!(across(Material::Sandbag), "a sandbag is knee-high");
    assert!(across(Material::Fence), "a fence is see-through");
    assert!(!across(Material::Barrel), "a barrel is a solid block");
    assert!(!across(Material::Brick), "so is a wall");
    assert!(!line_of_sight(&vec![], &vec![], &vec![true]), "a frog is in the way");
}

#[test]
fn a_shielded_tank_bounces_a_shell_back_at_its_shooter() {
    let mut game = round(Mission::Destroy);
    let target = game.place_enemy(1, Tank { shield: s(20.0), ..enemy(100.0, 0.0) });
    let shot = game.field.spawn(shell(Owner::Player(0)));
    let mut f = Frame::new();
    let cs = vec![candidate(ShellTarget::EnemyTank(target), Some(Owner::Enemy(1)), 0.5)];
    assert_eq!(land(&mut game, &mut f, shot, &cs, &vec![]), Landed::Bounced(at(50.0, 0.0)));
    let bounced = game.field.get::<Shot>(shot).unwrap();
    assert_eq!(bounced.owner, Owner::Enemy(1), "it is the shielded tank's now");
    assert_eq!(bounced.state, ShotState::Flying);
    let t = get_tank(&game, target);
    assert_eq!(v(t.damage), 0.0);
    assert!(t.shield_broke, "the charge is gone");
    assert_eq!(f.events, [Event::Deflected { slot: 1, x: s(50.0), y: s(0.0) }]);
    let mut g = Frame::new();
    game.drain_shield_breaks(&mut g);
    assert_eq!(g.events.len(), 1);
    game.drain_shield_breaks(&mut g);
    assert_eq!(g.events.len(), 1, "a break is told once");
}

#[test]
fn a_shell_off_iron_ricochets_once_and_flies_on() {
    let mut game = round(Mission::Destroy);
    let wall = game.field.spawn(tile(Material::Iron, 3, 0));
    let shot = game.field.spawn(shell(Owner::Player(0)));
    let mut f = Frame::new();
    let cs = vec![candidate(ShellTarget::Obstacle(wall), None, 0.9)];
    let boxes = vec![TerrainBox { entity: wall, center: at(96.0, 0.0), half: at(16.0, 16.0), material: Material::Iron }];
    assert_eq!(land(&mut game, &mut f, shot, &cs, &boxes), Landed::Bounced(at(v(s(0.9)) * 100.0, 0.0)));
    assert!(matches!(f.events[..], [Event::Ricochet { slot: 0, heading, .. }] if v(heading) == 90.0));
    assert_eq!(game.field.get::<Shot>(shot).unwrap().state, ShotState::Flying);
}

#[test]
fn a_shot_bursts_on_a_wall_and_its_hit_is_applied() {
    let mut game = round(Mission::Destroy);
    let brick = game.field.spawn(tile(Material::Brick, 3, 0));
    let shot = game.field.spawn(shell(Owner::Player(0)));
    let mut f = Frame::new();
    let cs = vec![candidate(ShellTarget::Obstacle(brick), None, 0.5)];
    let landed = land(&mut game, &mut f, shot, &cs, &vec![]);
    assert_eq!(landed, Landed::Burst(ShellTarget::Obstacle(brick), at(50.0, 0.0), true));
    assert_eq!(game.field.get::<Shot>(shot).unwrap().state, ShotState::Bursting);
    assert!(game.hit_rolls(ShellTarget::Obstacle(brick)));
    let mut rng = SmallRng::seed_from_u64(1);
    let hit = game.apply_hit(
        &mut f,
        ShellTarget::Obstacle(brick),
        at(50.0, 0.0),
        s(200.0),
        true,
        DamageCause::Shot { dir: None },
        &|t: Tank, _d: Scalar| t,
        &|g: Frog, _d: Scalar| g,
        &|t: Tile, d: Scalar| worn(t, v(d)),
        &Bernoulli::new(0.5).unwrap(),
        &mut rng,
    );
    assert_eq!(hit, HitResult::Tile(true));
    assert!(matches!(f.events[..], [Event::Hit { killed: true, .. }, Event::ObstacleDestroyed { .. }]));
    assert_eq!(f.rubble.len(), 1, "a destroyed wall leaves rubble where it stood");
    let mut g = Frame::new();
    assert_eq!(land(&mut game, &mut g, shot, &vec![], &vec![]), Landed::Missed);
    assert!(g.events.is_empty());
}

#[test]
fn a_hit_tank_is_hurt_once_and_an_enemy_remembers_it() {
    let mut game = round(Mission::Hunt);
    let target = game.place_enemy(1, enemy(100.0, 0.0));
    let frog = game.spawn_frog(Side::Enemy, at(0.0, 0.0), 0, s(20.0)).unwrap();
    let mut rng = SmallRng::seed_from_u64(1);
    let odds = Bernoulli::new(0.5).unwrap();
    let mut f = Frame::new();
    let mut hit = |game: &mut Game, f: &mut Frame, target: ShellTarget, damage: f32| {
        game.apply_hit(
            f,
            target,
            at(1.0, 2.0),
            s(damage),
            true,
            DamageCause::Shot { dir: None },
            &|t: Tank, d: Scalar| hurt_by(t, v(d)),
            &|g: Frog, d: Scalar| Frog { health: s(v(g.health) - v(d)), dead: v(g.health) <= v(d), ..g },
            &|t: Tile, d: Scalar| worn(t, v(d)),
            &odds,
            &mut rng,
        )
    };
    assert_eq!(hit(&mut game, &mut f, ShellTarget::EnemyTank(target), 30.0), HitResult::Tank(target, TankHit::Survived));
    assert!(get_tank(&game, target).mind.unwrap().hit_alerted);
    assert_eq!(hit(&mut game, &mut f, ShellTarget::EnemyTank(target), 90.0), HitResult::Tank(target, TankHit::Killed));
    assert_eq!(f.kills.len(), 1);
    assert_eq!(hit(&mut game, &mut f, ShellTarget::EnemyTank(target), 90.0), HitResult::Tank(target, TankHit::Ignored));
    assert_eq!(hit(&mut game, &mut f, ShellTarget::Frog(frog), 5.0), HitResult::Frog(frog, FrogHit::Hops));
    assert_eq!(hit(&mut game, &mut f, ShellTarget::Frog(frog), 50.0), HitResult::Frog(frog, FrogHit::Killed));
    assert_eq!(hit(&mut game, &mut f, ShellTarget::Frog(frog), 50.0), HitResult::Frog(frog, FrogHit::Ignored));
    assert_eq!(hit(&mut game, &mut f, ShellTarget::Wall, 1.0), HitResult::Wall);
    assert_eq!(f.events.len(), 5);
    assert!(matches!(f.events[4], Event::Hit { target: HitTarget::Wall, killed: false, .. }));
}

#[test]
fn shells_sometimes_pass_over_a_sandbag_and_hit_what_is_behind() {
    let mut game = round(Mission::Destroy);
    let bag = game.field.spawn(tile(Material::Sandbag, 3, 0));
    let behind = game.place_enemy(1, enemy(200.0, 0.0));
    let boxes = vec![TerrainBox { entity: bag, center: at(96.0, 0.0), half: at(16.0, 16.0), material: Material::Sandbag }];
    let cs = vec![
        candidate(ShellTarget::Obstacle(bag), None, 0.4),
        candidate(ShellTarget::EnemyTank(behind), Some(Owner::Enemy(1)), 0.8),
    ];
    let mut over = no_odds();
    over.sandbag = Odds::Sometimes(Bernoulli::new(0.5).unwrap());
    let (mut stopped, mut passed) = (0, 0);
    for seed in 1..=60u64 {
        let mut rng = SmallRng::seed_from_u64(seed);
        let shot = game.field.spawn(shell(Owner::Player(0)));
        let mut ignored = vec![];
        let landed = game.land_shot(
            &mut Frame::new(),
            shot,
            &cs,
            &boxes,
            &mut ignored,
            &over,
            &no_odds(),
            true,
            false,
            &|_s: Shot, t: Scalar| at(v(t), 0.0),
            &|s: Shot, _p: Point| s,
            &|t: Tank, _s: Shot| (t.shield, t.shield_delay),
            &|_s: Shot, _b: TerrainBox| false,
            &|s: Shot, _b: TerrainBox| (s, Scalar { bits: 0 }),
            &mut rng,
        );
        match landed {
            Landed::Burst(ShellTarget::Obstacle(e), _, false) => {
                assert_eq!((e, ignored.len()), (bag, 0));
                stopped += 1;
            }
            Landed::Burst(ShellTarget::EnemyTank(e), _, false) => {
                assert_eq!((e, ignored), (behind, vec![bag]));
                passed += 1;
            }
            other => panic!("{other:?}"),
        }
    }
    assert!(stopped > 0 && passed > 0);
    over.sandbag = Odds::Always;
    let mut rng = SmallRng::seed_from_u64(1);
    let mut ignored = vec![];
    let hit = fly(&cs, Owner::Player(0), &boxes, &over, &mut ignored, &mut rng);
    assert!(matches!(hit, Some((ShellTarget::EnemyTank(e), _)) if e == behind), "certain odds always fly over");
    assert_eq!((ignored, rng), (vec![bag], SmallRng::seed_from_u64(1)));
}

#[test]
fn a_fence_dies_in_at_most_two_hits_and_usually_one() {
    let (mut one, mut two) = (0, 0);
    let odds = Bernoulli::new(0.7).unwrap();
    for seed in 1..=60u64 {
        let mut game = round(Mission::Destroy);
        let fence = game.field.spawn(tile(Material::Fence, 2, 2));
        let mut rng = SmallRng::seed_from_u64(seed);
        let mut f = Frame::new();
        let b = worn(get_tile(&game, fence), 1.0);
        if game.damage_tile(&mut f, fence, &b, DamageCause::Ram, &odds, &mut rng) {
            one += 1;
        } else {
            assert_eq!(v(get_tile(&game, fence).health), 50.0);
            assert!(game.damage_tile(&mut f, fence, &b, DamageCause::Ram, &odds, &mut rng));
            two += 1;
        }
        assert!(!game.damage_tile(&mut f, fence, &b, DamageCause::Ram, &odds, &mut rng), "it is gone");
    }
    assert!(one > two && two > 0);
}

#[test]
fn barrels_chain_react_on_a_fuse() {
    let mut game = round(Mission::Destroy);
    let drum = game.field.spawn(tile(Material::Barrel, 4, 4));
    let mut rng = SmallRng::seed_from_u64(1);
    let odds = Bernoulli::new(0.5).unwrap();
    let mut f = Frame::new();
    let from = at(64.0, 128.0);
    let b = Blow { fuse: Fuse { left: s(0.5), total: s(0.5), from: Some(from) }, ..worn(get_tile(&game, drum), 1.0) };
    assert!(!game.damage_tile(&mut f, drum, &b, DamageCause::Blast { falloff: s(1.0), from }, &odds, &mut rng));
    assert!(get_tile(&game, drum).fuse.is_some() && f.pending_blasts.is_empty(), "on a fuse, not gone yet");
    let burn = |left: f32| move |_z: Fuse| s(left);
    let ways = |_t: Tile| Vec::<Landing>::new();
    let smoulder = |_z: Fuse| s(1.0);
    game.tick_fuses(&mut f, &Odds::Always, &burn(0.1), &ways, &smoulder, &mut rng);
    assert!(!get_tile(&game, drum).destroyed);
    game.tick_fuses(&mut f, &Odds::Always, &burn(-0.1), &ways, &smoulder, &mut rng);
    assert!(get_tile(&game, drum).destroyed);
    assert_eq!(
        f.pending_blasts,
        [PendingBlast { center: at(128.0, 128.0), drum: Drum::Oil, shape: BlastShape::Chained { from, smoulder: s(1.0) } }]
    );
    assert!(f.events.iter().any(|e| matches!(e, Event::Blast { chained: true, drum: Drum::Oil, .. })));
}

#[test]
fn a_fuel_drum_lit_by_a_blast_launches_over_what_is_solid() {
    let mut game = round(Mission::Destroy);
    let fuse = Fuse { left: s(0.0), total: s(0.5), from: Some(at(0.0, 0.0)) };
    let drum = game.field.spawn(Tile { drum: Drum::Fuel, fuse: Some(fuse), ..tile(Material::Barrel, 4, 4) });
    game.field.spawn(tile(Material::Brick, 7, 4));
    let ways = |_t: Tile| {
        [(8, false), (7, true), (6, true), (5, true)]
            .map(|(col, inside)| Landing { cell: Cell { col, row: 4 }, at: center(Cell { col, row: 4 }), inside })
            .to_vec()
    };
    let mut f = Frame::new();
    let mut rng = SmallRng::seed_from_u64(1);
    game.tick_fuses(&mut f, &Odds::Always, &|_z: Fuse| s(-0.1), &ways, &|_z: Fuse| s(1.0), &mut rng);
    assert!(get_tile(&game, drum).destroyed);
    assert_eq!(game.ground.drums.len(), 1);
    assert_eq!(game.ground.drums[0].to, center(Cell { col: 6, row: 4 }), "past the field, over the wall, the furthest free cell");
    assert!(f.events.iter().any(|e| matches!(e, Event::DrumLaunched { .. })));
    assert_eq!(rng, SmallRng::seed_from_u64(1), "certain odds draw nothing");
}

#[test]
fn a_wood_tile_that_burns_out_reports_its_destruction() {
    let mut game = round(Mission::Destroy);
    let wood = game.field.spawn(Tile { burning: true, health: s(0.0), ..tile(Material::Wood, 2, 2) });
    let mut f = Frame::new();
    game.tick_burns(&mut f, &|t: Tile| Tile { destroyed: t.burning, ..t });
    assert!(get_tile(&game, wood).destroyed);
    assert!(matches!(f.events[..], [Event::ObstacleDestroyed { material: Material::Wood, .. }]));
    assert!(f.rubble[0].charred);
    game.tick_burns(&mut f, &|t: Tile| t);
    assert_eq!(f.events.len(), 1);
}

fn fire(col: i32, row: i32, spread_at: Option<f32>) -> GroundFire {
    GroundFire { cell: Cell { col, row }, left: s(2.0), total: s(2.0), spread_at: spread_at.map(s), pool: true }
}

fn burn_frame(game: &mut Game, f: &mut Frame, left: f32, live: bool) -> Vec<GroundFire> {
    let lefts = vec![s(left); game.ground.fires.len()];
    game.tick_fires(
        f,
        &lefts,
        s(10.0),
        live,
        true,
        &|cell: Cell| Spark { cell, at: center(cell), on_field: cell.col >= 0, wet: false, seconds: s(1.5), spread_at: s(10.5), pool: false },
        &|t: Tank, c: Cell| v(apart(t.position, center(c))) < 20.0,
        &|t: Tank| hurt_by(t, 60.0),
        &|_t: Tile, c: Cell| Fuse { left: s(1.0), total: s(1.0), from: Some(center(c)) },
        &|c: Cell| center(c),
    )
}

#[test]
fn a_lit_trail_spreads_one_cell_at_a_time_and_burns_out() {
    let mut game = round(Mission::Destroy);
    game.ground.fires = vec![fire(5, 5, Some(9.0))];
    game.ground.oil = vec![Cell { col: 6, row: 5 }, Cell { col: 7, row: 5 }, Cell { col: 5, row: 5 }];
    let mut f = Frame::new();
    assert!(burn_frame(&mut game, &mut f, 1.0, true).is_empty());
    let cells: Vec<i32> = game.ground.fires.iter().map(|z| z.cell.col).collect();
    assert_eq!(cells, [5, 6], "the next cell only");
    assert_eq!(game.ground.fires[0].spread_at, None, "a fire spreads once");
    assert!(matches!(f.events[..], [Event::FireStarted { pool: false, .. }]));
    let done = burn_frame(&mut game, &mut f, 0.0, true);
    assert_eq!(done.len(), 2);
    assert!(game.ground.fires.is_empty());
    assert_eq!(game.ground.oil, [Cell { col: 7, row: 5 }], "the trail under them is used up");
    assert_eq!(f.rubble.len(), 2);
    assert!(burn_frame(&mut game, &mut f, 0.0, true).is_empty(), "bare ground stays bare");
}

#[test]
fn a_hull_over_a_fire_burns_and_tiles_beside_it_catch() {
    let mut game = round(Mission::Destroy);
    let seat = game.player().unwrap();
    let t = get_tank(&game, seat);
    game.field.put(seat, Tank { position: center(Cell { col: 5, row: 5 }), damage: s(50.0), ..t });
    let far = game.place_enemy(1, enemy(900.0, 900.0));
    let wood = game.field.spawn(Tile { flammable: true, ..tile(Material::Wood, 5, 6) });
    let drum = game.field.spawn(tile(Material::Barrel, 4, 5));
    let corner = game.field.spawn(Tile { flammable: true, ..tile(Material::Wood, 6, 6) });
    game.ground.fires = vec![fire(5, 5, None)];
    let mut f = Frame::new();
    burn_frame(&mut game, &mut f, 1.0, false);
    assert_eq!(v(get_tank(&game, seat).damage), 50.0, "only a live frame hurts anyone");
    burn_frame(&mut game, &mut f, 1.0, true);
    assert!(get_tank(&game, seat).wreck);
    assert_eq!(f.kills.len(), 1);
    assert_eq!(v(get_tank(&game, far).damage), 0.0);
    assert!(get_tile(&game, wood).burning);
    assert!(!get_tile(&game, corner).burning, "not across a corner");
    assert_eq!(get_tile(&game, drum).fuse.unwrap().from, Some(center(Cell { col: 5, row: 5 })));
}

fn stream_rules() -> StreamRules {
    StreamRules {
        afterburn: s(3.0),
        frogs_burn: true,
        burns_on: true,
        ground: GroundFlame { ignite: s(0.5), trail_seconds: s(4.0), ground_seconds: s(2.0) },
        tiles: FlameLimits { ignite: s(0.5), sandbag: s(0.8), fence: s(0.6) },
        shimmer_every: 4,
    }
}

/// One frame of streams. Everyone at `x >= 100` is in the cone.
fn stream_frame(game: &mut Game, f: &mut Frame, jets: &Vec<u64>, warmed: &Vec<Hot>, heat: f32) -> bool {
    let mut rng = SmallRng::seed_from_u64(1);
    let cooled = game.ground.heat.clone();
    let shimmer = game.resolve_flames(
        f,
        stream_rules(),
        jets,
        warmed,
        &cooled,
        &|_j: usize, t: Tank| v(t.position.x) >= 100.0,
        &|_j: usize, t: Tank| hurt_by(t, 20.0),
        &|_j: usize, g: Frog| v(g.position.x) >= 100.0,
        &|g: Frog| Frog { health: s(v(g.health) - 20.0), dead: v(g.health) <= 20.0, ..g },
        &|t: Tank| hurt_by(t, 5.0),
        &|cell: Cell| Flare { cell, at: center(cell), on_field: true, wet: false, spread_at: s(11.0) },
        &|t: Tile| TileFlame {
            under: v(t.position.x) >= 100.0,
            warmed: s(v(t.heat) + heat),
            cooled: s(0.0),
            fuse: Fuse { left: s(1.0), total: s(1.0), from: Some(at(0.0, 0.0)) },
            face: 4,
        },
        &|t: Tile| worn(t, 1000.0),
        &Bernoulli::new(1.0).unwrap(),
        &mut rng,
    );
    assert_eq!(rng, SmallRng::seed_from_u64(1), "the flames draw nothing");
    shimmer
}

#[test]
fn afterburn_keeps_a_touched_tank_burning_and_can_finish_it() {
    let mut game = round(Mission::Destroy);
    let shooter = game.player().unwrap();
    let target = game.place_enemy(1, enemy(120.0, 0.0));
    let mut f = Frame::new();
    assert!(stream_frame(&mut game, &mut f, &vec![shooter], &vec![], 0.0), "the air shimmers on frame zero");
    assert_eq!(v(get_tank(&game, target).damage), 20.0, "contact, and no afterburn on top");
    assert_eq!(v(get_tank(&game, target).burn_timer), 3.0);
    assert!(get_tank(&game, target).mind.unwrap().hit_alerted);
    assert_eq!(game.ground.flame_contacts, [target]);
    assert_eq!(f.events.len(), 1);
    stream_frame(&mut game, &mut f, &vec![shooter], &vec![], 0.0);
    assert_eq!(f.events.len(), 1, "only the first frame of contact is a hit");
    stream_frame(&mut game, &mut f, &vec![], &vec![], 0.0);
    assert_eq!(v(get_tank(&game, target).damage), 45.0, "the stream is off it and it burns on");
    for _ in 0..11 {
        stream_frame(&mut game, &mut f, &vec![], &vec![], 0.0);
    }
    assert!(get_tank(&game, target).wreck);
    assert_eq!(f.kills.len(), 1);
    assert_eq!(v(get_tank(&game, shooter).damage), 0.0);
}

#[test]
fn ground_lights_under_a_held_stream_but_not_a_sweep() {
    let mut game = round(Mission::Destroy);
    let shooter = game.player().unwrap();
    game.ground.oil = vec![Cell { col: 6, row: 0 }];
    let mut f = Frame::new();
    let hot = |col: i32, heat: f32| Hot { cell: Cell { col, row: 0 }, heat: s(heat) };
    stream_frame(&mut game, &mut f, &vec![shooter], &vec![hot(5, 0.2), hot(6, 0.2)], 0.0);
    assert!(game.ground.fires.is_empty(), "a sweep lights nothing");
    assert_eq!(game.ground.heat.len(), 2);
    assert!(game.ground.heat.iter().all(|h| v(h.heat) > 0.0 && v(h.heat) < 0.5), "warm, and short of the threshold");
    stream_frame(&mut game, &mut f, &vec![shooter], &vec![hot(6, 0.5), hot(5, 0.6)], 0.0);
    let lit: Vec<(i32, bool)> = game.ground.fires.iter().map(|z| (z.cell.col, z.pool)).collect();
    assert_eq!(lit, [(5, true), (6, false)], "plain ground pools, a trail burns as a trail");
    assert!(game.ground.heat.is_empty());
    assert!(f.events.iter().any(|e| matches!(e, Event::Ignited { what: "oil", .. })));
    assert!(f.events.iter().any(|e| matches!(e, Event::Ignited { what: "ground", .. })));
}

#[test]
fn a_drum_in_the_cone_is_fused_and_a_fuel_drum_launches_away() {
    let mut game = round(Mission::Destroy);
    let shooter = game.player().unwrap();
    let drum = game.field.spawn(Tile { drum: Drum::Fuel, ..tile(Material::Barrel, 5, 0) });
    let mut f = Frame::new();
    stream_frame(&mut game, &mut f, &vec![shooter], &vec![], 0.5);
    let lit = get_tile(&game, drum).fuse.expect("fused");
    assert_eq!(lit.from, Some(at(0.0, 0.0)));
    assert!(matches!(f.events[..], [Event::Ignited { what: "drum", .. }]));
    let ways = |_t: Tile| vec![Landing { cell: Cell { col: 8, row: 0 }, at: center(Cell { col: 8, row: 0 }), inside: true }];
    let mut rng = SmallRng::seed_from_u64(1);
    game.tick_fuses(&mut f, &Odds::Always, &|_z: Fuse| s(0.0), &ways, &|_z: Fuse| s(1.0), &mut rng);
    assert_eq!(game.ground.drums[0].to, center(Cell { col: 8, row: 0 }));
}

#[test]
fn props_on_the_field_collapse_under_a_held_stream() {
    let mut game = round(Mission::Destroy);
    let shooter = game.player().unwrap();
    let bag = game.field.spawn(tile(Material::Sandbag, 5, 0));
    let fence = game.field.spawn(tile(Material::Fence, 6, 0));
    let iron = game.field.spawn(tile(Material::Iron, 7, 0));
    let mut f = Frame::new();
    stream_frame(&mut game, &mut f, &vec![shooter], &vec![], 0.4);
    assert!(!get_tile(&game, bag).destroyed && !get_tile(&game, fence).destroyed);
    stream_frame(&mut game, &mut f, &vec![shooter], &vec![], 0.3);
    assert!(!get_tile(&game, bag).destroyed && get_tile(&game, fence).destroyed, "a fence after fewer seconds");
    stream_frame(&mut game, &mut f, &vec![shooter], &vec![], 0.3);
    assert!(get_tile(&game, bag).destroyed);
    let wall = get_tile(&game, iron);
    assert!(!wall.destroyed && !wall.burning && v(wall.health) == 100.0, "iron is sooted and nothing more");
    let words: Vec<&Event> = f.events.iter().filter(|e| matches!(e, Event::Ignited { .. })).collect();
    assert!(matches!(words[..], [Event::Ignited { what: "fence", .. }, Event::Ignited { what: "sandbag", .. }]));
}

#[test]
fn a_blast_hurts_whoever_it_reaches_and_spares_its_own_side() {
    let mut game = round(Mission::Hunt);
    let near = game.place_enemy(1, enemy(20.0, 0.0));
    let frog = game.spawn_frog(Side::Enemy, at(10.0, 0.0), 0, s(20.0)).unwrap();
    let walk = game.walk_order();
    let seat = game.player().unwrap();
    assert_eq!(walk, [seat, near], "players first");
    let distances: Vec<Scalar> = walk.iter().map(|e| apart(get_tank(&game, *e).position, at(0.0, 0.0))).collect();
    let mut f = Frame::new();
    let strike = |t: Tank, d: Scalar| hurt_by(t, 200.0 - v(d));
    let shoved = game.blast_tanks(&mut f, &walk, &distances, Harm::Opponents(Owner::Player(0)), s(60.0), &strike);
    assert_eq!(shoved, [seat], "its own side is shoved and not hurt");
    assert_eq!(v(get_tank(&game, seat).damage), 0.0);
    assert!(get_tank(&game, near).wreck);
    let frogs = game.frogs();
    let far: Vec<Scalar> = frogs.iter().map(|(_, g)| apart(g.position, at(0.0, 0.0))).collect();
    let hurt = |g: Frog, _d: Scalar| Frog { health: s(0.0), dead: true, ..g };
    game.blast_frogs(&mut f, &frogs, &far, Harm::Opponents(Owner::Enemy(3)), s(60.0), &hurt);
    assert!(!game.field.get::<Frog>(frog).unwrap().dead, "an enemy's blast spares the enemy frog");
    game.blast_frogs(&mut f, &frogs, &far, Harm::Everyone, s(60.0), &hurt);
    assert!(game.field.get::<Frog>(frog).unwrap().dead);
    assert_eq!(f.shocks.len(), 1);
}

#[test]
fn an_oil_drum_leaves_a_diamond_of_fire_and_either_drum_lights_the_trail() {
    let mut game = round(Mission::Destroy);
    let c = Cell { col: 5, row: 5 };
    game.ground.oil = vec![Cell { col: 9, row: 5 }, Cell { col: 30, row: 5 }];
    let spark = |pool: bool| move |cell: Cell| Spark { cell, at: center(cell), on_field: true, wet: false, seconds: s(3.0), spread_at: s(1.0), pool };
    let mut f = Frame::new();
    let mut rng = SmallRng::seed_from_u64(1);
    let sure = Odds::Always;
    let near = vec![true, false];
    assert!(!game.blast_ground(&mut f, Drum::Fuel, c, 1, &sure, &near, &spark(true), &spark(false), &mut rng));
    assert_eq!(game.ground.fires.len(), 1, "the trail cell in range");
    assert!(game.blast_ground(&mut f, Drum::Oil, c, 1, &sure, &near, &spark(true), &spark(false), &mut rng));
    assert_eq!(game.ground.fires.len(), 6, "a plus shape at reach one; the trail cell burns already");
    assert_eq!(pool_cells(c, 2).len(), 13);
    assert!(!game.blast_ground(&mut f, Drum::Oil, c, 0, &sure, &near, &spark(true), &spark(false), &mut rng));
    assert!(!game.blast_ground(&mut f, Drum::Oil, c, 1, &Odds::Never, &near, &spark(true), &spark(false), &mut rng));
    assert_eq!(rng, SmallRng::seed_from_u64(1), "what is settled draws nothing");
    let even = Odds::Sometimes(Bernoulli::new(0.5).unwrap());
    let left: Vec<bool> = (0..32).map(|_| game.blast_ground(&mut f, Drum::Oil, c, 1, &even, &near, &spark(true), &spark(false), &mut rng)).collect();
    assert!(left.contains(&true) && left.contains(&false));
}

#[test]
fn kills_come_before_blasts_and_blasts_bring_more_of_both() {
    let mut queue = ExplosionQueue::start();
    assert_eq!(queue.next(1, 1), Some(Explosion::Wreck(0)));
    assert_eq!(queue.next(1, 1), Some(Explosion::Blast(0)));
    assert_eq!(queue.next(2, 2), Some(Explosion::Wreck(1)), "a blast that killed");
    assert_eq!(queue.next(2, 2), Some(Explosion::Blast(1)));
    assert_eq!(queue.next(2, 2), None);
    assert_eq!(cookoff_count(7, 2), 1);
    assert_eq!(cookoff_count(7, 0), 0);
}

fn missile(owner: Owner) -> Missile {
    Missile {
        id: 1,
        owner,
        position: at(0.0, 0.0),
        aim: at(500.0, 0.0),
        offset: at(0.0, 0.0),
        target: None,
        climbed: true,
        locked: false,
        diving: false,
        arrived: false,
    }
}

/// A tube's missiles come down a pixel beside what they lock, within a field
/// 600 wide.
fn lead(game: &mut Game, f: &mut Frame) {
    let tubes = Tubes {
        spread: |_m: Missile, _p: Point| at(1.0, 0.0),
        plus: |p: Point, by: Point| at(v(p.x) + v(by.x), v(p.y) + v(by.y)),
        inside: |p: Point| at(v(p.x).clamp(0.0, 600.0), v(p.y)),
    };
    game.guide_missiles(f, s(200.0), &apart, &tubes);
}

#[test]
fn missiles_lock_onto_the_enemy_and_hurt_it() {
    let mut game = round(Mission::Destroy);
    let far = game.place_enemy(1, enemy(80.0, 0.0));
    let near = game.place_enemy(2, enemy(60.0, 0.0));
    let m = game.field.spawn(missile(Owner::Player(0)));
    let mut f = Frame::new();
    lead(&mut game, &mut f);
    let locked = game.field.get::<Missile>(m).unwrap();
    assert_eq!(locked.target, Some(near));
    assert_eq!((locked.aim, locked.offset), (at(61.0, 0.0), at(1.0, 0.0)));
    assert!(matches!(f.events[..], [Event::MissileLocked { slot: 0, target: Some(2), .. }]));
    let t = get_tank(&game, near);
    game.field.put(near, Tank { position: at(90.0, 0.0), ..t });
    game.field.put(m, Missile { offset: at(2.0, 0.0), ..locked });
    lead(&mut game, &mut f);
    assert_eq!(game.field.get::<Missile>(m).unwrap().aim, at(92.0, 0.0), "it follows, beside it by its own offset");
    game.field.put(near, Tank { position: at(600.0, 0.0), ..t });
    lead(&mut game, &mut f);
    assert_eq!(game.field.get::<Missile>(m).unwrap().aim, at(602.0, 0.0), "a chase is not held inside the field");
    game.field.put(near, Tank { wreck: true, ..t });
    lead(&mut game, &mut f);
    let lost = game.field.get::<Missile>(m).unwrap();
    assert_eq!((lost.target, lost.aim), (None, at(602.0, 0.0)), "it comes down where the wreck last was");
    assert_eq!(f.events.len(), 1);
    game.field.put(m, Missile { arrived: true, ..lost });
    assert_eq!(game.take_landed().len(), 1);
    assert_eq!(game.field.get::<Missile>(m), None);
    assert!(game.field.get::<Tank>(far).is_some());
}

#[test]
fn with_nothing_in_range_they_come_down_on_the_aim_point() {
    let mut game = round(Mission::Destroy);
    game.place_enemy(1, enemy(800.0, 0.0));
    let m = game.field.spawn(missile(Owner::Player(0)));
    let mut f = Frame::new();
    lead(&mut game, &mut f);
    let down = game.field.get::<Missile>(m).unwrap();
    assert_eq!((down.target, down.aim, down.locked), (None, at(501.0, 0.0), true));
    let wide = game.field.spawn(Missile { aim: at(600.0, 0.0), ..missile(Owner::Player(0)) });
    lead(&mut game, &mut f);
    assert_eq!(game.field.get::<Missile>(wide).unwrap().aim, at(600.0, 0.0), "held inside the field");
    f.events.truncate(1);
    assert!(matches!(f.events[..], [Event::MissileLocked { slot: 0, target: None, .. }]));
}

#[test]
fn a_tank_ages_and_its_portal_cooldown_waits_on_a_portal() {
    let mut game = round(Mission::Destroy);
    game.ground.portals = vec![at(0.0, 0.0), at(900.0, 0.0)];
    let seat = game.player().unwrap();
    let t = get_tank(&game, seat);
    game.field.put(seat, Tank { portal_cooldown: s(2.0), ..t });
    let away = game.place_enemy(1, Tank { portal_cooldown: s(2.0), wreck: true, ..enemy(400.0, 0.0) });
    let age = |t: Tank, runs: bool| Tank { portal_cooldown: if runs { s(v(t.portal_cooldown) - 0.5) } else { t.portal_cooldown }, ..t };
    let mut rng = SmallRng::seed_from_u64(1);
    let settle = game.tick_timers(s(24.0), &vec![3, 5], &apart, &age, &mut rng);
    assert_eq!(v(get_tank(&game, seat).portal_cooldown), 2.0, "standing on it");
    assert_eq!(v(get_tank(&game, away).portal_cooldown), 1.5);
    assert_eq!(settle, [away]);
    assert!(matches!(get_tank(&game, away).wreck_col, Some(3 | 5)));
    assert!(game.tick_timers(s(24.0), &vec![3, 5], &apart, &age, &mut rng).is_empty());
}

#[test]
fn opposing_shells_cancel_one_for_one() {
    let owners = vec![Owner::Player(0), Owner::Enemy(1), Owner::Enemy(2), Owner::Player(1)];
    let meets = vec![vec![true; 4]; 4];
    assert_eq!(shell_vs_shell(&owners, &meets), [(0, 1), (2, 3)]);
    let mut game = round(Mission::Destroy);
    let a = game.field.spawn(shell(Owner::Player(0)));
    let b = game.field.spawn(shell(Owner::Enemy(1)));
    let shells = game.flying_shells();
    let mut f = Frame::new();
    let flashes = game.cancel_shells(&mut f, &shells, &vec![vec![true; 2]; 2], &|_x: Shot, _y: Shot| at(7.0, 8.0));
    assert_eq!(flashes, [at(7.0, 8.0)]);
    assert_eq!(f.events, [Event::ShellsCollided { x: s(7.0), y: s(8.0) }]);
    for e in [a, b] {
        assert_eq!(game.field.get::<Shot>(e).unwrap().state, ShotState::Bursting);
    }
    assert!(game.flying_shells().is_empty());
}

#[test]
fn tall_grass_hides_the_player_from_the_ai() {
    let mut game = round(Mission::Destroy);
    let e = game.place_enemy(1, enemy(50.0, 0.0));
    let hidden = game.player_views(&|_p: Point| true);
    assert!(hidden[0].concealed);
    let mut f = Frame::new();
    game.refresh_alert(&mut f, &hidden, &vec![vec![s(50.0)]], s(300.0), s(0.0), s(4.0), true);
    assert_eq!(game.round.alert.current(), None);
    let traced = Traced { direct_route: true, in_range: true, clear_fire: true, clear_sight: true };
    let m = get_tank(&game, e).mind.unwrap();
    let brief = game.brief(&hidden, e, m, traced);
    assert!(brief.player_hidden && !brief.player_line_of_sight && !brief.line_of_sight);
    let open = game.player_views(&|_p: Point| false);
    game.refresh_alert(&mut f, &open, &vec![vec![s(50.0)]], s(300.0), s(0.0), s(4.0), true);
    assert_eq!(game.round.alert.current(), Some(at(0.0, 0.0)));
    assert!(matches!(f.events[..], [Event::Alert { on: true, .. }]));
    assert!(game.brief(&open, e, m, traced).line_of_sight);
}

#[test]
fn shooting_from_cover_gives_the_player_away() {
    let game = round(Mission::Destroy);
    let hidden = game.player_views(&|_p: Point| true);
    let alert = Mind { hit_alerted: true, ..mind(Role::Player) };
    let traced = Traced { direct_route: true, in_range: true, clear_fire: true, clear_sight: true };
    let brief = game.brief(&hidden, 1, alert, traced);
    assert!(!brief.player_hidden && brief.player_line_of_sight);
}

#[test]
fn enemies_switch_to_whoever_is_worth_fighting() {
    let mut game = Game::new(PlayerCount::two());
    game.clear_board(&Setup {
        seed: Some(7),
        mission: Mission::Destroy,
        spawn_plan: SpawnPlan::Band { count: None },
        intro: None,
        pickup_respawn_seconds: s(20.0),
        player_row: None,
        player2_row: None,
        row_knob: -1,
        map_tank: None,
        map_tank2: None,
        map_tanks: None,
        fewest_enemies: 1,
        most_enemies: 4,
        seat_spacing: s(120.0),
        enemy_spacing: s(40.0),
        frog_spacing: s(200.0),
        hunter_share: false,
        kit: Kit { laser: 3, plasma: 5, minigun: 30, shield: s(60.0), damage_variants: 3 },
    });
    let first = game.seat_tank(0, tank());
    game.seat_tank(1, Tank { position: at(400.0, 0.0), ..tank() });
    let e = game.place_enemy(2, enemy(350.0, 0.0));
    let views = game.player_views(&|_p: Point| false);
    let mut f = Frame::new();
    let widen = |d: Scalar| s(v(d) + 100.0);
    game.retarget_all(&mut f, &views, &apart, &widen, true);
    assert_eq!(get_tank(&game, e).mind.unwrap().target_player, 1, "nearer by more than the margin");
    assert_eq!(f.events, [Event::Retarget { slot: 2, player: 1 }]);
    game.retarget_all(&mut f, &views, &apart, &widen, true);
    assert_eq!(f.events.len(), 1);
    assert!(game.field.get::<Tank>(first).is_some());
}

fn contender(_ring: Ring, entity: u64) -> Contender {
    Contender { entity, bearing: [s(1.0); 4], lateral: [s(1.0); 4], reachable: [true; 16] }
}

#[test]
fn rings_are_dealt_to_two_or_more_and_hunters_go_for_the_frog() {
    let mut game = round(Mission::Protect);
    let frog = game.spawn_frog(Side::Player, at(300.0, 0.0), 0, s(60.0)).unwrap();
    let a = game.place_enemy(1, enemy(50.0, 0.0));
    let b = game.place_enemy(2, enemy(60.0, 0.0));
    let h = game.place_enemy(3, Tank { mind: Some(mind(Role::Hunter)), ..enemy(310.0, 0.0) });
    assert_eq!(game.quarry().unwrap().frog, frog);
    assert_eq!(game.home(), None);
    let views = game.player_views(&|_p: Point| false);
    let es = game.fighters(&views, s(100.0), &apart);
    assert!(es.iter().find(|x| x.entity == h).unwrap().hunting);
    let context = |_r: Ring| EngageCtx { points: [Some(at(9.0, 9.0)); 16], line_of_sight: [true; 16] };
    let mut f = Frame::new();
    game.assign_rings(&mut f, &es, 1, true, s(90.0), s(300.0), &contender, &context, &|_e: u64| false, true);
    let report = &game.pack.report;
    assert!(report.built);
    assert_eq!(report.tanks.iter().map(|t| t.owner).collect::<Vec<_>>(), [1, 2, 3], "by slot");
    let (sa, sb) = (report.slot_of(a).unwrap(), report.slot_of(b).unwrap());
    assert_ne!(sa, sb, "no slot is given twice");
    assert_eq!(report.slot_of(h), None, "a lone hunter with a straight route needs no ring");
    assert!(report.tanks.iter().all(|t| t.status == EngageStatus::Engaged));
    assert_eq!(f.events.len(), 2);
    let traced = Traced { direct_route: true, in_range: false, clear_fire: false, clear_sight: true };
    let m = mind(Role::Hunter);
    assert_eq!(game.brief(&views, h, m, traced).hunting, Some(frog));
    let stuck = Traced { direct_route: false, ..traced };
    let brief = game.brief(&views, h, m, stuck);
    assert_eq!((brief.hunting, brief.target), (None, at(0.0, 0.0)), "no way at the frog");
    game.assign_rings(&mut f, &es, 1, true, s(90.0), s(300.0), &contender, &context, &|_e: u64| true, true);
    assert!(game.pack.report.slot_of(h).is_some(), "a blocked hunter gets a ring of its own");
    assert_eq!(game.brief(&views, h, m, stuck).hunting, Some(frog));
    assert_eq!(game.pack.report.slot_of(a), Some(sa), "a held slot is kept");
    assert_eq!(game.ring_rank(a), Some(sa.rank));
}

#[test]
fn units_are_planned_by_slot() {
    let unit = |slot: usize| UnitView { unit: Unit::Enemy(slot), slot, pace: 0, yielded: s(0.0), wreck: false, ring_rank: None };
    let sorted = planning_order(&vec![unit(4), unit(2), unit(3)]);
    assert_eq!(sorted.iter().map(|u| u.slot).collect::<Vec<_>>(), [2, 3, 4]);
}

#[test]
fn clusters_join_whoever_is_near_whoever() {
    let near = |a: usize, b: usize| (a as i32 - b as i32).abs() <= 1;
    let slots = vec![5usize, 6, 7, 9];
    let table: Vec<Vec<bool>> = slots.iter().map(|a| slots.iter().map(|b| near(*a, *b)).collect()).collect();
    let groups = clusters(&slots, &table);
    let mut all: Vec<usize> = groups.iter().flatten().copied().collect();
    all.sort_unstable();
    assert!(groups.iter().any(|g| g.len() == 3));
    assert!(all.iter().all(|x| slots.contains(x)));
}

#[test]
fn the_chart_draws_walls_pickups_frogs_and_tanks() {
    let blocked = vec![vec![true, false, false], vec![false, false, true]];
    let text: String = nav_grid_ascii(
        &blocked,
        &vec![Some(Spot { col: 1, row: 0 })],
        &vec![None],
        &vec![TankSpot { slot: 0, wreck: false, at: Some(Spot { col: 0, row: 1 }) }],
    )
    .into_iter()
    .collect();
    let lines: Vec<&str> = text.lines().collect();
    assert_eq!(lines.len(), 2);
    assert_eq!(lines[0].chars().count(), 3);
    assert_eq!(lines[0].chars().next(), lines[1].chars().last(), "both are walls");
    assert_ne!(lines[0].chars().nth(1), lines[0].chars().nth(2), "a pickup shows");
}

#[test]
fn water_puts_a_burning_hull_out_and_takes_no_fire() {
    let mut game = round(Mission::Destroy);
    let player = game.player().expect("player");
    let t = get_tank(&game, player);
    game.field.put(player, Tank { position: center(Cell { col: 11, row: 4 }), burn_timer: s(5.0), ..t });
    game.drive_over(player, true);
    assert_eq!(v(get_tank(&game, player).burn_timer), 0.0, "the afterburn went out in the stream");
    let spark = |col: i32, row: i32| {
        let cell = Cell { col, row };
        Spark { cell, at: center(cell), on_field: true, wet: (8..=14).contains(&col) && row == 4, seconds: s(3.0), spread_at: s(1.0), pool: true }
    };
    let mut f = Frame::new();
    light_cell(&mut game.ground.fires, &mut f, spark(10, 4));
    light_cell(&mut game.ground.fires, &mut f, spark(10, 6));
    assert_eq!(burning_cells(&game.ground.fires), [Cell { col: 10, row: 6 }], "only the dry cell lit");
    assert!(f.events.iter().all(|e| !matches!(e, Event::FireStarted { y, .. } if *y == center(Cell { col: 10, row: 4 }).y)));
}

#[test]
fn a_chain_of_neighbours_is_one_cluster_and_a_loner_none() {
    let tanks = [(3usize, 0.0f32), (9, 400.0), (1, 90.0), (7, 700.0), (2, 180.0), (0, 640.0)];
    let slots: Vec<usize> = tanks.iter().map(|t| t.0).collect();
    let near: Vec<Vec<bool>> = tanks.iter().map(|a| tanks.iter().map(|b| (a.1 - b.1).abs() <= 90.0).collect()).collect();
    assert_eq!(clusters(&slots, &near), [vec![0, 7], vec![1, 2, 3]]);
}

#[test]
fn a_tile_that_died_is_left_alone() {
    let mut game = round(Mission::Destroy);
    let brick = game.field.spawn(tile(Material::Brick, 3, 0));
    let odds = Bernoulli::new(0.5).unwrap();
    let mut rng = SmallRng::seed_from_u64(1);
    let mut f = Frame::new();
    let b = worn(get_tile(&game, brick), 500.0);
    let stubborn = Blow { worn: Tile { destroyed: false, ..b.worn }, ..b };
    assert!(game.damage_tile(&mut f, brick, &stubborn, DamageCause::Ram, &odds, &mut rng));
    assert!(get_tile(&game, brick).destroyed, "what is worn out is gone");
    assert!(!game.damage_tile(&mut f, brick, &stubborn, DamageCause::Ram, &odds, &mut rng));
    assert_eq!(f.events.iter().filter(|e| matches!(e, Event::ObstacleDestroyed { .. })).count(), 1);
}

#[test]
fn a_destroyed_wall_leaves_rubble_where_it_stood() {
    let odds = Bernoulli::new(0.5).unwrap();
    let mut rng = SmallRng::seed_from_u64(1);
    let mut rubble = |material: Material| {
        let mut game = round(Mission::Destroy);
        let wall = game.field.spawn(Tile { position: center(Cell { col: 20, row: 11 }), ..tile(material, 20, 11) });
        let mut f = Frame::new();
        let b = worn(get_tile(&game, wall), 500.0);
        assert!(game.damage_tile(&mut f, wall, &b, DamageCause::Shot { dir: None }, &odds, &mut rng));
        f.rubble
    };
    for material in [Material::Brick, Material::Glass] {
        let left = rubble(material);
        assert_eq!(left.len(), 1, "{material:?} left exactly one piece of rubble");
        assert_eq!(left[0].material, material, "the rubble remembers what died");
        assert_eq!(left[0].at, center(Cell { col: 20, row: 11 }), "rubble sits where the tile stood");
    }
    for material in [Material::Sandbag, Material::Tree, Material::Pine] {
        assert_eq!(rubble(material).len(), 1, "{material:?} leaves rubble too");
    }
    assert!(rubble(Material::Iron).is_empty(), "iron never leaves rubble");
}

#[test]
fn grass_under_the_stream_burns_away_and_stops_concealing() {
    let mut game = round(Mission::Destroy);
    let shooter = game.player().unwrap();
    let (cell, other) = (Cell { col: 20, row: 13 }, Cell { col: 16, row: 13 });
    game.ground.grass = vec![cell, other];
    assert!(game.conceals(cell), "grass conceals before the fire");
    let mut f = Frame::new();
    stream_frame(&mut game, &mut f, &vec![shooter], &vec![Hot { cell, heat: s(0.6) }], 0.0);
    burn_frame(&mut game, &mut f, 1.0, true);
    assert!(!game.conceals(cell), "a burning cell no longer conceals");
    assert!(game.conceals(other), "the other cell's did not burn");
    burn_frame(&mut game, &mut f, 0.0, true);
    assert!(game.ground.fires.is_empty());
    assert!(!game.conceals(cell), "burnt grass stays gone");
}

#[test]
fn iron_facing_the_nozzle_is_sooted_and_nothing_more() {
    let mut game = round(Mission::Destroy);
    let shooter = game.player().unwrap();
    let iron = game.field.spawn(tile(Material::Iron, 20, 12));
    let bag = game.field.spawn(tile(Material::Sandbag, 21, 12));
    let cell = Cell { col: 20, row: 12 };
    assert_eq!(get_tile(&game, iron).soot, 0);
    let before = get_tile(&game, iron);
    let mut f = Frame::new();
    for _ in 0..120 {
        let warmed = vec![Hot { cell, heat: s(0.6) }, Hot { cell: Cell { col: 19, row: 12 }, heat: s(0.6) }];
        stream_frame(&mut game, &mut f, &vec![shooter], &warmed, 0.005);
    }
    let after = get_tile(&game, iron);
    assert_eq!(after.soot, 4, "the face toward the shooter is sooted");
    assert_eq!(after.health, before.health);
    assert!(!after.burning && after.fuse.is_none() && !after.destroyed);
    assert_eq!(get_tile(&game, bag).soot, 0, "a wall's business only");
    let cells: Vec<Cell> = game.ground.fires.iter().map(|z| z.cell).collect();
    assert_eq!(cells, [Cell { col: 19, row: 12 }], "the ground short of the wall lights, the tile's own cell never does");
}
