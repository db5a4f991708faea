//! What tooling, the host and a remote client read, and the orders a player
//! taps.

use rand::rngs::SmallRng;
use rand::SeedableRng;
use tank_rounds::arms::Mover;
use tank_rounds::blasts::{drum_shock, record_collision, record_wreck};
use tank_rounds::chassis::{band_size, TankKind};
use tank_rounds::debug::{BulletState, DebugError, FrameFacts, PlasmaState, Probe, ShellState, bullet_state_name, nearest_ally, plasma_state_name, shell_state_name};
use tank_rounds::driving::Pull;
use tank_rounds::event::Event;
use tank_rounds::flame::{cell_heat, Hot};
use tank_rounds::frame::{BlastShape, Frame, Kill, ShockKind};
use tank_rounds::game::{Game, Setup};
use tank_rounds::hits::ShellTarget;
use tank_rounds::input::PlayerCount;
use tank_rounds::kit::Kit;
use tank_rounds::kinds::{ActiveWeapon, Cell, Dir, Drum, LaserVariant, Material, Mission, Owner, PickupKind, PlasmaVariant, Role, Side, SpawnPlan};
use tank_rounds::orders::{
    resolve_tap, CollectView, Marked, Me, MoveView, Order, OrderTarget, OrderView, PlayerOrders, Steering, Tap,
    Tapped,
};
use tank_rounds::overlays::Detail;
use tank_rounds::pickups::{bonus_cells, queued_weapon, rolls_variant};
use tank_rounds::pieces::{Fuse, HullContact, Mind, ProvisionalKind, Shot, ShotState, Tank, Tile, WeaponQueue};
use tank_rounds::predict::{FlameJet, Muzzle};
use tank_rounds::props::{tick_launches, FlyingDrum, GroundFire};
use tank_rounds::routes::{NavBlock, NavWater};
use tank_rounds::scalar::{Point, Scalar};
use tank_rounds::terrain::Terrain;
use tank_rounds::views::Contact;

fn s(v: f32) -> Scalar {
    Scalar { bits: v.to_bits() }
}

fn v(x: Scalar) -> f32 {
    f32::from_bits(x.bits)
}

fn at(x: f32, y: f32) -> Point {
    Point { x: s(x), y: s(y) }
}

fn tank() -> Tank {
    Tank {
        owner: Owner::Player(0),
        row: 3,
        position: at(0.0, 0.0),
        rotation: s(0.0),
        commanded: at(0.0, 0.0),
        asked: at(0.0, 0.0),
        velocity: at(0.0, 0.0),
        top_speed: s(100.0),
        contact: HullContact { touching_static: false, touching_tank: false, impulse: s(0.0) },
        damage: s(0.0),
        wreck: false,
        burnt_out: false,
        shield: s(0.0),
        shield_delay: s(0.0),
        shield_broke: false,
        has_body: true,
        rolling_in: false,
        mind: None,
        weapon: ActiveWeapon::Shell,
        queue: WeaponQueue::empty(),
        shells: 10,
        laser_charges: 0,
        minigun_ammo: 0,
        missile_ammo: 0,
        plasma_ammo: 0,
        flame_fuel: s(0.0),
        speed_boost: s(0.0),
        fire_cooldown: s(0.0),
        ram_cooldown: s(0.0),
        portal_cooldown: s(0.0),
        burn_timer: s(0.0),
        flame_held: false,
        laser_variant: LaserVariant::Red,
        plasma_variant: PlasmaVariant::Teal,
        shell_variant: 0,
        damage_variant: 0,
        wreck_col: None,
    }
}

fn enemy(x: f32) -> Tank {
    let mind = Mind { role: Role::Player, target_player: 0, hit_alerted: false, retreating: false };
    Tank { mind: Some(mind), position: at(x, 0.0), velocity: at(5.0, 0.0), ..tank() }
}

fn tile(material: Material, col: i32) -> Tile {
    Tile {
        position: at(col as f32 * 32.0, 0.0),
        cell: Cell { col, row: 0 },
        material,
        variant: 0,
        drum: Drum::Fuel,
        health: s(100.0),
        max_health: s(100.0),
        destroyed: false,
        burning: false,
        flammable: false,
        fuse: None,
        ram_timer: s(0.0),
        heat: s(0.0),
        edge_mask: 0,
        soot: 0,
    }
}

fn apart(a: Point, b: Point) -> Scalar {
    s(((v(a.x) - v(b.x)).powi(2) + (v(a.y) - v(b.y)).powi(2)).sqrt())
}

fn round(seed: Option<u64>) -> Game {
    let mut game = Game::new(PlayerCount::one());
    game.clear_board(&Setup {
        seed,
        mission: Mission::Protect,
        spawn_plan: SpawnPlan::Band { count: None },
        intro: None,
        pickup_respawn_seconds: s(20.0),
        player_row: None,
        player2_row: None,
        row_knob: -1,
        map_tank: None,
        map_tank2: None,
        map_tanks: None,
        fewest_enemies: 1,
        most_enemies: 4,
        seat_spacing: s(120.0),
        enemy_spacing: s(40.0),
        frog_spacing: s(200.0),
        hunter_share: false,
        kit: Kit { laser: 3, plasma: 5, minigun: 30, shield: s(60.0), damage_variants: 3 },
    });
    game.seat_tank(0, tank());
    game
}

#[test]
fn a_round_without_a_seed_draws_one() {
    assert_eq!(round(Some(7)).round.round_seed, 7);
    let seeds: Vec<u64> = (0..4).map(|_| round(None).round.round_seed).collect();
    assert!(seeds.iter().any(|x| *x != seeds[0]), "four rounds drew four times the same seed");
}

#[test]
fn movers_list_the_players_first_and_wrecks_standing_still() {
    let mut game = round(Some(1));
    let seat = game.player().unwrap();
    let e = game.place_enemy(1, Tank { wreck: true, ..enemy(50.0) });
    let movers = game.motion_snapshot();
    assert_eq!(movers[0].entity, seat);
    assert!(movers[0].is_player);
    assert_eq!(movers[1], Mover { entity: e, position: at(50.0, 0.0), velocity: at(0.0, 0.0), is_player: false });
}

#[test]
fn views_pick_out_what_burns_streams_and_leans() {
    let mut game = round(Some(1));
    let wood = game.field.spawn(Tile { burning: true, ..tile(Material::Wood, 1) });
    let bag = game.field.spawn(Tile { ram_timer: s(0.2), ..tile(Material::Sandbag, 2) });
    let fuse = Some(Fuse { left: s(1.0), total: s(1.0), from: None });
    let drum = game.field.spawn(Tile { fuse, ..tile(Material::Barrel, 3) });
    game.field.spawn(Tile { fuse, ram_timer: s(0.2), burning: true, destroyed: true, ..tile(Material::Barrel, 4) });
    let wreck = game.place_enemy(1, Tank { wreck: true, ..enemy(50.0) });
    let hot = game.place_enemy(2, Tank { burn_timer: s(1.0), flame_held: true, ..enemy(80.0) });
    let ids = |all: Vec<(u64, Tile)>| -> Vec<u64> { all.iter().map(|(e, _)| *e).collect() };
    assert_eq!(ids(game.burning_tiles()), [wood]);
    assert_eq!(ids(game.ramming_tiles()), [bag]);
    assert_eq!(ids(game.fused_barrels()), [drum]);
    let tanks = |all: Vec<(u64, Tank)>| -> Vec<u64> { all.iter().map(|(e, _)| *e).collect() };
    assert_eq!(tanks(game.burning_wrecks()), [wreck]);
    assert_eq!(tanks(game.burning_tanks()), [hot]);
    assert_eq!(tanks(game.streaming()), [hot]);
    assert_eq!(game.portal_enemies().len(), 2);
}

#[test]
fn snapshots_and_route_goals_follow_the_seats() {
    let mut game = round(Some(1));
    game.spawn_frog(Side::Player, at(9.0, 9.0), 0, s(60.0));
    game.place_enemy(1, enemy(50.0));
    let mut all = game.tank_snapshots();
    all.sort_by_key(|t| t.slot);
    assert_eq!((all[0].slot, all[0].is_player, all[0].player), (0, true, Some(0)));
    assert_eq!((all[1].slot, all[1].is_player, all[1].player), (1, false, None));
    assert_eq!(all[0].shells_ammo, 10);
    let seat = game.player().unwrap();
    let t = game.field.get::<Tank>(seat).unwrap();
    let grind = HullContact { touching_static: true, touching_tank: false, impulse: s(4.0) };
    game.field.put(
        seat,
        Tank {
            rotation: s(90.0),
            commanded: at(80.0, 0.0),
            asked: at(40.0, 0.0),
            velocity: at(30.0, 0.0),
            top_speed: s(120.0),
            shield_delay: s(1.5),
            contact: grind,
            ..t
        },
    );
    let own = *game.tank_snapshots().iter().find(|t| t.slot == 0).unwrap();
    assert_eq!((own.rotation, own.top_speed, own.shield_recharge_delay), (s(90.0), s(120.0), s(1.5)));
    assert_eq!((own.velocity, own.commanded_velocity, own.contact), (at(30.0, 0.0), at(40.0, 0.0), grind));
    assert_eq!(game.motion_snapshot()[0].velocity, at(80.0, 0.0), "the pack steers by what a tank was told");
    game.field.put(seat, Tank { commanded: at(80.0, 0.0), has_body: false, contact: grind, ..t });
    let own = *game.tank_snapshots().iter().find(|t| t.slot == 0).unwrap();
    assert_eq!((own.velocity, own.contact.touching_static), (at(80.0, 0.0), false), "no body yet");
    game.field.put(seat, t);
    assert_eq!(game.route_targets(), [at(0.0, 0.0), at(9.0, 9.0)]);
    assert_eq!(game.player_chassis(), Some(TankKind { row: 3 }));
    assert_eq!(game.player2_chassis(), None);
    assert_eq!(TankKind::scout(), TankKind { row: 0 });
}

#[test]
fn a_debug_snapshot_is_sorted_and_caps_its_projectiles() {
    let mut game = round(Some(3));
    game.place_enemy(2, enemy(50.0));
    game.place_enemy(1, enemy(60.0));
    for id in 0..70 {
        game.field.spawn(Shot {
            kind: ProvisionalKind::Bullet,
            id,
            owner: Owner::Player(0),
            position: at(id as f32, 0.0),
            prev_position: at(id as f32 - 1.0, 0.0),
            velocity: at(60.0, 0.0),
            rotation: s(90.0),
            variant: 0,
            plasma_variant: PlasmaVariant::Teal,
            shooter_row: 0,
            state: ShotState::Flying,
        });
    }
    game.field.spawn(tile(Material::Brick, 1));
    game.field.spawn(Tile { destroyed: true, ..tile(Material::Brick, 2) });
    let facts = FrameFacts { time: s(12.5), width: s(1280.0), height: s(720.0), hopping: false };
    let tidy = |p: Point| at(v(p.x).round(), v(p.y).round());
    let probe = Probe { dist: apart, touching: |_e: u64| false, tidy, left: |d: Scalar| s(100.0 - v(d)) };
    let seat = game.player().unwrap();
    let t = game.field.get::<Tank>(seat).unwrap();
    game.field.put(seat, Tank { position: at(0.4, 0.0), rotation: s(90.0), commanded: at(8.0, 0.0), velocity: at(7.0, 0.0), damage: s(30.0), ..t });
    let snap = game.debug_snapshot(Detail::Full, s(20.0), facts, &chassis_names(), &probe);
    assert_eq!(snap.facts, facts);
    let own = snap.tanks[0];
    assert_eq!((own.chassis, own.position, own.rotation, own.hp), ("row3", at(0.0, 0.0), s(90.0), s(70.0)));
    assert_eq!((own.velocity, own.commanded), (at(7.0, 0.0), Some(at(8.0, 0.0))), "what it was told and what its body does");
    assert_eq!(snap.projectiles[0].velocity, at(60.0, 0.0));
    assert_eq!(snap.seed, 3);
    assert_eq!(snap.tanks.iter().map(|t| t.slot).collect::<Vec<usize>>(), [0, 1, 2]);
    assert_eq!((snap.projectiles.len(), snap.projectiles_total), (64, 70));
    assert_eq!(snap.obstacles_alive, 1);
    assert!(snap.frog.is_none());
    let rows = game.debug_track_rows();
    assert_eq!(rows.iter().map(|r| r.slot).collect::<Vec<usize>>(), [0, 1, 2]);
    assert_eq!(rows[1].position, at(60.0, 0.0));
}

fn chassis_names() -> Vec<&'static str> {
    vec!["row0", "row1", "row2", "row3"]
}

#[test]
fn debug_names_and_distances() {
    assert_eq!(shell_state_name(ShellState::Fire1), "fire");
    assert_eq!(shell_state_name(ShellState::Flying), "flying");
    assert_eq!(plasma_state_name(PlasmaState::Hit2), "hit");
    assert_eq!(bullet_state_name(BulletState::Muzzle), "fire");
    assert_eq!(nearest_ally(&vec![]), None);
    assert_eq!(nearest_ally(&vec![s(40.0), s(12.0), s(30.0)]), Some(s(12.0)));
}

#[test]
fn a_full_roster_takes_no_more_debug_enemies() {
    let mut game = round(Some(1));
    game.place_enemy(usize::MAX, enemy(50.0));
    assert_eq!(game.debug_spawn_enemy(enemy(9.0), None), Err(DebugError::SlotsFull));
}

#[test]
fn a_band_is_capped_and_waves_place_nobody() {
    let never = || -> usize { panic!("nothing is rolled") };
    assert_eq!(band_size(SpawnPlan::Waves, Some(5), never), 0);
    assert_eq!(band_size(SpawnPlan::Band { count: Some(3) }, Some(5), never), 3);
    assert_eq!(band_size(SpawnPlan::Band { count: None }, Some(5), never), 5);
    assert_eq!(band_size(SpawnPlan::Band { count: None }, None, || 4), 4);
    let most = band_size(SpawnPlan::Band { count: Some(10_000) }, None, never);
    assert_eq!(band_size(SpawnPlan::Band { count: None }, None, || 10_000), most);
    assert!(most < 10_000);
}

#[test]
fn a_remote_seat_is_placed_armed_and_drawn_ahead_of_the_server() {
    let mut game = round(Some(1));
    let laterals: Vec<Scalar> = [0.0, 6.0, 0.0, 5.0].iter().map(|x| s(*x)).collect();
    assert_eq!(game.seat_arms(0, &laterals), Some((ActiveWeapon::Shell, Some(10), s(5.0))));
    assert_eq!(game.seat_arms(1, &laterals), None);
    game.place_seat(0, at(7.0, 8.0), s(90.0), at(1.0, 0.0));
    assert_eq!(game.seat_motion(0), Some((at(7.0, 8.0), s(90.0), at(1.0, 0.0))));
    let muzzle = Muzzle {
        position: at(9.0, 8.0),
        velocity: at(300.0, 0.0),
        rotation: s(90.0),
        shell_variant: 2,
        plasma_variant: PlasmaVariant::Purple,
    };
    let shot = game.seat_shot(0, ProvisionalKind::Shell, &muzzle).expect("the seat is taken");
    assert_eq!((shot.variant, shot.plasma_variant, shot.shooter_row), (2, PlasmaVariant::Teal, 3));
    let entity = game.add_provisional_shot(41, &shot);
    let on_field = game.field.get::<Shot>(entity).unwrap();
    assert_eq!((on_field.id, on_field.owner, on_field.state), (41, Owner::Player(0), ShotState::Flying));
    assert_eq!((on_field.velocity, on_field.rotation, on_field.prev_position), (at(300.0, 0.0), s(90.0), at(9.0, 8.0)));
    assert_eq!((on_field.variant, on_field.shooter_row), (2, 3));
    game.hold_flame(0);
    assert!(game.streaming().is_empty(), "a shell tank has no stream to hold");
    let seat = game.player().unwrap();
    let t = game.field.get::<Tank>(seat).unwrap();
    game.field.put(seat, Tank { weapon: ActiveWeapon::Flamethrower, flame_fuel: s(2.0), ..t });
    assert_eq!(game.seat_arms(0, &laterals), Some((ActiveWeapon::Flamethrower, None, s(5.0))));
    game.hold_flame(0);
    assert_eq!(game.streaming().len(), 1);
    let mut wreck = game.field.get::<Tank>(seat).unwrap();
    wreck.wreck = true;
    game.field.put(seat, wreck);
    assert_eq!(game.seat_arms(0, &laterals), None);
}

#[test]
fn a_landed_drum_goes_off_where_it_came_down() {
    let drum = FlyingDrum { from: at(0.0, 0.0), to: at(64.0, 0.0), age: s(0.1), drum: Drum::Fuel };
    let mut drums = vec![drum, drum];
    let mut f = Frame::new();
    tick_launches(&mut drums, &vec![s(0.2), s(0.9)], &vec![false, true], &mut f);
    assert_eq!(drums, [FlyingDrum { age: s(0.2), ..drum }]);
    assert_eq!(f.events, [Event::Blast { x: s(64.0), y: s(0.0), chained: true, drum: Drum::Fuel }]);
    assert_eq!(f.pending_blasts[0].center, at(64.0, 0.0));
    assert_eq!(f.pending_blasts[0].shape, BlastShape::Chained { from: at(0.0, 0.0), smoulder: s(1.0) });
    assert_eq!(drum_shock(Drum::Fuel), ShockKind::Fuel);
    assert_eq!(drum_shock(Drum::Oil), ShockKind::Barrel);
}

#[test]
fn plain_records_say_what_happened() {
    let mut f = Frame::new();
    record_wreck(&mut f, &Kill { at: at(3.0, 4.0), victim: Owner::Enemy(2) });
    record_collision(&mut f, at(5.0, 6.0));
    assert_eq!(
        f.events,
        [Event::Wreck { slot: 2, x: s(3.0), y: s(4.0) }, Event::ShellsCollided { x: s(5.0), y: s(6.0) }]
    );
    assert_eq!(f.shocks[0].kind, ShockKind::Kill);
}

#[test]
fn pickups_arm_what_they_name() {
    assert_eq!(queued_weapon(PickupKind::Missiles), Some(ActiveWeapon::Missiles));
    assert_eq!(queued_weapon(PickupKind::Health), None);
    assert!(rolls_variant(PickupKind::Laser) && !rolls_variant(PickupKind::Minigun));
    let cells = bonus_cells(Cell { col: 5, row: 6 });
    assert_eq!(cells[0], Cell { col: 4, row: 5 });
    assert_eq!(cells[7], Cell { col: 6, row: 7 });
    assert!(!cells.contains(&Cell { col: 5, row: 6 }));
    let hots = vec![Hot { cell: Cell { col: 1, row: 1 }, heat: s(0.5) }];
    assert_eq!(v(cell_heat(&hots, Cell { col: 1, row: 1 })), 0.5);
    assert_eq!(v(cell_heat(&hots, Cell { col: 2, row: 1 })), 0.0);
}

fn tapped(entity: u64, under: bool) -> Tapped {
    Tapped { entity, under, pickable: true }
}

#[test]
fn a_tap_orders_by_what_lies_under_it() {
    let mut tap = Tap {
        tanks: vec![Tapped { pickable: false, ..tapped(1, true) }, tapped(2, true)],
        enemy_frog: Some(tapped(3, true)),
        pickups: vec![tapped(4, true)],
        tiles: vec![tapped(5, false), tapped(6, true)],
        reachable: Some(at(1.0, 1.0)),
    };
    assert_eq!(resolve_tap(&tap), Some(Order::Engage { target: 2, kind: OrderTarget::Tank }));
    tap.tanks.pop();
    assert_eq!(resolve_tap(&tap), Some(Order::Engage { target: 3, kind: OrderTarget::Frog }));
    tap.enemy_frog = None;
    assert_eq!(resolve_tap(&tap), Some(Order::Collect { pickup: 4 }));
    tap.pickups.clear();
    assert_eq!(resolve_tap(&tap), Some(Order::Engage { target: 6, kind: OrderTarget::Tile }));
    tap.tiles.clear();
    assert_eq!(resolve_tap(&tap), Some(Order::Move { to: at(1.0, 1.0) }));
    tap.reachable = None;
    assert_eq!(resolve_tap(&tap), None);
}

fn steering() -> Steering {
    Steering {
        turn_first: [Dir::Left, Dir::Left, Dir::Up, Dir::Up],
        turn_second: [Dir::Right, Dir::Right, Dir::Down, Dir::Down],
        blocked: [false; 4],
        stuck_move: s(0.5),
        stuck_next: s(0.0),
        stuck_escape: s(1.0),
        hold_next: s(0.1),
        hold_limit: s(0.3),
    }
}

#[test]
fn a_standing_order_drives_reads_and_ends() {
    let mut orders = PlayerOrders { current: Some(Order::Move { to: at(100.0, 0.0) }), ..PlayerOrders::idle() };
    assert!(orders.is_active());
    assert_eq!(orders.ring_engage(), Some(false));
    let out = orders.player_order(None).unwrap();
    assert_eq!((out.kind, out.target, out.at), ("move", None, at(100.0, 0.0)));
    let me = Me { position: at(0.0, 0.0), wreck: false, moved: s(2.0) };
    let far = MoveView { same_cell: false, distance: s(100.0), arrive: s(4.0), step: Some(Dir::Right) };
    let intent = orders.order_intent(Some(me), &steering(), &OrderView::Move(far)).expect("on the way");
    assert_eq!(intent.move_dir, Some(Dir::Right));
    assert!(!intent.fire);
    let there = MoveView { same_cell: true, distance: s(1.0), ..far };
    assert_eq!(orders.order_intent(Some(me), &steering(), &OrderView::Move(there)), None);
    assert!(!orders.is_active());
    assert_eq!(orders.ring_engage(), None);
    assert!(orders.player_order(None).is_none());
    let mut orders = PlayerOrders { current: Some(Order::Collect { pickup: 4 }), ..PlayerOrders::idle() };
    let marked = Marked { at: at(3.0, 3.0), half: s(8.0) };
    let out = orders.player_order(Some(marked)).unwrap();
    assert_eq!((out.kind, out.target, out.half), ("collect", Some(OrderTarget::Pickup), s(8.0)));
    let view = CollectView { present: true, step: None, same_cell: true, straight: Dir::Up };
    let wreck = Me { wreck: true, ..me };
    assert_eq!(orders.order_intent(Some(wreck), &steering(), &OrderView::Collect(view)), None, "a wreck is past orders");
    assert!(!orders.is_active());
    let engage = PlayerOrders { current: Some(Order::Engage { target: 1, kind: OrderTarget::Tank }), ..PlayerOrders::idle() };
    assert_eq!(engage.ring_engage(), Some(true));
}

#[test]
fn an_order_route_walks_to_the_goal_and_no_further_than_its_cap() {
    let orders = PlayerOrders { current: Some(Order::Move { to: at(3.0, 0.0) }), ..PlayerOrders::idle() };
    let next = |from: Point, goal: Point| if v(from.x) < v(goal.x) { Some(at(v(from.x) + 1.0, 0.0)) } else { None };
    assert_eq!(orders.order_route(None, Some(at(0.0, 0.0)), 10, next), [at(1.0, 0.0), at(2.0, 0.0), at(3.0, 0.0)]);
    assert_eq!(orders.order_route(None, Some(at(0.0, 0.0)), 2, next).len(), 2);
    assert!(orders.order_route(None, None, 10, next).is_empty());
    assert!(PlayerOrders::idle().order_route(None, Some(at(0.0, 0.0)), 10, next).is_empty());
    assert_eq!(SmallRng::seed_from_u64(1), SmallRng::seed_from_u64(1), "a seed fixes the stream");
}

/// When a movement along the x axis from zero to `end` enters a box.
fn along(end: f32, center: Point, half: f32) -> Option<Scalar> {
    let t = (v(center.x) - half) / end;
    if v(center.y).abs() <= half && (0.0..=1.0).contains(&t) {
        Some(s(t))
    } else {
        None
    }
}

fn land(game: &Game) -> Terrain {
    Terrain::build(game, vec![(at(300.0, 0.0), at(8.0, 8.0))], &|t: Tile| {
        if t.material == Material::Iron {
            at(20.0, 20.0)
        } else {
            at(16.0, 16.0)
        }
    })
}

#[test]
fn the_lay_of_the_land_leaves_out_what_is_gone() {
    let mut game = round(Some(1));
    let iron = game.field.spawn(tile(Material::Iron, 3));
    let gone = game.field.spawn(Tile { destroyed: true, ..tile(Material::Brick, 1) });
    let land = land(&game);
    assert_eq!(land.obstacles.len(), 1);
    let b = land.obstacle(iron).unwrap();
    assert_eq!((b.center, b.half, b.material), (at(96.0, 0.0), at(20.0, 20.0), Material::Iron));
    assert_eq!(land.obstacle(gone), None);
    assert_eq!(land.obstacle_centers(), [at(96.0, 0.0)]);
    assert_eq!(land.walls.len(), 1);
}

#[test]
fn a_look_passes_over_sandbags_but_not_over_frogs() {
    let looks = |game: &Game| land(game).line_of_sight(at(10.0, 10.0), &|c: Point, h: Point| along(200.0, c, v(h.x)).is_some());
    let mut game = round(Some(1));
    game.field.spawn(tile(Material::Sandbag, 2));
    assert!(looks(&game), "low enough to see over");
    let wall = game.field.spawn(tile(Material::Brick, 3));
    assert!(!looks(&game));
    game.field.put(wall, Tile { destroyed: true, ..tile(Material::Brick, 3) });
    assert!(looks(&game));
    game.spawn_frog(Side::Player, at(50.0, 0.0), 0, s(20.0));
    assert!(!looks(&game));
}

#[test]
fn a_shot_meets_the_nearest_thing_that_is_not_its_own() {
    let sweep = |game: &Game, ignored: &Vec<u64>| {
        land(game).sweep(
            game,
            Owner::Player(0),
            ignored,
            at(10.0, 10.0),
            &|t: Tank| along(400.0, t.position, 12.0),
            &|t: Tank| along(400.0, t.position, 4.0),
            &|c: Point, h: Point| along(400.0, c, v(h.x)),
        )
    };
    let mut game = round(Some(1));
    let none = Vec::new();
    assert_eq!(sweep(&game, &none), Some((ShellTarget::Wall, s(292.0 / 400.0))), "the edge of the field is the last resort");
    let foe = game.place_enemy(1, enemy(200.0));
    assert_eq!(sweep(&game, &none), Some((ShellTarget::EnemyTank(foe), s(188.0 / 400.0))), "the hull comes before the turret");
    let wall = game.field.spawn(tile(Material::Brick, 3));
    assert_eq!(sweep(&game, &none), Some((ShellTarget::Obstacle(wall), s(80.0 / 400.0))));
    assert_eq!(sweep(&game, &vec![wall]), Some((ShellTarget::EnemyTank(foe), s(188.0 / 400.0))), "unless it flies over");
    let frog = game.spawn_frog(Side::Player, at(40.0, 0.0), 0, s(20.0)).unwrap();
    assert_eq!(sweep(&game, &none), Some((ShellTarget::Frog(frog), s(30.0 / 400.0))));
}

#[test]
fn routes_lead_around_walls_frogs_fires_and_deep_water() {
    let mut game = round(Some(1));
    game.field.spawn(tile(Material::Tree, 1));
    game.field.spawn(tile(Material::Brick, 2));
    game.spawn_frog(Side::Player, at(9.0, 9.0), 0, s(60.0));
    game.ground.fires.push(GroundFire {
        cell: Cell { col: 5, row: 6 },
        left: s(1.0),
        total: s(1.0),
        spread_at: None,
        pool: true,
    });
    assert_eq!(game.seam_cells(), [Cell { col: 2, row: 0 }], "a tree closes no seam");
    let place = |c: Cell| at(c.col as f32, c.row as f32);
    let water = |ford_cost: i32| NavWater {
        deep: vec![at(70.0, 70.0)],
        deep_half: s(16.0),
        shallow: vec![at(80.0, 70.0)],
        ford_cost,
    };
    let plan = |game: &Game, ford_cost: i32| {
        let half = |t: Tile| s(if t.material == Material::Brick { 16.0 } else { 8.0 });
        game.nav_grid(&half, s(10.0), &place, s(1.0), &water(ford_cost), s(16.0), 9)
    };
    let first = plan(&game, 6);
    assert_eq!((first.fords, first.ford_cost), (vec![at(80.0, 70.0)], 6), "a ford is open but dear");
    assert_eq!(plan(&game, 0).ford_cost, 1, "and never cheaper than dry ground");
    game.ground.portals = vec![at(100.0, 0.0)];
    assert!(first.hub.is_none() && plan(&game, 6).hub.is_none(), "a lone portal is no hub");
    game.ground.portals.push(at(300.0, 0.0));
    let hub = plan(&game, 6).hub.expect("two portals are");
    assert_eq!((hub.portals, hub.radius, hub.hop_cost), (vec![at(100.0, 0.0), at(300.0, 0.0)], s(16.0), 9));
    let blocks = first.blocks;
    assert_eq!(blocks.len(), 5);
    let block = |x: f32, y: f32, half: f32| NavBlock { at: at(x, y), half: s(half) };
    assert!(blocks.contains(&block(32.0, 0.0, 8.0)) && blocks.contains(&block(64.0, 0.0, 16.0)));
    assert_eq!(blocks[2..], [block(9.0, 9.0, 10.0), block(5.0, 6.0, 1.0), block(70.0, 70.0, 16.0)]);
}

#[test]
fn a_players_lane_costs_extra_up_to_the_first_wall() {
    let mut game = round(Some(1));
    game.spawn_frog(Side::Player, at(9.0, 9.0), 0, s(60.0));
    game.place_enemy(1, enemy(50.0));
    game.place_enemy(2, Tank { wreck: true, ..enemy(60.0) });
    let plan = |game: &Game, lane: i32, limit: i32, crowd: i32, dir: Option<Dir>| {
        game.route_grid(
            lane,
            limit,
            crowd,
            &|_e: u64, _t: Tank| dir,
            &|p: Point, _d: Dir| v(p.x) >= 64.0,
            &|p: Point, d: Dir| if d == Dir::Right { at(v(p.x) + 32.0, v(p.y)) } else { p },
        )
    };
    let right = Some(Dir::Right);
    let full = plan(&game, 5, 9, 3, right);
    assert_eq!(full.lane, [at(32.0, 0.0), at(64.0, 0.0)], "it stops at the first blocked cell");
    assert_eq!(full.crowd, [at(50.0, 0.0)], "wrecks crowd nobody");
    assert_eq!(full.goals, [at(0.0, 0.0), at(9.0, 9.0)]);
    assert_eq!(plan(&game, 5, 1, 3, right).lane, [at(32.0, 0.0)], "or at its limit");
    assert!(plan(&game, 5, -1, 3, right).lane.is_empty());
    assert!(plan(&game, 5, 9, 3, None).lane.is_empty(), "no lane without a heading");
    let free = plan(&game, 0, 9, 0, right);
    assert!(free.lane.is_empty() && free.crowd.is_empty());
    assert_eq!(free.goals.len(), 2);
}

#[test]
fn contacts_and_grass_follow_the_bodies() {
    let mut game = round(Some(1));
    let seat = game.player().unwrap();
    game.place_enemy(1, Tank { burnt_out: true, wreck: true, ..enemy(50.0) });
    let wreck = game.place_enemy(2, Tank { wreck: true, ..enemy(80.0) });
    let soft = game.place_enemy(3, enemy(120.0));
    let contacts = game.contacts(&|e: u64, t: Tank| {
        Some(Contact { at: t.position, impulse: s(if e == soft { 0.0 } else { 2.0 }), tank: e == wreck })
    });
    assert_eq!(contacts.len(), 2, "neither the burnt-out hull nor what is not felt");
    assert!(contacts.contains(&Contact { at: at(80.0, 0.0), impulse: s(2.0), tank: true }));
    let grass = vec![at(5.0, 0.0), at(82.0, 0.0), at(118.0, 0.0)];
    let near = |m: Point, p: Point| (v(m.x) - v(p.x)).abs() < 10.0;
    assert_eq!(game.grass_disturbed(&grass, &|e: u64, _t: Tank| e != seat, &near), [at(118.0, 0.0)], "a wreck stirs nothing");
    assert_eq!(game.grass_disturbed(&grass, &|_e: u64, _t: Tank| true, &near), [at(5.0, 0.0), at(118.0, 0.0)]);
    assert!(game.grass_disturbed(&grass, &|_e: u64, _t: Tank| false, &near).is_empty());
}

#[test]
fn a_replicas_jets_stop_at_the_first_wall() {
    let mut game = round(Some(1));
    let hot = game.place_enemy(1, Tank { flame_held: true, ..enemy(50.0) });
    let jet = |entity: u64, t: Tank| FlameJet { entity, origin: t.position, dir: at(1.0, 0.0), range: s(90.0), reach: s(0.0) };
    let open = game.derive_flame_jets(&jet, &|_j: FlameJet| None);
    assert_eq!(open, [FlameJet { entity: hot, origin: at(50.0, 0.0), dir: at(1.0, 0.0), range: s(90.0), reach: s(90.0) }]);
    let walled = game.derive_flame_jets(&jet, &|_j: FlameJet| Some(s(30.0)));
    assert_eq!(v(walled[0].reach), 30.0);
    game.field.put(hot, Tank { flame_held: true, wreck: true, ..enemy(50.0) });
    assert!(game.derive_flame_jets(&jet, &|_j: FlameJet| None).is_empty());
}

#[test]
fn a_hull_comes_to_rest_and_water_takes_its_boost() {
    let pull = |want: f32, on: f32, gap: f32| Pull {
        with_motion: s(want * on),
        want: s(want),
        engine: s(1.0),
        rolled: s(want - gap),
        short: s(gap.abs()),
    };
    assert_eq!(v(pull(5.0, 3.0, 4.0).taken(s(0.5))), 1.0, "the engine speeds it up");
    assert_eq!(v(pull(5.0, 0.0, 4.0).taken(s(0.5))), 1.0, "from a standstill too");
    assert_eq!(v(pull(-5.0, 3.0, -4.0).taken(s(0.5))), -1.0, "it rolls out");
    assert_eq!(v(pull(-5.0, 3.0, -0.25).taken(s(0.5))), -5.0, "and stops");
    let mut game = round(Some(1));
    let seat = game.player().unwrap();
    game.give_seat_boost(0, s(4.0));
    game.drive_over(seat, false);
    assert_eq!(v(game.field.get::<Tank>(seat).unwrap().speed_boost), 4.0);
    game.drive_over(seat, true);
    assert_eq!(v(game.field.get::<Tank>(seat).unwrap().speed_boost), 0.0);
}

#[test]
fn a_snapshot_tells_who_stands_with_whom() {
    let mut game = round(Some(3));
    game.place_enemy(1, enemy(300.0));
    game.place_enemy(2, enemy(315.0));
    game.place_enemy(3, Tank { wreck: true, ..enemy(305.0) });
    game.place_enemy(4, enemy(900.0));
    let facts = FrameFacts { time: s(0.0), width: s(1280.0), height: s(720.0), hopping: true };
    let leans = |e: u64| e == game.player().unwrap();
    let probe = Probe { dist: apart, touching: leans, tidy: |p: Point| p, left: |d: Scalar| s(100.0 - v(d)) };
    let look = |detail: Detail| game.debug_snapshot(detail, s(20.0), facts, &chassis_names(), &probe);
    let full = look(Detail::Full);
    assert_eq!(full.clusters, [vec![1, 2]]);
    let ally: Vec<Option<f32>> = full.tanks.iter().map(|t| t.nearest_ally.map(v)).collect();
    assert_eq!(ally, [None, Some(15.0), Some(15.0), None, Some(585.0)], "a live enemy with another live enemy");
    assert_eq!(full.tanks[0].touching_static, Some(true));
    assert_eq!(full.tanks[1].touching_static, Some(false));
    assert!(full.tanks[0].mind.is_none() && full.tanks[1].mind.is_some());
    let compact = look(Detail::Compact);
    assert!(compact.tanks.iter().all(|t| t.mind.is_none() && t.touching_static.is_none() && t.commanded.is_none()));
}
