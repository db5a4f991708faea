//! Overlays, chassis, input and terrain.

use rand::rngs::SmallRng;
use rand::SeedableRng;
use tank_rounds::chassis::{resolve_player_row, TankKind, TANK_VARIANTS};
use tank_rounds::dice::{choose_seed, pick_index, pick_row, roll_between, round_stream};
use tank_rounds::flame::{flame_tile, FlameLimits, Scorched, TileFlame};
use tank_rounds::hits::{consider_hit, obstacle_reflect_axis, ShellTarget};
use tank_rounds::input::{Input, PlayerCount};
use tank_rounds::kinds::{ActiveWeapon, Cell, Dir, Drum, Intent, LaserVariant, MAX_SEATS, Material, Owner, PlasmaVariant};
use tank_rounds::overlays::{Detail, Overlays};
use tank_rounds::pieces::{Fuse, HullContact, Tank, Tile, WeaponQueue, Wound};
use tank_rounds::scalar::{Point, Scalar};
use tank_rounds::tiles::{neighbour_mask, root_order, Tuft};

fn s(v: f32) -> Scalar {
    Scalar { bits: v.to_bits() }
}

fn at(x: f32, y: f32) -> Point {
    Point { x: s(x), y: s(y) }
}

fn tank() -> Tank {
    Tank {
        owner: Owner::Player(0),
        row: 0,
        position: at(0.0, 0.0),
        rotation: s(0.0),
        commanded: at(0.0, 0.0),
        asked: at(0.0, 0.0),
        velocity: at(0.0, 0.0),
        top_speed: s(100.0),
        contact: HullContact { touching_static: false, touching_tank: false, impulse: s(0.0) },
        damage: s(0.0),
        wreck: false,
        burnt_out: false,
        shield: s(0.0),
        shield_delay: s(0.0),
        shield_broke: false,
        has_body: true,
        rolling_in: false,
        mind: None,
        weapon: ActiveWeapon::Shell,
        queue: WeaponQueue::empty(),
        shells: 10,
        laser_charges: 0,
        minigun_ammo: 0,
        missile_ammo: 0,
        plasma_ammo: 0,
        flame_fuel: s(0.0),
        speed_boost: s(0.0),
        fire_cooldown: s(0.0),
        ram_cooldown: s(0.0),
        portal_cooldown: s(0.0),
        burn_timer: s(0.0),
        flame_held: false,
        laser_variant: LaserVariant::Red,
        plasma_variant: PlasmaVariant::Teal,
        shell_variant: 0,
        damage_variant: 0,
        wreck_col: None,
    }
}

fn tile(material: Material) -> Tile {
    Tile {
        position: at(0.0, 0.0),
        cell: Cell { col: 0, row: 0 },
        material,
        variant: 0,
        drum: Drum::Oil,
        health: s(100.0),
        max_health: s(100.0),
        destroyed: false,
        burning: false,
        flammable: false,
        fuse: None,
        ram_timer: s(0.0),
        heat: s(0.0),
        edge_mask: 0,
        soot: 0,
    }
}

#[test]
fn presets_cycle_and_mixes_snap() {
    assert_eq!(Overlays::default(), Overlays::none());
    assert_eq!(Overlays::none().next_preset(), Overlays::inspect());
    assert_eq!(Overlays::inspect().next_preset(), Overlays::all());
    assert_eq!(Overlays::all().next_preset(), Overlays::none());
    assert!(Overlays::inspect().hitboxes && Overlays::inspect().stats);
    assert!(Overlays::all().hitboxes && Overlays::all().stats);
    for mixed in [
        Overlays { nav_grid: true, ..Overlays::none() },
        Overlays { hitboxes: true, ..Overlays::none() },
        Overlays { stats: true, ..Overlays::none() },
    ] {
        assert!(mixed.any(), "{mixed:?}");
        assert_eq!(mixed.next_preset(), Overlays::none(), "{mixed:?}");
    }
    assert!(!Overlays::none().any());
}

#[test]
fn preset_name_reads_inspect_all_custom() {
    assert_eq!(Overlays::none().preset_name(), None);
    assert_eq!(Overlays::inspect().preset_name(), Some("inspect"));
    assert_eq!(Overlays::all().preset_name(), Some("all"));
    assert_eq!(Overlays { hitboxes: true, ..Overlays::none() }.preset_name(), Some("custom"));
    assert_eq!(Overlays { stats: true, ..Overlays::none() }.preset_name(), Some("custom"));
    assert_eq!(Overlays { nav_grid: true, ..Overlays::inspect() }.preset_name(), Some("custom"));
    assert_eq!(Detail::default(), Detail::Compact);
}

#[test]
fn chassis_source_precedence() {
    let random = || 3;
    assert_eq!(resolve_player_row(None, -1, None, random), 3);
    assert_eq!(resolve_player_row(None, -1, Some(TankKind::titan()), random), 10);
    assert_eq!(resolve_player_row(None, 0, Some(TankKind::titan()), random), 0);
    assert_eq!(resolve_player_row(Some(5), 0, Some(TankKind::titan()), random), 5);
    assert_eq!(resolve_player_row(Some(99), -1, None, random), TANK_VARIANTS - 1);
    assert_eq!(resolve_player_row(None, 99, None, random), TANK_VARIANTS - 1);
}

#[test]
fn held_only_spends_the_presses_and_keeps_the_held_state() {
    let mut input = Input::two(
        Intent { move_dir: Some(Dir::Up), fire: true, ..Intent::default() },
        Intent { fire: true, ..Intent::default() },
    );
    input.pause_pressed = true;
    input.restart_pressed = true;
    input.toggle_shadows_pressed = true;
    input.cycle_overlays_pressed = true;
    let later = input.held_only();
    assert_eq!(later.seats[0].move_dir, Some(Dir::Up));
    assert!(later.seats[0].fire && later.seats[1].fire);
    assert!(!later.pause_pressed && !later.restart_pressed && !later.toggle_shadows_pressed && !later.cycle_overlays_pressed);
}

#[test]
fn or_presses_carries_fire_and_toggles_but_never_a_direction() {
    let mut missed = Input::two(
        Intent { move_dir: Some(Dir::Left), fire: true, ..Intent::default() },
        Intent { move_dir: Some(Dir::Down), ..Intent::default() },
    );
    missed.restart_pressed = true;
    let now = Input::single(Intent { move_dir: Some(Dir::Right), ..Intent::default() }).or_presses(missed);
    assert_eq!(now.seats[0].move_dir, Some(Dir::Right));
    assert!(now.seats[0].fire, "the tap between two steps still fires");
    assert_eq!(now.seats[1].move_dir, None);
    assert!(!now.seats[1].fire);
    assert!(now.restart_pressed && !now.pause_pressed);
    assert_eq!(now.seat(MAX_SEATS).move_dir, None);
    assert!(!now.seat(MAX_SEATS + 3).fire);
}

#[test]
fn a_player_count_is_one_to_eight() {
    assert_eq!(PlayerCount::default().count(), 1);
    assert_eq!(PlayerCount::one().count(), 1);
    assert_eq!(PlayerCount::two().count(), 2);
    assert_eq!(PlayerCount::max().count(), MAX_SEATS);
    assert_eq!(PlayerCount::from_count(0), None);
    assert_eq!(PlayerCount::from_count(9), None);
    assert_eq!(PlayerCount::from_count(5).map(|c| c.count()), Some(5));
}

#[test]
fn a_wood_tile_ignites_under_the_stream_whatever_it_rolled() {
    let limits = FlameLimits { ignite: s(0.5), sandbag: s(1.0), fence: s(0.6) };
    let fuse = Fuse { left: s(1.0), total: s(1.0), from: None };
    for flammable in [true, false] {
        let plank = Tile { flammable, ..tile(Material::Wood) };
        let short = TileFlame { under: true, warmed: s(0.4), cooled: s(0.0), fuse, face: 0 };
        let (warm, what) = flame_tile(plank, &short, &limits);
        assert!(!warm.burning && what == Scorched::No);
        let long = TileFlame { under: true, warmed: s(0.5), cooled: s(0.0), fuse, face: 0 };
        let (lit, what) = flame_tile(warm, &long, &limits);
        assert!(lit.burning && !lit.destroyed, "flammable {flammable}");
        assert_eq!(what.what(), Some("wood"));
    }
}

#[test]
fn a_sandbag_and_a_fence_collapse_under_sustained_heat() {
    let limits = FlameLimits { ignite: s(0.5), sandbag: s(1.0), fence: s(0.6) };
    let fuse = Fuse { left: s(1.0), total: s(1.0), from: None };
    let held = |seconds: f32| TileFlame { under: true, warmed: s(seconds), cooled: s(0.0), fuse, face: 0 };
    assert_eq!(flame_tile(tile(Material::Fence), &held(0.6), &limits).1, Scorched::Fence);
    assert_eq!(flame_tile(tile(Material::Sandbag), &held(0.6), &limits).1, Scorched::No);
    assert_eq!(flame_tile(tile(Material::Sandbag), &held(1.0), &limits).1, Scorched::Sandbag);
    assert_eq!(flame_tile(tile(Material::Brick), &held(9.0), &limits).1, Scorched::No);
    let (drum, what) = flame_tile(tile(Material::Barrel), &held(0.5), &limits);
    assert!(drum.fuse == Some(fuse) && what == Scorched::Drum);
    let (tree, what) = flame_tile(tile(Material::Pine), &held(0.5), &limits);
    assert!(tree.burning && what == Scorched::Tree);
    let away = TileFlame { under: false, warmed: s(0.6), cooled: s(0.1), fuse, face: 0 };
    assert_eq!(flame_tile(tile(Material::Fence), &away, &limits).0.heat, s(0.1));
}

#[test]
fn wall_tiles_know_which_faces_are_exposed() {
    let cell = |col: i32, row: i32| Cell { col, row };
    let run: Vec<Cell> = vec![cell(10, 5), cell(11, 5), cell(12, 5)];
    let (e, w) = (0b0000_0100u8, 0b0100_0000u8);
    assert_eq!(neighbour_mask(cell(11, 5), &run), e | w, "the middle is capped top and bottom only");
    assert_eq!(neighbour_mask(cell(10, 5), &run), e, "the west end is exposed on three sides");
    assert_eq!(neighbour_mask(cell(12, 5), &run), w, "and the east end likewise");
    assert_eq!(neighbour_mask(cell(50, 50), &run), 0, "an isolated tile is exposed all round");

    let corner: Vec<Cell> = vec![cell(0, 0), cell(1, 0), cell(0, 1), cell(1, 1)];
    let mask = neighbour_mask(cell(0, 0), &corner);
    assert_eq!(mask & 0b0000_0100, 0b0000_0100, "east neighbour");
    assert_eq!(mask & 0b0001_0000, 0b0001_0000, "south neighbour");
    assert_eq!(mask & 0b0000_1000, 0b0000_1000, "and the SE diagonal, since both orthogonals are set");
    let only_diagonal: Vec<Cell> = vec![cell(0, 0), cell(1, 1)];
    assert_eq!(neighbour_mask(cell(0, 0), &only_diagonal), 0, "a diagonal alone never counts");
    let all: Vec<Cell> = (0..9).map(|i| cell(i % 3, i / 3)).collect();
    assert_eq!(neighbour_mask(cell(1, 1), &all), 0xff);
    assert_eq!(neighbour_mask(cell(i32::MAX, i32::MIN), &all), 0, "the grid's own corner is no special case");
}

#[test]
fn grass_is_sorted_by_where_each_tuft_is_rooted() {
    let mut tufts: Vec<Tuft> = Vec::new();
    for (sprite, row) in [11, 9, 13].into_iter().enumerate() {
        for k in 0..3 {
            tufts.push(Tuft { base: at(20.0 * 32.0, row as f32 * 32.0 + 16.0 - k as f32), sprite });
        }
    }
    let sorted = root_order(&tufts);
    assert!(sorted.len() >= 3, "the map's cells scattered some tufts");
    assert!(
        sorted.windows(2).all(|w| f32::from_bits(w[0].base.y.bits) <= f32::from_bits(w[1].base.y.bits)),
        "tufts are not in root order"
    );
    assert_eq!(sorted.len(), tufts.len());
}

const MAX_DAMAGE: f32 = 100.0;
const DELAY: f32 = 3.0;

fn wound(t: &Tank, amount: f32) -> Wound {
    Wound {
        shield_left: s((f32::from_bits(t.shield.bits) - amount).max(0.0)),
        damage: s((f32::from_bits(t.damage.bits) + amount).min(MAX_DAMAGE)),
        recharge_delay: s(DELAY),
        limit: s(MAX_DAMAGE),
    }
}

#[test]
fn an_oversized_hit_is_absorbed_whole_and_then_shatters_the_shield() {
    let mut t = Tank { shield: s(10.0), ..tank() };
    let w = wound(&t, 500.0);
    assert!(!t.take_damage(&w), "no bleed-through");
    assert_eq!(t.damage, s(0.0));
    assert!(!t.is_shielded(), "and the shield is gone");
    assert_eq!(t.shield, s(0.0), "never negative");
    assert!(t.shield_broke);
    let w = wound(&t, 100.0);
    assert!(t.take_damage(&w) && t.wreck, "with no shield left the next blow lands");
}

#[test]
fn a_live_shield_recharges_out_of_contact_but_a_broken_one_stays_broken() {
    let capacity = 100.0f32;
    let dt = 1.0f32 / 60.0;
    let tick = |t: &mut Tank| {
        let delay = (f32::from_bits(t.shield_delay.bits) - dt).max(0.0);
        let charge = (f32::from_bits(t.shield.bits) + 20.0 * dt).min(capacity);
        t.tick_shield(s(delay), s(charge));
    };

    let mut hurt = Tank { shield: s(capacity * 0.5), ..tank() };
    hurt.spend_shield(s(capacity * 0.5 - 1.0), s(DELAY));
    let after_hit = hurt.shield;
    tick(&mut hurt);
    assert_eq!(hurt.shield, after_hit, "no regen on the frame it was struck");
    for _ in 0..((DELAY * 60.0) as u32 + 1) {
        tick(&mut hurt);
    }
    tick(&mut hurt);
    assert!(f32::from_bits(hurt.shield.bits) > f32::from_bits(after_hit.bits), "it refills once the delay lapses");

    let mut broken = Tank { shield: s(0.0), ..tank() };
    for _ in 0..600 {
        tick(&mut broken);
    }
    assert_eq!(broken.shield, s(0.0), "a shattered shield never returns on its own");
}

#[test]
fn consider_hit_keeps_the_nearer_candidate_regardless_of_call_order() {
    let mut best = None;
    consider_hit(&mut best, Some(s(0.8)), 3, ShellTarget::Obstacle(u64::MAX));
    consider_hit(&mut best, Some(s(0.2)), 4, ShellTarget::Wall);
    assert!(matches!(best, Some((t, _, ShellTarget::Wall)) if t == s(0.2)));
}

#[test]
fn consider_hit_breaks_an_exact_tie_by_rank() {
    let mut best = None;
    consider_hit(&mut best, Some(s(0.5)), 3, ShellTarget::Obstacle(u64::MAX));
    consider_hit(&mut best, Some(s(0.5)), 1, ShellTarget::EnemyTank(u64::MAX));
    assert!(matches!(best, Some((_, 1, ShellTarget::EnemyTank(_)))));
}

#[test]
fn reflect_axis_picks_the_face_the_shell_came_from() {
    let (half_x, half_y) = (16.0f32, 12.0f32);
    let axes = |x: f32, y: f32| obstacle_reflect_axis(s(x.abs() - half_x), s(y.abs() - half_y));
    assert_eq!(axes(-30.0, 2.0), (true, false));
    assert_eq!(axes(3.0, -30.0), (false, true));
}

#[test]
fn a_round_rolls_what_its_seed_says() {
    assert_eq!(choose_seed(Some(77)), 77);
    let (mut a, mut b) = (round_stream(9), SmallRng::seed_from_u64(9));
    for _ in 0..20 {
        assert_eq!(pick_index(&mut a, 13), pick_index(&mut b, 13));
        let row = pick_row(&mut a, 12);
        assert!((0..12).contains(&row));
        assert_eq!(row, pick_row(&mut b, 12));
        let n = roll_between(&mut a, 3, 6);
        assert!((3..=6).contains(&n));
        assert_eq!(n, roll_between(&mut b, 3, 6));
    }
    assert_eq!(pick_index(&mut a, 0), None);
    assert_eq!(a, b, "nothing to pick draws nothing");
    let unpinned: Vec<u64> = (0..4).map(|_| choose_seed(None)).collect();
    assert!(unpinned.iter().any(|&n| n != unpinned[0]), "an unpinned seed is drawn");
}

#[test]
fn every_material_reports_a_sane_max_health() {
    let walls = [Material::Brick, Material::Iron, Material::Wood, Material::Glass];
    let all = [
        Material::Brick,
        Material::Iron,
        Material::Wood,
        Material::Glass,
        Material::Sandbag,
        Material::Barrel,
        Material::Fence,
        Material::Tree,
        Material::Pine,
    ];
    for material in all {
        assert_eq!(material.is_wall(), walls.contains(&material), "{material:?}");
    }
    assert!(Material::Tree.is_tree() && Material::Pine.is_tree());
    assert!(!Material::Tree.is_wall());
}
