//! Engagement slots, with the geometry worked out in the test.

use tank_rounds::engage::{
    Contender, EngageCtx, EngageReport, EngageRing, EngageSlot, EngageStatus, EngageTank, SLOT_COUNT,
};
use tank_rounds::scalar::{Point, Scalar};

const DIRS: [(f32, f32); 4] = [(0.0, -1.0), (1.0, 0.0), (0.0, 1.0), (-1.0, 0.0)];
const RING: f32 = 220.0;
const RESERVE: f32 = 340.0;
const MIN_RADIUS: f32 = 100.0;
const LATERAL: f32 = 16.0;

fn s(v: f32) -> Scalar {
    Scalar { bits: v.to_bits() }
}

fn x_of(p: Point) -> f32 {
    f32::from_bits(p.x.bits)
}

fn y_of(p: Point) -> f32 {
    f32::from_bits(p.y.bits)
}

fn perp_of(d: (f32, f32)) -> (f32, f32) {
    (-d.1, d.0)
}

fn open_field() -> ((f32, f32), f32, f32, f32) {
    ((640.0, 360.0), 1280.0, 720.0, 40.0)
}

fn entity(n: u32) -> u64 {
    (1u64 << 32) | n as u64
}

fn engage_point(player: (f32, f32), w: f32, h: f32, m: f32, slot: EngageSlot) -> Option<Point> {
    let dir = DIRS[slot.axis as usize];
    let perp = perp_of(dir);
    let lateral = slot.side as f32 * LATERAL;
    let (px, py) = player;
    let lat_x = px + perp.0 * lateral;
    let lat_y = py + perp.1 * lateral;
    if lat_x < m || lat_x > w - m || lat_y < m || lat_y > h - m {
        return None;
    }
    let mut forward = if slot.rank == 0 { RING } else { RESERVE };
    let room = if dir.0 > 0.0 {
        w - m - px
    } else if dir.0 < 0.0 {
        px - m
    } else if dir.1 > 0.0 {
        h - m - py
    } else {
        py - m
    };
    if slot.rank == 0 {
        forward = forward.min(room);
        if forward < MIN_RADIUS {
            return None;
        }
    } else if forward > room {
        return None;
    }
    Some(Point { x: s(px + dir.0 * forward + perp.0 * lateral), y: s(py + dir.1 * forward + perp.1 * lateral) })
}

fn ctx(player: (f32, f32), w: f32, h: f32, m: f32, los: bool) -> EngageCtx {
    let mut points: [Option<Point>; 16] = [None; 16];
    for i in 0..SLOT_COUNT {
        points[i] = engage_point(player, w, h, m, EngageSlot::from_index(i));
    }
    EngageCtx { points, line_of_sight: [los; 16] }
}

fn contender(entity: u64, at: (f32, f32), player: (f32, f32), reachable: bool) -> Contender {
    let to_me = (at.0 - player.0, at.1 - player.1);
    let len = (to_me.0 * to_me.0 + to_me.1 * to_me.1).sqrt().max(1.0);
    let unit = (to_me.0 / len, to_me.1 / len);
    let mut bearing = [s(0.0); 4];
    let mut lateral = [s(0.0); 4];
    for a in 0..4 {
        bearing[a] = s(DIRS[a].0 * unit.0 + DIRS[a].1 * unit.1);
        let perp = perp_of(DIRS[a]);
        lateral[a] = s(to_me.0 * perp.0 + to_me.1 * perp.1);
    }
    Contender { entity, bearing, lateral, reachable: [reachable; 16] }
}

fn assign(ring: &mut EngageRing, engaged: &Vec<Contender>, ctx: &EngageCtx) -> EngageReport {
    let mut report = EngageReport::default();
    for (i, c) in engaged.iter().enumerate() {
        report.tanks.push(EngageTank::new(c.entity, i + 1, EngageStatus::Engaged));
    }
    ring.assign(engaged, ctx, &mut report);
    report
}

#[test]
fn slot_index_round_trips() {
    for i in 0..SLOT_COUNT {
        assert_eq!(EngageSlot::from_index(i).index(), i);
    }
    assert_eq!(EngageSlot { axis: 3, rank: 1, side: 1 }.index(), 15);
    assert_eq!(EngageSlot { axis: 1, rank: 0, side: -1 }.axis_name(), "right");
}

#[test]
fn opposite_tanks_get_distinct_slots_on_their_own_axes() {
    let (player, w, h, margin) = open_field();
    let ctx = ctx(player, w, h, margin, true);
    let mut ring = EngageRing::default();
    let (west, east) = (entity(1), entity(2));
    let report = assign(
        &mut ring,
        &vec![contender(west, (200.0, 360.0), player, true), contender(east, (1100.0, 360.0), player, true)],
        &ctx,
    );
    let tw = report.target(west).unwrap();
    let te = report.target(east).unwrap();
    assert!(x_of(tw) < player.0, "west tank should be assigned west of the player");
    assert!(x_of(te) > player.0, "east tank should be assigned east of the player");
    assert!((x_of(tw) - player.0).abs() > MIN_RADIUS && (x_of(te) - player.0).abs() > MIN_RADIUS);
    assert_ne!(tw, te);
    assert!(report.built);
    assert_eq!(report.slot_of(west).unwrap().axis_name(), "left");
    assert_eq!(report.slot_of(east).unwrap().axis_name(), "right");
    assert_eq!(report.slots.iter().filter(|s| s.claimed_by.is_some()).count(), 2);
    assert!(report.tanks.iter().all(|t| !t.sticky && t.rejected.claimed == 0));
}

#[test]
fn a_held_slot_is_kept_while_it_stays_valid() {
    let (player, w, h, margin) = open_field();
    let ctx = ctx(player, w, h, margin, true);
    let mut ring = EngageRing::default();
    let tank = entity(7);
    let first = assign(&mut ring, &vec![contender(tank, (200.0, 300.0), player, true)], &ctx);
    let second = assign(&mut ring, &vec![contender(tank, (300.0, 500.0), player, true)], &ctx);
    assert_eq!(first.target(tank), second.target(tank));
    assert!(!first.tanks[0].sticky);
    assert!(second.tanks[0].sticky);
}

#[test]
fn a_blocked_slot_yields_no_target() {
    let (player, w, h, margin) = open_field();
    let ctx = ctx(player, w, h, margin, true);
    let mut ring = EngageRing::default();
    let report = assign(&mut ring, &vec![contender(entity(1), (200.0, 360.0), player, false)], &ctx);
    assert!(report.target(entity(1)).is_none());
    let r = report.tanks[0].rejected;
    assert_eq!((r.off_map, r.unreachable, r.no_los, r.claimed), (4, 12, 0, 0));
    assert!(report.slots.iter().all(|s| s.line_of_sight.is_none()), "unreachable slots never reach the LOS check");
}

#[test]
fn a_cornered_player_loses_whole_axes_and_the_report_says_so() {
    let (_, w, h, margin) = open_field();
    let player = (60.0, 60.0);
    let ctx = ctx(player, w, h, margin, true);
    let mut ring = EngageRing::default();
    let tank = entity(3);
    let report = assign(&mut ring, &vec![contender(tank, (30.0, 30.0), player, true)], &ctx);
    let off_map = report.slots.iter().filter(|s| s.point.is_none()).count();
    assert_eq!(off_map, 8, "the up and left axes are entirely off the map");
    assert_eq!(report.tanks[0].rejected.off_map, 4, "two sides of each of the two preferred axes");
    assert!(report.target(tank).is_some_and(|p| x_of(p) > player.0 || y_of(p) > player.1));
}

#[test]
fn a_slot_without_a_view_is_passed_over_and_counted() {
    let (player, w, h, margin) = open_field();
    let ctx = ctx(player, w, h, margin, false);
    let mut ring = EngageRing::default();
    let report = assign(&mut ring, &vec![contender(entity(1), (200.0, 360.0), player, true)], &ctx);
    assert!(report.target(entity(1)).is_none());
    assert_eq!(report.tanks[0].rejected.no_los, 12);
    assert_eq!(report.slot_of(entity(1)), None);
}

#[test]
fn two_tanks_on_one_axis_never_share_a_slot() {
    let (player, w, h, margin) = open_field();
    let ctx = ctx(player, w, h, margin, true);
    let mut ring = EngageRing::default();
    let tanks: Vec<Contender> = (1..=6).map(|n| contender(entity(n), (200.0, 360.0), player, true)).collect();
    let report = assign(&mut ring, &tanks, &ctx);
    for a in 1..=6u32 {
        for b in a + 1..=6 {
            assert_ne!(report.slot_of(entity(a)), report.slot_of(entity(b)));
        }
    }
    assert!(report.tanks[1].rejected.claimed > 0, "the second tank found the first one's slot taken");
}

#[test]
fn a_released_tank_searches_afresh() {
    let (player, w, h, margin) = open_field();
    let ctx = ctx(player, w, h, margin, true);
    let mut ring = EngageRing::default();
    let tank = entity(7);
    assign(&mut ring, &vec![contender(tank, (200.0, 300.0), player, true)], &ctx);
    ring.release(tank);
    let again = assign(&mut ring, &vec![contender(tank, (200.0, 300.0), player, true)], &ctx);
    assert!(!again.tanks[0].sticky);
    ring.clear();
    let third = assign(&mut ring, &vec![contender(tank, (200.0, 300.0), player, true)], &ctx);
    assert!(!third.tanks[0].sticky);
}

#[test]
fn a_cleared_report_knows_nobody() {
    let (player, w, h, margin) = open_field();
    let ctx = ctx(player, w, h, margin, true);
    let mut ring = EngageRing::default();
    let mut report = assign(&mut ring, &vec![contender(entity(1), (200.0, 360.0), player, true)], &ctx);
    report.clear();
    assert!(!report.built && report.tanks.is_empty());
    assert_eq!(report.target(entity(1)), None);
}

#[test]
fn a_tank_that_stands_nowhere_takes_the_axes_as_they_come() {
    let (player, w, h, m) = open_field();
    let lost = contender(entity(1), (f32::NAN, 100.0), player, true);
    assert!(lost.bearing.iter().all(|b| f32::from_bits(b.bits).is_nan()));
    let mut ring = EngageRing::default();
    let report = assign(&mut ring, &vec![lost], &ctx(player, w, h, m, true));
    let told = report.tanks[0];
    assert_eq!(told.slot.unwrap(), EngageSlot { axis: 0, rank: 0, side: -1 });
    assert_eq!(told.rejected.claimed, 0);
}

#[test]
fn everybody_keeps_its_slot_from_one_assignment_to_the_next() {
    let (player, w, h, m) = open_field();
    let c = ctx(player, w, h, m, true);
    let mut ring = EngageRing::default();
    let first = assign(
        &mut ring,
        &vec![contender(entity(1), (900.0, 360.0), player, true), contender(entity(2), (910.0, 370.0), player, true)],
        &c,
    );
    let again = assign(
        &mut ring,
        &vec![contender(entity(1), (640.0, 40.0), player, true), contender(entity(2), (300.0, 360.0), player, true)],
        &c,
    );
    for (was, now) in first.tanks.iter().zip(&again.tanks) {
        assert_eq!((was.slot, was.target), (now.slot, now.target), "even where a fresh search would prefer another axis");
        assert!(!was.sticky && now.sticky);
        let r = now.rejected;
        assert_eq!((r.claimed, r.off_map, r.unreachable, r.no_los), (0, 0, 0, 0));
    }
}
