//! The commander: orders applied, right of way, the frame's walk.

use tank_rounds::command::{Approach, CommandCtx, Commander, UnitView};
use tank_rounds::comms::{Order, Unit};
use tank_rounds::kinds::{Dir, Intent};
use tank_rounds::scalar::Scalar;

fn s(v: f32) -> Scalar {
    Scalar { bits: v.to_bits() }
}

fn f(v: Scalar) -> f32 {
    f32::from_bits(v.bits)
}

fn ease(slow: Scalar, by: Scalar) -> Scalar {
    s((f(slow) + f(by)).clamp(0.0, 1.0))
}

fn intent(dir: Option<Dir>) -> Intent {
    Intent { move_dir: dir, ..Intent::default() }
}

#[test]
fn apply_is_a_no_op_for_a_tank_with_no_orders() {
    let c = Commander::default();
    let before = intent(Some(Dir::Up));
    let after = c.apply(7, before, &ease);
    assert_eq!(after.move_dir, before.move_dir);
    assert_eq!(after.slow, before.slow);
    assert_eq!(after.fire, before.fire);
}

#[test]
fn a_hold_stops_the_tank_but_keeps_it_aiming() {
    let mut c = Commander::default();
    c.issue(3, Order::Hold);
    let after = c.apply(3, intent(Some(Dir::Left)), &ease);
    assert_eq!(after.move_dir, None, "a held tank stops driving");
    assert_eq!(after.face, Some(Dir::Left), "but keeps facing where it was going, so it still shoots");
}

#[test]
fn throttles_compound_and_clamp() {
    let mut c = Commander::default();
    c.issue(1, Order::Slow { by: s(0.3) });
    c.issue(1, Order::Slow { by: s(0.5) });
    assert!((f(c.apply(1, intent(Some(Dir::Up)), &ease).slow) - 0.8).abs() < 1e-6);
    c.issue(2, Order::Slow { by: s(0.9) });
    c.issue(2, Order::Slow { by: s(0.9) });
    let stopped = c.apply(2, intent(Some(Dir::Up)), &ease);
    assert_eq!(f(stopped.slow), 1.0, "compounding must clamp rather than reverse the tank");
    assert_eq!(1.0 - f(stopped.slow), 0.0);
}

#[test]
fn goal_orders_do_not_touch_the_intent() {
    let mut c = Commander::default();
    c.issue(4, Order::Goto { x: s(10.0), y: s(10.0) });
    c.issue(4, Order::Focus { player: 1 });
    c.issue(4, Order::Ram { victim: Unit::Player(0) });
    let before = intent(Some(Dir::Down));
    let after = c.apply(4, before, &ease);
    assert_eq!(after.move_dir, before.move_dir);
    assert_eq!(after.slow, before.slow);
}

/// A tank at `x` going `vx`, its speed in whole 45 px/s buckets.
fn unit(slot: usize, _x: f32, vx: f32) -> UnitView {
    UnitView {
        unit: Unit::Enemy(slot),
        slot,
        pace: (vx.abs() / 45.0) as i32,
        yielded: s(0.0),
        wreck: false,
        ring_rank: None,
    }
}

#[test]
fn right_of_way_is_antisymmetric_and_total() {
    let c = Commander::default();
    let units: Vec<UnitView> = (0..8).map(|i| unit(i, i as f32 * 10.0, (i % 3) as f32 * 45.0)).collect();
    for a in &units {
        for b in &units {
            if a.slot == b.slot {
                continue;
            }
            assert_ne!(
                c.gives_way(a, b),
                c.gives_way(b, a),
                "slots {} and {} must disagree about who yields",
                a.slot,
                b.slot
            );
        }
    }
}

#[test]
fn the_slower_tank_gives_way() {
    let c = Commander::default();
    let fast = unit(1, 0.0, 200.0);
    let slow = unit(2, 50.0, 0.0);
    assert!(c.gives_way(&slow, &fast));
    assert!(!c.gives_way(&fast, &slow));
}

fn far() -> Approach {
    Approach { gap: s(1000.0), reach: s(50.0), closing: s(0.0), wait: s(100.0) }
}

fn meeting(ttc: f32) -> Approach {
    Approach { gap: s(100.0), reach: s(50.0), closing: s(100.0), wait: s(ttc) }
}

fn ctx(enabled: bool, approaches: Vec<Vec<Approach>>) -> CommandCtx {
    CommandCtx {
        enabled,
        watch: s(400.0),
        min_closing: s(10.0),
        horizon: s(2.0),
        yield_hold: s(3.0),
        escalate: s(1.0),
        ease: s(0.5),
        approaches,
        lane_ttls: Vec::new(),
        claim_helds: Vec::new(),
    }
}

#[test]
fn a_yielder_keeps_yielding_even_when_the_comparison_flips() {
    let mut c = Commander::default();
    let fast = unit(1, 0.0, 200.0);
    let slow = unit(2, 50.0, 0.0);
    assert!(c.gives_way(&slow, &fast));
    // Latch it through a frame in which the two are about to touch.
    c.plan(&vec![fast, slow], &ctx(true, vec![vec![far(), meeting(0.5)], vec![far(), far()]]));
    assert_eq!(c.yielding_to(2).map(|y| y.0), Some(1));
    let now_fast = unit(2, 50.0, 400.0);
    assert!(c.gives_way(&now_fast, &fast), "the latch outranks the speed bucket");
}

#[test]
fn the_switch_being_off_issues_nothing() {
    let mut c = Commander::default();
    c.plan(&vec![], &ctx(false, vec![]));
    assert!(c.report().orders.is_empty(), "nothing is issued");
    assert!(!c.report().enabled);
}

#[test]
fn a_meeting_pair_gets_one_order_and_it_goes_to_the_one_giving_way() {
    let mut c = Commander::default();
    let fast = unit(1, 0.0, 200.0);
    let slow = unit(2, 50.0, 0.0);
    c.plan(&vec![fast, slow], &ctx(true, vec![vec![far(), meeting(0.5)], vec![far(), far()]]));
    assert!(c.report().orders.get(&1).is_none());
    assert_eq!(c.report().orders.get(&2).map(|o| o.len()), Some(1));
    // Nobody is close: the next frame orders nobody and forgets.
    c.plan(&vec![fast, slow], &ctx(true, vec![vec![far(), far()], vec![far(), far()]]));
    assert!(c.report().orders.is_empty());
    assert_eq!(c.yielding_to(2), None);
}

#[test]
fn a_player_never_gives_way_to_an_enemy() {
    let c = Commander::default();
    let seat = UnitView { unit: Unit::Player(0), ..unit(0, 0.0, 0.0) };
    let enemy = unit(3, 0.0, 400.0);
    assert!(c.gives_way(&enemy, &seat));
    assert!(!c.gives_way(&seat, &enemy));
}

#[test]
fn a_nudge_turns_and_hold_fire_holds() {
    let mut c = Commander::default();
    c.issue(5, Order::Nudge { dir: Dir::Left });
    c.issue(5, Order::HoldFire);
    let before = Intent { fire: true, ..intent(Some(Dir::Up)) };
    let after = c.apply(5, before, &ease);
    assert_eq!(after.move_dir, Some(Dir::Left));
    assert!(!after.fire);
    c.clear();
    assert_eq!(c.apply(5, before, &ease), before);
}
