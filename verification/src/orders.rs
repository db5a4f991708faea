//! Tap-to-command: the player's standing order, and the [`Intent`] it drives
//! the tank with.
//!
//! A tap is an order, not a nudge: it survives until the target dies, the
//! destination is reached, the route turns out not to exist, or the player
//! touches an arrow key. The routes and the geometry are the host's; when an
//! order ends, when the tank holds, creeps, sidesteps or fires, and which
//! heading it commits to are decided here.

use vstd::prelude::*;

use crate::kinds::{Dir, Intent};
use crate::scalar::{Point, Scalar};

verus! {

/// The largest finite measurement.
pub const LARGEST: u32 = 0x7f7f_ffff;

/// What a tap landed on.
#[derive(Clone, Copy, Debug, PartialEq, Eq, Structural)]
pub enum OrderTarget {
    Tank,
    Frog,
    Tile,
    Pickup,
}

/// The player's standing order.
#[derive(Clone, Copy, Debug, PartialEq, Eq, Structural)]
pub enum Order {
    /// Drive to a point and stop.
    Move { to: Point },
    /// Close on something and shoot it until it is gone.
    Engage { target: u64, kind: OrderTarget },
    /// Drive onto a pickup and take it. It ends when the pickup is gone, not
    /// when the tank arrives.
    Collect { pickup: u64 },
}

/// The order plus the small amount of memory driving it needs.
#[derive(Clone, Copy, Debug, PartialEq, Eq, Structural)]
pub struct PlayerOrders {
    pub current: Option<Order>,
    /// Seconds the aim has been settled on this axis.
    pub aim_settle: Scalar,
    /// Whether the last frame counted as aligned. It takes a wider miss to
    /// lose alignment than to gain it.
    pub aligned: bool,
    /// The heading committed to, and for how long.
    pub committed: Option<Dir>,
    pub dir_hold: Scalar,
    /// Where the tank was last frame and how far it got since.
    pub last_pos: Option<Point>,
    pub moved: Scalar,
    pub stuck_timer: Scalar,
    /// The closest to a firing line this engagement has managed, how far the
    /// tank has driven since it last got any closer, and for how long.
    pub best_off_axis: Scalar,
    pub give_up_travel: Scalar,
    pub give_up: Scalar,
}

impl PlayerOrders {
    /// No order and no memory of one. Nothing has been lined up yet, so
    /// anything counts as an improvement.
    #[verifier::allow_in_spec]
    pub fn idle() -> PlayerOrders
        returns
            (PlayerOrders {
                current: None,
                aim_settle: Scalar { bits: 0 },
                aligned: false,
                committed: None,
                dir_hold: Scalar { bits: 0 },
                last_pos: None,
                moved: Scalar { bits: 0 },
                stuck_timer: Scalar { bits: 0 },
                best_off_axis: Scalar { bits: LARGEST },
                give_up_travel: Scalar { bits: 0 },
                give_up: Scalar { bits: 0 },
            }),
    {
        PlayerOrders {
            current: None,
            aim_settle: Scalar { bits: 0 },
            aligned: false,
            committed: None,
            dir_hold: Scalar { bits: 0 },
            last_pos: None,
            moved: Scalar { bits: 0 },
            stuck_timer: Scalar { bits: 0 },
            best_off_axis: Scalar { bits: LARGEST },
            give_up_travel: Scalar { bits: 0 },
            give_up: Scalar { bits: 0 },
        }
    }

    /// Drop the order.
    pub fn clear(&mut self)
        ensures
            *final(self) == PlayerOrders::idle(),
    {
        *self = PlayerOrders::idle();
    }

    pub fn is_active(&self) -> (r: bool)
        ensures
            r == self.current is Some,
    {
        self.current.is_some()
    }

    /// What the order ring should show: nothing with no order running,
    /// `Some(false)` for a move, `Some(true)` for an engagement.
    pub fn ring_engage(&self) -> (r: Option<bool>)
        ensures
            r == (match self.current {
                None => None,
                Some(Order::Engage { .. }) => Some(true),
                Some(_) => Some(false),
            }),
    {
        match self.current {
            None => None,
            Some(Order::Move { .. }) | Some(Order::Collect { .. }) => Some(false),
            Some(Order::Engage { .. }) => Some(true),
        }
    }
}

impl Default for PlayerOrders {
    fn default() -> (orders: PlayerOrders)
        ensures
            orders == PlayerOrders::idle(),
    {
        PlayerOrders::idle()
    }
}

/// Something under a tap.
#[derive(Clone, Copy, Debug, PartialEq, Eq, Structural)]
pub struct Tapped {
    pub entity: u64,
    /// The tap is inside its box.
    pub under: bool,
    /// A tap can pick it: not the player's own tank, not a wreck or dead,
    /// not a tile that is gone or can never die.
    pub pickable: bool,
}

/// The first pickable thing under the tap.
pub open spec fn first_under(things: Seq<Tapped>) -> Option<u64>
    decreases things.len(),
{
    if things.len() == 0 {
        None
    } else if things[0].pickable && things[0].under {
        Some(things[0].entity)
    } else {
        first_under(things.skip(1))
    }
}

fn find_under(things: &Vec<Tapped>) -> (r: Option<u64>)
    ensures
        r == first_under(things@),
{
    let mut i: usize = 0;
    assert(things@.skip(0) =~= things@);
    while i < things.len()
        invariant
            i <= things@.len(),
            first_under(things@) == first_under(things@.skip(i as int)),
        decreases things@.len() - i,
    {
        if things[i].pickable && things[i].under {
            return Some(things[i].entity);
        }
        assert(things@.skip(i as int).skip(1) =~= things@.skip(i + 1));
        i += 1;
    }
    None
}

/// What is near a tap.
pub struct Tap {
    pub tanks: Vec<Tapped>,
    pub enemy_frog: Option<Tapped>,
    pub pickups: Vec<Tapped>,
    pub tiles: Vec<Tapped>,
    /// The point closest to the tap that can be reached from here.
    pub reachable: Option<Point>,
}

/// What a tap orders: the enemy hull under it, else the enemy frog, else the
/// pickup, else the tile, else a drive to the closest point in reach.
pub open spec fn tap_order(tap: &Tap) -> Option<Order> {
    if let Some(target) = first_under(tap.tanks@) {
        Some(Order::Engage { target, kind: OrderTarget::Tank })
    } else if tap.enemy_frog matches Some(frog) && frog.pickable && frog.under {
        Some(Order::Engage { target: tap.enemy_frog->0.entity, kind: OrderTarget::Frog })
    } else if let Some(pickup) = first_under(tap.pickups@) {
        Some(Order::Collect { pickup })
    } else if let Some(target) = first_under(tap.tiles@) {
        Some(Order::Engage { target, kind: OrderTarget::Tile })
    } else {
        match tap.reachable {
            Some(to) => Some(Order::Move { to }),
            None => None,
        }
    }
}

/// Turn a tap into an order. Anything shootable under the point becomes an
/// engagement, a pickup a collection, everything else a move.
pub fn resolve_tap(tap: &Tap) -> (order: Option<Order>)
    ensures
        order == tap_order(tap),
{
    if let Some(target) = find_under(&tap.tanks) {
        return Some(Order::Engage { target, kind: OrderTarget::Tank });
    }
    if let Some(frog) = tap.enemy_frog {
        if frog.pickable && frog.under {
            return Some(Order::Engage { target: frog.entity, kind: OrderTarget::Frog });
        }
    }
    if let Some(pickup) = find_under(&tap.pickups) {
        return Some(Order::Collect { pickup });
    }
    if let Some(target) = find_under(&tap.tiles) {
        return Some(Order::Engage { target, kind: OrderTarget::Tile });
    }
    match tap.reachable {
        Some(to) => Some(Order::Move { to }),
        None => None,
    }
}

/// The heading that undoes one.
#[verifier::allow_in_spec]
pub fn opposite(dir: Dir) -> Dir
    returns
        (match dir {
            Dir::Up => Dir::Down,
            Dir::Down => Dir::Up,
            Dir::Left => Dir::Right,
            Dir::Right => Dir::Left,
        }),
{
    match dir {
        Dir::Up => Dir::Down,
        Dir::Down => Dir::Up,
        Dir::Left => Dir::Right,
        Dir::Right => Dir::Left,
    }
}

/// What the steering grid and the clocks say this frame. Each clock is the
/// one in [`PlayerOrders`] as it reads once this frame's time or travel has
/// been added.
#[derive(Clone, Copy, Debug)]
pub struct Steering {
    /// The two headings across a heading, per heading: the one to try first.
    pub turn_first: [Dir; 4],
    pub turn_second: [Dir; 4],
    /// Whether a heading walks into terrain, per heading.
    pub blocked: [bool; 4],
    /// A tank that moved less than this is standing still.
    pub stuck_move: Scalar,
    pub stuck_next: Scalar,
    pub stuck_escape: Scalar,
    pub hold_next: Scalar,
    pub hold_limit: Scalar,
}

/// A heading's place in a per-heading table.
#[verifier::allow_in_spec]
pub fn dir_index(dir: Dir) -> usize
    returns
        (match dir {
            Dir::Up => 0usize,
            Dir::Down => 1usize,
            Dir::Left => 2usize,
            Dir::Right => 3usize,
        }),
{
    match dir {
        Dir::Up => 0usize,
        Dir::Down => 1usize,
        Dir::Left => 2usize,
        Dir::Right => 3usize,
    }
}

impl Steering {
    /// The heading walks into terrain.
    pub open spec fn walled(self, dir: Dir) -> bool {
        self.blocked@[dir_index(dir) as int]
    }

    /// The way out for a tank that is stuck on `failing`: across it, across
    /// it the other way, back, and only then where it wanted to go.
    pub open spec fn way_out(self, failing: Dir, fresh: Dir) -> Dir {
        let first = self.turn_first@[dir_index(failing) as int];
        let second = self.turn_second@[dir_index(failing) as int];
        if !self.walled(first) {
            first
        } else if !self.walled(second) {
            second
        } else if !self.walled(opposite(failing)) {
            opposite(failing)
        } else {
            fresh
        }
    }
}

/// The heading driven this frame and the memory it leaves. A tank going
/// nowhere for long enough turns away from whatever heading has been failing;
/// otherwise a held heading is kept for a beat unless it is blocked.
pub open spec fn committing(orders: PlayerOrders, s: Steering, fresh: Dir) -> (PlayerOrders, Dir) {
    let stuck = if orders.moved.below(s.stuck_move) {
        s.stuck_next
    } else {
        Scalar::zero()
    };
    if s.stuck_escape.at_most(stuck) {
        let failing = match orders.committed {
            Some(held) => held,
            None => fresh,
        };
        let out = s.way_out(failing, fresh);
        (
            PlayerOrders {
                stuck_timer: Scalar::zero(),
                committed: Some(out),
                dir_hold: Scalar::zero(),
                ..orders
            },
            out,
        )
    } else if orders.committed matches Some(held) && held != fresh && s.hold_next.below(
        s.hold_limit,
    ) && !s.walled(held) {
        (
            PlayerOrders { stuck_timer: stuck, dir_hold: s.hold_next, ..orders },
            orders.committed->0,
        )
    } else {
        (
            PlayerOrders {
                stuck_timer: stuck,
                dir_hold: if orders.committed != Some(fresh) {
                    Scalar::zero()
                } else {
                    s.hold_next
                },
                committed: Some(fresh),
                ..orders
            },
            fresh,
        )
    }
}

/// An intent to drive along a heading.
pub open spec fn driving(dir: Dir) -> Intent {
    Intent { move_dir: Some(dir), ..Intent::idle() }
}

/// An intent to face a heading without driving.
pub open spec fn facing(dir: Dir) -> Intent {
    Intent { face: Some(dir), ..Intent::idle() }
}

fn drive_intent(dir: Dir) -> (intent: Intent)
    ensures
        intent == driving(dir),
{
    Intent { move_dir: Some(dir), ..Intent::idle() }
}

fn face_intent(dir: Dir) -> (intent: Intent)
    ensures
        intent == facing(dir),
{
    Intent { face: Some(dir), ..Intent::idle() }
}

impl PlayerOrders {
    fn is_walled(s: &Steering, dir: Dir) -> (r: bool)
        ensures
            r == s.walled(dir),
    {
        s.blocked[dir_index(dir)]
    }

    /// Pick the heading to drive this frame. Holding a heading for a beat
    /// keeps a diagonal route from alternating every frame; terrain ahead
    /// drops the hold early, and a tank that goes nowhere turns away.
    pub fn commit_dir(&mut self, s: &Steering, fresh: Dir) -> (dir: Dir)
        ensures
            (*final(self), dir) == committing(*old(self), *s, fresh),
    {
        self.stuck_timer = if self.moved.lt(s.stuck_move) {
            s.stuck_next
        } else {
            Scalar::zero()
        };
        if s.stuck_escape.le(self.stuck_timer) {
            self.stuck_timer = Scalar::zero();
            let failing: Dir = match self.committed {
                Some(held) => held,
                None => fresh,
            };
            let first: Dir = s.turn_first[dir_index(failing)];
            let second: Dir = s.turn_second[dir_index(failing)];
            let back: Dir = opposite(failing);
            let out: Dir = if !Self::is_walled(s, first) {
                first
            } else if !Self::is_walled(s, second) {
                second
            } else if !Self::is_walled(s, back) {
                back
            } else {
                fresh
            };
            self.committed = Some(out);
            self.dir_hold = Scalar::zero();
            return out;
        }
        self.dir_hold = s.hold_next;
        if let Some(held) = self.committed {
            if held != fresh && s.hold_next.lt(s.hold_limit) && !Self::is_walled(s, held) {
                return held;
            }
            if held != fresh {
                self.dir_hold = Scalar::zero();
            }
        } else {
            self.dir_hold = Scalar::zero();
        }
        self.committed = Some(fresh);
        fresh
    }
}

/// Twelve pixels a second: anything faster counts as moving.
pub const MOVING_SPEED: u32 = 0x4140_0000;

/// What driving to a point needs to know.
#[derive(Clone, Copy, Debug, PartialEq, Eq, Structural)]
pub struct MoveView {
    /// The tank stands in the goal's cell.
    pub same_cell: bool,
    pub distance: Scalar,
    /// Near enough to call it arrived.
    pub arrive: Scalar,
    /// The heading of the next step of the route, if there is one.
    pub step: Option<Dir>,
}

/// What driving onto a pickup needs to know.
#[derive(Clone, Copy, Debug, PartialEq, Eq, Structural)]
pub struct CollectView {
    /// The pickup is still there.
    pub present: bool,
    /// The heading of the next step toward the reachable point nearest it.
    pub step: Option<Dir>,
    /// The tank stands in the pickup's own cell.
    pub same_cell: bool,
    /// The heading straight at it.
    pub straight: Dir,
}

/// A place to shoot from.
#[derive(Clone, Copy, Debug, PartialEq, Eq, Structural)]
pub struct Spot {
    /// A tank can stand there and get there.
    pub standable: bool,
    /// It lies in the cell the tank is in.
    pub same_cell: bool,
    /// The heading straight at it.
    pub creep: Dir,
    /// The heading of the next step of the route there.
    pub step: Option<Dir>,
}

/// What an engagement needs to know. Clocks read as they do once this frame's
/// time or travel has been added.
#[derive(Clone, Copy, Debug, PartialEq, Eq, Structural)]
pub struct EngageView {
    /// The target is still there and alive.
    pub present: bool,
    pub range: Scalar,
    pub attack_range: Scalar,
    /// The heading of the next step toward the reachable point nearest the
    /// target.
    pub approach: Option<Dir>,
    /// The cardinal the target lies along.
    pub dir: Dir,
    /// How far off the firing line and how far along it the target is.
    pub off_axis: Scalar,
    pub forward: Scalar,
    /// How far off the line a shot may pass and still hit.
    pub window: Scalar,
    /// The wider miss it takes to lose alignment.
    pub lose: Scalar,
    pub half_window: Scalar,
    /// Nothing stands between the tank and the target's near side.
    pub sees: bool,
    pub settle_next: Scalar,
    pub settle_needed: Scalar,
    /// A shot fired now is still inside the window when it arrives.
    pub lands: bool,
    /// The best off-axis so far, less one pixel.
    pub bar: Scalar,
    pub travel_next: Scalar,
    pub give_up_px: Scalar,
    pub give_up_next: Scalar,
    pub give_up_seconds: Scalar,
    /// The target's speed along each axis.
    pub speed_x: Scalar,
    pub speed_y: Scalar,
    /// How far away it is along each axis.
    pub apart_x: Scalar,
    pub apart_y: Scalar,
    /// The firing spots: onto the target's column, and onto its row.
    pub column: Spot,
    pub row: Spot,
    /// The heading of the next step at the target itself, and straight at it.
    pub close: Option<Dir>,
    pub straight: Dir,
}

impl EngageView {
    /// The firing line is vertical: the one a moving target travels along,
    /// and for a still one whichever takes the shorter sidestep.
    pub open spec fn vertical(self) -> bool {
        let brisk = Scalar { bits: MOVING_SPEED };
        if brisk.below(self.speed_x) || brisk.below(self.speed_y) {
            self.speed_x.below(self.speed_y)
        } else {
            self.apart_x.below(self.apart_y)
        }
    }

    /// The spot to shoot from: the preferred one, else the other, else none.
    pub open spec fn stand(self) -> Option<Spot> {
        let (first, second) = if self.vertical() {
            (self.column, self.row)
        } else {
            (self.row, self.column)
        };
        if first.standable {
            Some(first)
        } else if second.standable {
            Some(second)
        } else {
            None
        }
    }

    /// On the firing line, given whether it was last frame.
    pub open spec fn lined_up(self, before: bool) -> bool {
        Scalar::zero().below(self.forward) && self.off_axis.at_most(
            if before {
                self.lose
            } else {
                self.window
            },
        )
    }
}

/// Both firing spots, preferred first.
pub fn firing_spots(view: &EngageView) -> (spots: (Spot, Spot))
    ensures
        spots == (if view.vertical() {
            (view.column, view.row)
        } else {
            (view.row, view.column)
        }),
{
    let brisk: Scalar = Scalar { bits: MOVING_SPEED };
    let vertical: bool = if brisk.lt(view.speed_x) || brisk.lt(view.speed_y) {
        view.speed_x.lt(view.speed_y)
    } else {
        view.apart_x.lt(view.apart_y)
    };
    if vertical {
        (view.column, view.row)
    } else {
        (view.row, view.column)
    }
}

/// What an order makes of the memory and the frame: the memory it leaves and
/// the intent it gives, none once the order has ended.
pub type Driven = (PlayerOrders, Option<Intent>);

/// The order is over.
pub open spec fn ended() -> Driven {
    (PlayerOrders::idle(), None)
}

/// Drive one committed step.
pub open spec fn driven(orders: PlayerOrders, s: Steering, step: Dir) -> Driven {
    let (after, dir) = committing(orders, s, step);
    (after, Some(driving(dir)))
}

/// Driving to a point: over on arrival, and when there is no route.
pub open spec fn move_driven(orders: PlayerOrders, s: Steering, v: MoveView) -> Driven {
    if v.same_cell || v.distance.at_most(v.arrive) {
        ended()
    } else {
        match v.step {
            Some(step) => driven(orders, s, step),
            None => ended(),
        }
    }
}

/// Driving onto a pickup: over once it is gone, and when it is walled off.
pub open spec fn collect_driven(orders: PlayerOrders, s: Steering, v: CollectView) -> Driven {
    if !v.present {
        ended()
    } else {
        match v.step {
            Some(step) => driven(orders, s, step),
            None => if v.same_cell {
                (orders, Some(driving(v.straight)))
            } else {
                ended()
            },
        }
    }
}

/// Closing on a target that offers no firing line.
pub open spec fn closing(orders: PlayerOrders, s: Steering, v: EngageView) -> Driven {
    match v.close {
        Some(step) => driven(orders, s, step),
        None => (orders, Some(driving(v.straight))),
    }
}

/// An engagement: close while out of range; on the line and with a clear
/// sight hold, settle and fire; off it, sidestep onto a line the tank can
/// stand on. Over once the target is gone, when no route closes the range,
/// and when the tank has for too long neither lined up better nor gone
/// anywhere.
pub open spec fn engage_driven(orders: PlayerOrders, s: Steering, v: EngageView) -> Driven {
    if !v.present {
        ended()
    } else if v.attack_range.below(v.range) {
        let orders = PlayerOrders { aim_settle: Scalar::zero(), aligned: false, ..orders };
        match v.approach {
            Some(step) => driven(orders, s, step),
            None => ended(),
        }
    } else {
        let aligned = v.lined_up(orders.aligned);
        if aligned && v.sees {
            let fires = v.settle_needed.at_most(v.settle_next) && v.lands;
            (
                PlayerOrders {
                    aligned,
                    give_up: Scalar::zero(),
                    give_up_travel: Scalar::zero(),
                    best_off_axis: Scalar { bits: LARGEST },
                    aim_settle: if fires {
                        Scalar::zero()
                    } else {
                        v.settle_next
                    },
                    ..orders
                },
                Some(Intent { fire: fires, ..facing(v.dir) }),
            )
        } else {
            let best = if v.off_axis.below(v.bar) {
                v.off_axis
            } else {
                orders.best_off_axis
            };
            let going = v.off_axis.at_most(best) || v.give_up_px.at_most(v.travel_next);
            if !going && v.give_up_seconds.at_most(v.give_up_next) {
                ended()
            } else {
                let orders = PlayerOrders {
                    aligned,
                    aim_settle: Scalar::zero(),
                    best_off_axis: best,
                    give_up_travel: if going {
                        Scalar::zero()
                    } else {
                        v.travel_next
                    },
                    give_up: if going {
                        Scalar::zero()
                    } else {
                        v.give_up_next
                    },
                    ..orders
                };
                match v.stand() {
                    Some(spot) => if spot.same_cell {
                        if v.off_axis.at_most(v.half_window) || s.walled(spot.creep) {
                            (orders, Some(facing(v.dir)))
                        } else {
                            (orders, Some(driving(spot.creep)))
                        }
                    } else {
                        match spot.step {
                            Some(step) => driven(orders, s, step),
                            None => closing(orders, s, v),
                        }
                    },
                    None => closing(orders, s, v),
                }
            }
        }
    }
}

impl PlayerOrders {
    fn drive(&mut self, s: &Steering, step: Dir) -> (intent: Option<Intent>)
        ensures
            (*final(self), intent) == driven(*old(self), *s, step),
    {
        let dir: Dir = self.commit_dir(s, step);
        Some(drive_intent(dir))
    }

    fn end(&mut self) -> (intent: Option<Intent>)
        ensures
            (*final(self), intent) == ended(),
    {
        self.clear();
        None
    }

    /// Drive to a point and stop.
    pub fn drive_move(&mut self, s: &Steering, v: &MoveView) -> (intent: Option<Intent>)
        ensures
            (*final(self), intent) == move_driven(*old(self), *s, *v),
    {
        if v.same_cell || v.distance.le(v.arrive) {
            return self.end();
        }
        match v.step {
            Some(step) => self.drive(s, step),
            None => self.end(),
        }
    }

    /// Drive onto a pickup.
    pub fn drive_collect(&mut self, s: &Steering, v: &CollectView) -> (intent: Option<Intent>)
        ensures
            (*final(self), intent) == collect_driven(*old(self), *s, *v),
    {
        if !v.present {
            return self.end();
        }
        match v.step {
            Some(step) => self.drive(s, step),
            None => if v.same_cell {
                Some(drive_intent(v.straight))
            } else {
                self.end()
            },
        }
    }

    fn close_on(&mut self, s: &Steering, v: &EngageView) -> (intent: Option<Intent>)
        ensures
            (*final(self), intent) == closing(*old(self), *s, *v),
    {
        match v.close {
            Some(step) => self.drive(s, step),
            None => Some(drive_intent(v.straight)),
        }
    }

    /// Close on something and shoot it until it is gone.
    pub fn drive_engage(&mut self, s: &Steering, v: &EngageView) -> (intent: Option<Intent>)
        ensures
            (*final(self), intent) == engage_driven(*old(self), *s, *v),
    {
        if !v.present {
            return self.end();
        }
        if v.attack_range.lt(v.range) {
            self.aim_settle = Scalar::zero();
            self.aligned = false;
            return match v.approach {
                Some(step) => self.drive(s, step),
                None => self.end(),
            };
        }
        let bound: Scalar = if self.aligned {
            v.lose
        } else {
            v.window
        };
        let aligned: bool = v.forward.positive() && v.off_axis.le(bound);
        self.aligned = aligned;
        if aligned && v.sees {
            self.give_up = Scalar::zero();
            self.give_up_travel = Scalar::zero();
            self.best_off_axis = Scalar { bits: LARGEST };
            self.aim_settle = v.settle_next;
            let mut intent: Intent = face_intent(v.dir);
            if v.settle_needed.le(self.aim_settle) && v.lands {
                // A held trigger fires once and never again, so the assist
                // pulses it; settling anew is the cadence.
                intent.fire = true;
                self.aim_settle = Scalar::zero();
            }
            return Some(intent);
        }
        self.aim_settle = Scalar::zero();
        self.give_up_travel = v.travel_next;
        if v.off_axis.lt(v.bar) {
            self.best_off_axis = v.off_axis;
        }
        if v.off_axis.le(self.best_off_axis) || v.give_up_px.le(self.give_up_travel) {
            self.give_up = Scalar::zero();
            self.give_up_travel = Scalar::zero();
        } else {
            self.give_up = v.give_up_next;
            if v.give_up_seconds.le(self.give_up) {
                return self.end();
            }
        }
        let (first, second) = firing_spots(v);
        let stand: Option<Spot> = if first.standable {
            Some(first)
        } else if second.standable {
            Some(second)
        } else {
            None
        };
        match stand {
            Some(spot) => if spot.same_cell {
                if v.off_axis.le(v.half_window) || Self::is_walled(s, spot.creep) {
                    Some(face_intent(v.dir))
                } else {
                    Some(drive_intent(spot.creep))
                }
            } else {
                match spot.step {
                    Some(step) => self.drive(s, step),
                    None => self.close_on(s, v),
                }
            },
            None => self.close_on(s, v),
        }
    }
}

/// What the standing order needs to know, by what it is.
#[derive(Clone, Copy, Debug, PartialEq, Eq, Structural)]
pub enum OrderView {
    Move(MoveView),
    Engage(EngageView),
    Collect(CollectView),
}

/// The player's own tank.
#[derive(Clone, Copy, Debug, PartialEq, Eq, Structural)]
pub struct Me {
    pub position: Point,
    pub wreck: bool,
    /// How far it is from where it was last frame.
    pub moved: Scalar,
}

/// The view is of the order.
pub open spec fn fits(order: Order, view: OrderView) -> bool {
    match order {
        Order::Move { .. } => view is Move,
        Order::Engage { .. } => view is Engage,
        Order::Collect { .. } => view is Collect,
    }
}

/// What the standing order comes to this frame: nothing without a tank or an
/// order, over for a wreck, and otherwise what its kind of drive makes of it,
/// from the distance the tank has gone since last frame.
pub open spec fn order_driven(
    orders: PlayerOrders,
    me: Option<Me>,
    s: Steering,
    view: OrderView,
) -> Driven {
    match (me, orders.current) {
        (Some(me), Some(_)) => if me.wreck {
            ended()
        } else {
            let orders = PlayerOrders {
                moved: if orders.last_pos is Some {
                    me.moved
                } else {
                    Scalar::zero()
                },
                last_pos: Some(me.position),
                ..orders
            };
            match view {
                OrderView::Move(v) => move_driven(orders, s, v),
                OrderView::Engage(v) => engage_driven(orders, s, v),
                OrderView::Collect(v) => collect_driven(orders, s, v),
            }
        },
        _ => (orders, None),
    }
}

impl PlayerOrders {
    /// The intent the standing order wants this frame, or none when there is
    /// no order or it just finished.
    pub fn order_intent(&mut self, me: Option<Me>, s: &Steering, view: &OrderView) -> (intent: Option<
        Intent,
    >)
        requires
            old(self).current matches Some(order) ==> fits(order, *view),
        ensures
            (*final(self), intent) == order_driven(*old(self), me, *s, *view),
    {
        let me: Me = match me {
            Some(me) => me,
            None => return None,
        };
        if self.current.is_none() {
            return None;
        }
        if me.wreck {
            return self.end();
        }
        self.moved = if self.last_pos.is_some() {
            me.moved
        } else {
            Scalar::zero()
        };
        self.last_pos = Some(me.position);
        match view {
            OrderView::Move(v) => self.drive_move(s, v),
            OrderView::Engage(v) => self.drive_engage(s, v),
            OrderView::Collect(v) => self.drive_collect(s, v),
        }
    }
}

/// An order that gives no intent has ended and left no memory behind.
pub proof fn an_order_without_an_intent_is_over(
    orders: PlayerOrders,
    me: Me,
    s: Steering,
    view: OrderView,
)
    requires
        orders.current matches Some(order) && fits(order, view),
    ensures
        order_driven(orders, Some(me), s, view).1 is None ==> order_driven(
            orders,
            Some(me),
            s,
            view,
        ).0 == PlayerOrders::idle(),
        order_driven(orders, Some(me), s, view).1 is Some ==> order_driven(
            orders,
            Some(me),
            s,
            view,
        ).0.current == orders.current,
{
}

/// The assist pulls the trigger only on the line, in sight, settled, and with
/// a shot that lands; and having fired it starts settling anew, so it never
/// fires on two frames without settling in between.
pub proof fn an_order_fires_only_a_settled_shot_that_lands(
    orders: PlayerOrders,
    s: Steering,
    v: EngageView,
)
    ensures
        engage_driven(orders, s, v).1 matches Some(intent) && intent.fire ==> {
            &&& v.present
            &&& !v.attack_range.below(v.range)
            &&& v.lined_up(orders.aligned)
            &&& v.sees
            &&& v.lands
            &&& v.settle_needed.at_most(v.settle_next)
            &&& engage_driven(orders, s, v).0.aim_settle == Scalar::zero()
            &&& engage_driven(orders, s, v).1->0.move_dir is None
        },
{
}

/// Where an order's thing is and how far it reaches, for as long as it is
/// there.
#[derive(Clone, Copy, Debug, PartialEq, Eq, Structural)]
pub struct Marked {
    pub at: Point,
    /// Half its footprint on the screen.
    pub half: Scalar,
}

/// The standing order as plain values.
#[derive(Clone, Copy, Debug, PartialEq)]
pub struct OrderReadout {
    pub kind: &'static str,
    pub target: Option<OrderTarget>,
    pub at: Point,
    /// How wide a bracket frames it; none for a move, which marks a point.
    pub half: Scalar,
}

/// What a thing that is gone reads as.
pub open spec fn nowhere() -> Marked {
    Marked { at: Point { x: Scalar::zero(), y: Scalar::zero() }, half: Scalar::zero() }
}

/// An order in a word.
pub open spec fn order_word(order: Order) -> Seq<char> {
    match order {
        Order::Move { .. } => "move"@,
        Order::Engage { .. } => "engage"@,
        Order::Collect { .. } => "collect"@,
    }
}

impl PlayerOrders {
    /// The standing order for a readout. `marked` is the thing it is about,
    /// none when that is gone.
    pub fn player_order(&self, marked: Option<Marked>) -> (r: Option<OrderReadout>)
        ensures
            r is Some == self.current is Some,
            self.current matches Some(order) ==> {
                let out = r->0;
                let seen = match marked {
                    Some(m) => m,
                    None => nowhere(),
                };
                &&& out.kind@ == order_word(order)
                &&& match order {
                    Order::Move { to } => out.target is None && out.at == to && out.half
                        == Scalar::zero(),
                    Order::Engage { kind, .. } => out.target == Some(kind) && out.at == seen.at
                        && out.half == seen.half,
                    Order::Collect { .. } => out.target == Some(OrderTarget::Pickup) && out.at
                        == seen.at && out.half == seen.half,
                }
            },
    {
        let zero: Scalar = Scalar::zero();
        let seen: Marked = match marked {
            Some(m) => m,
            None => Marked { at: Point { x: zero, y: zero }, half: zero },
        };
        match self.current {
            None => None,
            Some(Order::Move { to }) => Some(
                OrderReadout { kind: "move", target: None, at: to, half: zero },
            ),
            Some(Order::Engage { kind, .. }) => Some(
                OrderReadout {
                    kind: "engage",
                    target: Some(kind),
                    at: seen.at,
                    half: seen.half,
                },
            ),
            Some(Order::Collect { .. }) => Some(
                OrderReadout {
                    kind: "collect",
                    target: Some(OrderTarget::Pickup),
                    at: seen.at,
                    half: seen.half,
                },
            ),
        }
    }

    /// Where the standing order leads, if it still leads anywhere.
    pub open spec fn goal(&self, marked: Option<Point>) -> Option<Point> {
        match self.current {
            None => None,
            Some(Order::Move { to }) => Some(to),
            Some(_) => marked,
        }
    }

    fn goal_of(&self, marked: Option<Point>) -> (r: Option<Point>)
        ensures
            r == self.goal(marked),
    {
        match self.current {
            None => None,
            Some(Order::Move { to }) => Some(to),
            Some(_) => marked,
        }
    }
}

/// A route is what one step after another gives.
pub open spec fn walks<F: Fn(Point, Point) -> Option<Point>>(
    next: F,
    start: Point,
    goal: Point,
    route: Seq<Point>,
) -> bool {
    forall|i: int|
        #![trigger route[i]]
        0 <= i < route.len() ==> call_ensures(
            next,
            (
                if i == 0 {
                    start
                } else {
                    route[i - 1]
                },
                goal,
            ),
            Some(route[i]),
        )
}

impl PlayerOrders {
    /// The route the standing order is walking: the next step, and the next
    /// from there, until there is none or `cap` have been taken. `marked` is
    /// where the thing it is about stands, none when that is gone.
    pub fn order_route<F: Fn(Point, Point) -> Option<Point>>(
        &self,
        marked: Option<Point>,
        start: Option<Point>,
        cap: usize,
        next: F,
    ) -> (route: Vec<Point>)
        requires
            forall|at: Point, goal: Point| call_requires(next, (at, goal)),
        ensures
            route@.len() <= cap,
            self.goal(marked) is None || start is None ==> route@.len() == 0,
            self.goal(marked) matches Some(goal) ==> start matches Some(from) ==> walks(
                next,
                from,
                goal,
                route@,
            ) && (route@.len() < cap ==> call_ensures(
                next,
                (
                    if route@.len() == 0 {
                        from
                    } else {
                        route@.last()
                    },
                    goal,
                ),
                None::<Point>,
            )),
    {
        let mut route: Vec<Point> = Vec::new();
        let goal: Point = match self.goal_of(marked) {
            Some(goal) => goal,
            None => return route,
        };
        let from: Point = match start {
            Some(from) => from,
            None => return route,
        };
        let mut at: Point = from;
        while route.len() < cap
            invariant
                forall|at: Point, goal: Point| call_requires(next, (at, goal)),
                route@.len() <= cap,
                at == (if route@.len() == 0 {
                    from
                } else {
                    route@.last()
                }),
                walks(next, from, goal, route@),
                self.goal(marked) == Some(goal),
                start == Some(from),
            decreases cap - route@.len(),
        {
            let ghost before = route@;
            match next(at, goal) {
                Some(step) => {
                    route.push(step);
                    assert forall|i: int| #![trigger route@[i]] 0 <= i < route@.len() implies call_ensures(
                        next,
                        (
                            if i == 0 {
                                from
                            } else {
                                route@[i - 1]
                            },
                            goal,
                        ),
                        Some(route@[i]),
                    ) by {
                        if i < before.len() {
                            assert(before[i] == route@[i]);
                        }
                    }
                    at = step;
                },
                None => {
                    return route;
                },
            }
        }
        route
    }
}

/// A tap takes the first thing under it that can be picked, and nothing only
/// when there is none.
pub proof fn a_tap_takes_the_first_thing_under_it(things: Seq<Tapped>)
    ensures
        match first_under(things) {
            Some(e) => exists|i: int|
                {
                    &&& 0 <= i < things.len()
                    &&& (#[trigger] things[i]).entity == e && things[i].pickable && things[i].under
                    &&& forall|j: int|
                        0 <= j < i ==> !((#[trigger] things[j]).pickable && things[j].under)
                },
            None => forall|i: int|
                0 <= i < things.len() ==> !((#[trigger] things[i]).pickable && things[i].under),
        },
    decreases things.len(),
{
    if things.len() > 0 && !(things[0].pickable && things[0].under) {
        let rest = things.skip(1);
        a_tap_takes_the_first_thing_under_it(rest);
        assert forall|j: int| 0 < j < things.len() implies #[trigger] things[j] == rest[j - 1] by {}
        if first_under(rest) is Some {
            let e = first_under(rest)->0;
            let i = choose|i: int|
                {
                    &&& 0 <= i < rest.len()
                    &&& (#[trigger] rest[i]).entity == e && rest[i].pickable && rest[i].under
                    &&& forall|j: int|
                        0 <= j < i ==> !((#[trigger] rest[j]).pickable && rest[j].under)
                };
            assert(things[i + 1] == rest[i]);
            assert forall|j: int| 0 <= j < i + 1 implies !((#[trigger] things[j]).pickable
                && things[j].under) by {
                if j > 0 {
                    assert(things[j] == rest[j - 1]);
                }
            }
        }
    } else if things.len() > 0 {
        assert(things[0].entity == first_under(things)->0);
    }
}

/// A tap on a hull that can be shot at is an order to engage a tank, whatever
/// else lies under it; one on the enemy frog to engage the frog, one on a pickup
/// to collect it, one on a tile to engage the tile, each only with nothing of
/// the earlier kinds under it; a tap on nothing drives to the closest point in
/// reach, and without one orders nothing.
pub proof fn a_tap_orders_by_what_is_under_it(tap: &Tap)
    ensures
        ({
            let hull = exists|i: int|
                0 <= i < tap.tanks@.len() && (#[trigger] tap.tanks@[i]).pickable
                    && tap.tanks@[i].under;
            let frog = tap.enemy_frog is Some && (tap.enemy_frog->0).pickable && (
            tap.enemy_frog->0).under;
            let pickup = exists|i: int|
                0 <= i < tap.pickups@.len() && (#[trigger] tap.pickups@[i]).pickable
                    && tap.pickups@[i].under;
            let tile = exists|i: int|
                0 <= i < tap.tiles@.len() && (#[trigger] tap.tiles@[i]).pickable
                    && tap.tiles@[i].under;
            let order = tap_order(tap);
            &&& hull ==> order is Some && order->0 is Engage && order->0->kind is Tank
            &&& !hull && frog ==> order == Some(
                Order::Engage { target: (tap.enemy_frog->0).entity, kind: OrderTarget::Frog },
            )
            &&& !hull && !frog && pickup ==> order is Some && order->0 is Collect
            &&& !hull && !frog && !pickup && tile ==> order is Some && order->0 is Engage
                && order->0->kind is Tile
            &&& !hull && !frog && !pickup && !tile ==> (match tap.reachable {
                Some(to) => order == Some(Order::Move { to }),
                None => order is None,
            })
        }),
{
    a_tap_takes_the_first_thing_under_it(tap.tanks@);
    a_tap_takes_the_first_thing_under_it(tap.pickups@);
    a_tap_takes_the_first_thing_under_it(tap.tiles@);
}

/// A tank that has gone nowhere for long enough turns off the heading that
/// fails it: across it the preferred way if nothing is in that way, else across
/// it the other way, else straight back, and only with all of these walled off
/// along the heading it wanted.
pub proof fn a_stuck_tank_turns_off_its_heading(orders: PlayerOrders, s: Steering, fresh: Dir)
    requires
        orders.moved.below(s.stuck_move),
        s.stuck_escape.at_most(s.stuck_next),
    ensures
        ({
            let (after, dir) = committing(orders, s, fresh);
            let failing = if orders.committed is Some {
                orders.committed->0
            } else {
                fresh
            };
            let at = (match failing {
                Dir::Up => 0int,
                Dir::Down => 1int,
                Dir::Left => 2int,
                Dir::Right => 3int,
            });
            let back = (match failing {
                Dir::Up => Dir::Down,
                Dir::Down => Dir::Up,
                Dir::Left => Dir::Right,
                Dir::Right => Dir::Left,
            });
            let open = |d: Dir|
                !s.blocked@[match d {
                    Dir::Up => 0int,
                    Dir::Down => 1int,
                    Dir::Left => 2int,
                    Dir::Right => 3int,
                }];
            &&& after.committed == Some(dir)
            &&& after.stuck_timer == Scalar::zero() && after.dir_hold == Scalar::zero()
            &&& open(s.turn_first@[at]) ==> dir == s.turn_first@[at]
            &&& !open(s.turn_first@[at]) && open(s.turn_second@[at]) ==> dir == s.turn_second@[at]
            &&& !open(s.turn_first@[at]) && !open(s.turn_second@[at]) && open(back) ==> dir == back
            &&& !open(s.turn_first@[at]) && !open(s.turn_second@[at]) && !open(back) ==> dir
                == fresh
        }),
{
}

/// A tank that is getting on keeps a held heading for a beat as long as nothing
/// is in its way, and otherwise takes the one it wants; its stuck clock runs
/// only while it stands still.
pub proof fn a_held_heading_is_kept_for_a_beat(orders: PlayerOrders, s: Steering, fresh: Dir)
    requires
        !orders.moved.below(s.stuck_move) || !s.stuck_escape.at_most(s.stuck_next),
        !s.stuck_escape.at_most(Scalar::zero()),
    ensures
        ({
            let (after, dir) = committing(orders, s, fresh);
            let held = orders.committed;
            let wall = |d: Dir|
                s.blocked@[match d {
                    Dir::Up => 0int,
                    Dir::Down => 1int,
                    Dir::Left => 2int,
                    Dir::Right => 3int,
                }];
            &&& dir == fresh || Some(dir) == held
            &&& after.committed == Some(dir)
            &&& held is Some && s.hold_next.below(s.hold_limit) && !wall(held->0) ==> dir == held->0
                && after.dir_hold == s.hold_next
            &&& held is None ==> dir == fresh && after.dir_hold == Scalar::zero()
            &&& held is Some && (!s.hold_next.below(s.hold_limit) || wall(held->0)) ==> dir == fresh
            &&& held is Some && held->0 != fresh && dir == fresh ==> after.dir_hold
                == Scalar::zero()
            &&& orders.moved.below(s.stuck_move) ==> after.stuck_timer == s.stuck_next
            &&& !orders.moved.below(s.stuck_move) ==> after.stuck_timer == Scalar::zero()
        }),
{
}

/// A move is over on arrival and when no route leads there; until that it
/// drives, and neither faces nor fires.
pub proof fn a_move_ends_on_arrival(orders: PlayerOrders, s: Steering, v: MoveView)
    ensures
        ({
            let (after, intent) = move_driven(orders, s, v);
            let there = v.same_cell || v.distance.at_most(v.arrive);
            &&& intent is None <==> there || v.step is None
            &&& intent is None ==> after.current is None && after == PlayerOrders::idle()
            &&& intent matches Some(i) ==> i.move_dir is Some && !i.fire && i.face is None
                && after.current == orders.current && after.committed == i.move_dir
        }),
{
}

/// A collection is over when the pickup is gone, and when it can neither be
/// reached nor is in the tank's own cell; in that cell the tank drives straight
/// at it.
pub proof fn a_collection_ends_when_the_pickup_is_gone(
    orders: PlayerOrders,
    s: Steering,
    v: CollectView,
)
    ensures
        ({
            let (after, intent) = collect_driven(orders, s, v);
            &&& intent is None <==> !v.present || (v.step is None && !v.same_cell)
            &&& intent is None ==> after.current is None
            &&& intent matches Some(i) ==> i.move_dir is Some && !i.fire && after.current
                == orders.current
            &&& v.present && v.step is None && v.same_cell ==> (intent->0).move_dir == Some(
                v.straight,
            ) && after == orders
        }),
{
}

/// A target that moves briskly is shot at along the line it travels, a still
/// one along the line with the shorter sidestep; the spot on that line is taken
/// if a tank can stand on it, else the other one if it can.
pub proof fn the_line_is_along_the_way_the_target_goes(v: EngageView)
    ensures
        ({
            let brisk = Scalar { bits: 0x4140_0000 };
            let moving = brisk.below(v.speed_x) || brisk.below(v.speed_y);
            let upright = if moving {
                v.speed_x.below(v.speed_y)
            } else {
                v.apart_x.below(v.apart_y)
            };
            let (first, second) = if upright {
                (v.column, v.row)
            } else {
                (v.row, v.column)
            };
            &&& v.vertical() == upright
            &&& first.standable ==> v.stand() == Some(first)
            &&& !first.standable && second.standable ==> v.stand() == Some(second)
            &&& !first.standable && !second.standable ==> v.stand() is None
        }),
{
}

/// A target is lined up when it lies ahead and within the window of the line;
/// once lined up, only a wider miss loses it.
pub proof fn losing_the_line_takes_a_wider_miss(v: EngageView, before: bool)
    ensures
        v.lined_up(before) <==> Scalar::zero().below(v.forward) && (before && v.off_axis.at_most(
            v.lose,
        ) || !before && v.off_axis.at_most(v.window)),
        v.window.at_most(v.lose) && v.lined_up(false) ==> v.lined_up(true),
{
}

/// An engagement out of range closes on the target while a route leads there
/// and is over when none does; in range, on the line and with the target in
/// sight the tank stands, faces it, and fires once it has settled and the shot
/// would land.
pub proof fn an_engagement_closes_and_then_fires(orders: PlayerOrders, s: Steering, v: EngageView)
    ensures
        ({
            let (after, intent) = engage_driven(orders, s, v);
            let far = v.attack_range.below(v.range);
            let lined = Scalar::zero().below(v.forward) && (orders.aligned && v.off_axis.at_most(
                v.lose,
            ) || !orders.aligned && v.off_axis.at_most(v.window));
            &&& !v.present ==> intent is None && after.current is None
            &&& v.present && far ==> {
                &&& intent is None <==> v.approach is None
                &&& intent matches Some(i) ==> i.move_dir is Some && !i.fire && !after.aligned
                    && after.aim_settle == Scalar::zero() && after.current == orders.current
            }
            &&& v.present && !far && lined && v.sees ==> {
                let fires = v.settle_needed.at_most(v.settle_next) && v.lands;
                &&& intent is Some && (intent->0).move_dir is None && (intent->0).face == Some(
                    v.dir,
                )
                &&& (intent->0).fire == fires
                &&& after.aligned && after.current == orders.current
                &&& fires ==> after.aim_settle == Scalar::zero()
                &&& !fires ==> after.aim_settle == v.settle_next
                &&& after.give_up == Scalar::zero() && after.give_up_travel == Scalar::zero()
            }
            &&& v.present && !far && !(lined && v.sees) ==> {
                &&& intent matches Some(i) ==> !i.fire && after.aim_settle == Scalar::zero()
                    && after.aligned == lined && after.current == orders.current
                &&& intent is None <==> !v.off_axis.at_most(
                    if v.off_axis.below(v.bar) {
                        v.off_axis
                    } else {
                        orders.best_off_axis
                    },
                ) && !v.give_up_px.at_most(v.travel_next) && v.give_up_seconds.at_most(
                    v.give_up_next,
                )
            }
        }),
{
}

/// Off the line, the tank goes for the spot it would shoot from: it holds there
/// once it is near enough to the line or something is in the way, creeps while
/// it is not, and takes the next step of the way there from further off.
pub proof fn off_the_line_the_tank_makes_for_its_spot(
    orders: PlayerOrders,
    s: Steering,
    v: EngageView,
    spot: Spot,
)
    requires
        v.present,
        !v.attack_range.below(v.range),
        !(v.lined_up(orders.aligned) && v.sees),
        v.stand() == Some(spot),
        engage_driven(orders, s, v).1 is Some,
    ensures
        ({
            let intent = engage_driven(orders, s, v).1->0;
            let wall = s.blocked@[match spot.creep {
                Dir::Up => 0int,
                Dir::Down => 1int,
                Dir::Left => 2int,
                Dir::Right => 3int,
            }];
            &&& spot.same_cell && (v.off_axis.at_most(v.half_window) || wall) ==> intent.move_dir
                is None && intent.face == Some(v.dir)
            &&& spot.same_cell && !v.off_axis.at_most(v.half_window) && !wall ==> intent.move_dir
                == Some(spot.creep)
            &&& !spot.same_cell ==> intent.move_dir is Some
            &&& !spot.same_cell && spot.step is None && v.close is None ==> intent.move_dir == Some(
                v.straight,
            )
        }),
{
}

/// An order of a wreck is over, one without a tank stands, and how far the tank
/// got counts only from its second frame on.
pub proof fn an_order_is_over_with_its_tank(
    orders: PlayerOrders,
    me: Me,
    s: Steering,
    view: OrderView,
)
    ensures
        order_driven(orders, None, s, view) == (orders, None::<Intent>),
        orders.current is None ==> order_driven(orders, Some(me), s, view) == (
            orders,
            None::<Intent>,
        ),
        orders.current is Some && me.wreck ==> order_driven(orders, Some(me), s, view).0.current
            is None && order_driven(orders, Some(me), s, view).1 is None,
        orders.current is Some && !me.wreck && order_driven(orders, Some(me), s, view).1 is Some
            ==> {
            let after = order_driven(orders, Some(me), s, view).0;
            &&& after.last_pos == Some(me.position)
            &&& orders.last_pos is Some ==> after.moved == me.moved
            &&& orders.last_pos is None ==> after.moved == Scalar::zero()
        },
{
}

} // verus!
