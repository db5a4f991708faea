//! Enemy command and control: one commander that sees every enemy's intent
//! for the frame before any of them moves, and may ease a tank off the
//! throttle, hold it, turn it, or keep it from firing.
//!
//! The commander sees plain values and never a random number: every tie is
//! broken by round slot. It speaks [`Intent`] and nothing else.

use std::collections::BTreeMap;
use vstd::prelude::*;

use crate::comms::{claims_held, lanes_left, Blackboard, Order, Unit};
use crate::kinds::Intent;
use crate::ranking::{ranked, sort_ranked, Ranked};
use crate::scalar::Scalar;

verus! {

broadcast use vstd::std_specs::btree::group_btree_axioms;

/// One tank as the commander sees it: what it is, how fast it goes, and what
/// it has just decided to do.
#[derive(Clone, Copy, Debug, PartialEq, Eq, Structural)]
pub struct UnitView {
    pub unit: Unit,
    /// The sort key and the final tie-break everywhere in this module.
    pub slot: usize,
    /// The body's real speed in whole buckets, so that a comparison flips
    /// only on a real difference.
    pub pace: i32,
    /// How long this tank has been giving way, as the clock reads after this
    /// frame's time has passed. Read only while it is giving way.
    pub yielded: Scalar,
    /// Still a solid obstacle, but not going anywhere and past all orders.
    pub wreck: bool,
    /// The engagement-ring slot's rank, if this tank holds one: 0 is the
    /// firing line, 1 the reserve.
    pub ring_rank: Option<u8>,
}

/// How two tanks stand to each other.
#[derive(Clone, Copy, Debug, PartialEq, Eq, Structural)]
pub struct Approach {
    /// Distance between their centres.
    pub gap: Scalar,
    /// The distance at which their hulls touch, margin included.
    pub reach: Scalar,
    /// Speed at which the gap shrinks; negative while they drift apart.
    pub closing: Scalar,
    /// Seconds until the gap is down to `reach` at that speed.
    pub wait: Scalar,
}

/// What the commander needs about this frame.
pub struct CommandCtx {
    /// Whether there is a commander at all.
    pub enabled: bool,
    /// Pairs further apart than this are left alone.
    pub watch: Scalar,
    /// Pairs closing slower than this are left alone.
    pub min_closing: Scalar,
    /// How far ahead a contact counts.
    pub horizon: Scalar,
    /// How long a tank gives way before it drives on regardless.
    pub yield_hold: Scalar,
    /// How long a tank eases off before it is stopped.
    pub escalate: Scalar,
    /// How far a tank giving way eases off.
    pub ease: Scalar,
    /// How the tanks at two positions of the unit list stand to each other,
    /// read where the first position is below the second.
    pub approaches: Vec<Vec<Approach>>,
    /// The blackboard's lane clocks after this frame's time has passed.
    pub lane_ttls: Vec<Scalar>,
    /// The blackboard's claim clocks after this frame's time has passed.
    pub claim_helds: Vec<Scalar>,
}

/// Why a conflict produced the mitigation it did, or produced none.
#[derive(Clone, Copy, Debug, PartialEq, Eq, Structural)]
pub struct Skipped {
    /// The tank that should give way had already been given an order.
    pub already_ordered: u64,
    /// Every sidestep cardinal was walled, blocked, or into another conflict.
    pub no_free_lane: u64,
    /// Deliberately let through: the pair holds a matching ram order.
    pub authorised: u64,
    /// This unit held right of way; the other one gave.
    pub had_right_of_way: u64,
}

impl Skipped {
    /// Nothing skipped.
    #[verifier::allow_in_spec]
    pub fn none() -> Skipped
        returns
            (Skipped { already_ordered: 0, no_free_lane: 0, authorised: 0, had_right_of_way: 0 }),
    {
        Skipped { already_ordered: 0, no_free_lane: 0, authorised: 0, had_right_of_way: 0 }
    }
}

/// Two tanks about to touch: when, and who.
#[derive(Clone, Copy, Debug, PartialEq, Eq, Structural)]
pub struct Conflict {
    pub ttc: Scalar,
    pub a: usize,
    pub b: usize,
}

impl Ranked for Conflict {
    /// Soonest first, slot order breaking ties.
    open spec fn ahead(self, other: Conflict) -> bool {
        let (t, u) = (self.ttc.total_rank(), other.ttc.total_rank());
        t < u || (t == u && (self.a < other.a || (self.a == other.a && self.b < other.b)))
    }

    proof fn ranks(a: Conflict, b: Conflict, c: Conflict) {
    }

    fn is_ahead(&self, other: &Conflict) -> (r: bool) {
        let t: i64 = self.ttc.total_key();
        let u: i64 = other.ttc.total_key();
        t < u || (t == u && (self.a < other.a || (self.a == other.a && self.b < other.b)))
    }
}

/// The conflict between the tanks at two positions, if there is one: both
/// enemies, neither a wreck, near enough, closing fast enough, and touching
/// now or within the horizon.
pub open spec fn conflict(units: Seq<UnitView>, ctx: &CommandCtx, i: int, j: int) -> Option<
    Conflict,
> {
    let (a, b) = (units[i], units[j]);
    let way = ctx.approaches@[i]@[j];
    let ttc = if way.gap.at_most(way.reach) {
        Scalar::zero()
    } else {
        way.wait
    };
    if a.wreck || b.wreck || a.unit is Player || b.unit is Player || ctx.watch.below(way.gap)
        || way.closing.below(ctx.min_closing) || !ttc.at_most(ctx.horizon) {
        None
    } else {
        Some(Conflict { ttc, a: a.slot, b: b.slot })
    }
}

/// The conflicts of the tank at position `i` with those after it, up to
/// position `j`.
pub open spec fn conflicts_of(units: Seq<UnitView>, ctx: &CommandCtx, i: int, j: int) -> Seq<
    Conflict,
>
    decreases j - i,
{
    if j <= i + 1 {
        Seq::empty()
    } else {
        let before = conflicts_of(units, ctx, i, j - 1);
        match conflict(units, ctx, i, j - 1) {
            Some(c) => before.push(c),
            None => before,
        }
    }
}

/// The conflicts of the first `n` tanks with those after them.
pub open spec fn conflicts(units: Seq<UnitView>, ctx: &CommandCtx, n: int) -> Seq<Conflict>
    decreases n,
{
    if n <= 0 {
        Seq::empty()
    } else {
        conflicts(units, ctx, n - 1) + conflicts_of(units, ctx, n - 1, units.len() as int)
    }
}

/// The first unit in `slot`.
pub open spec fn unit_in(units: Seq<UnitView>, slot: usize) -> UnitView
    decreases units.len(),
{
    if units.len() <= 1 || units[0].slot == slot {
        units[0]
    } else {
        unit_in(units.skip(1), slot)
    }
}

/// Who each tank is giving way to, and for how long.
pub type Yielding = Map<usize, (usize, Scalar)>;

/// `slot` is giving way to `other`.
pub open spec fn yields_to(yielding: Yielding, slot: usize, other: usize) -> bool {
    yielding.contains_key(slot) && yielding[slot].0 == other
}

/// A tank's place in the ring, a tank without one behind both ranks.
pub open spec fn ring_place(u: UnitView) -> int {
    match u.ring_rank {
        Some(rank) => rank as int,
        None => 2,
    }
}

/// Whether `a` is the one that gives way to `b`. First difference wins:
/// whoever is already giving way keeps giving way, a player never gives way
/// to an enemy, the tank nearer the firing line keeps its lane, the faster
/// keeps going, the lower slot keeps going.
pub open spec fn gives_way_to(yielding: Yielding, a: UnitView, b: UnitView) -> bool {
    if yields_to(yielding, a.slot, b.slot) {
        true
    } else if yields_to(yielding, b.slot, a.slot) {
        false
    } else if a.unit is Player != b.unit is Player {
        a.unit !is Player
    } else if ring_place(a) != ring_place(b) {
        ring_place(a) > ring_place(b)
    } else if a.pace != b.pace {
        a.pace < b.pace
    } else {
        a.slot > b.slot
    }
}

/// The commander's working state over one frame's conflicts.
#[verifier::ext_equal]
pub struct Walk {
    pub yielding: Yielding,
    pub orders: Map<usize, Seq<Order>>,
    /// The tanks told to give way, in the order they were told.
    pub ordered: Seq<usize>,
    pub skipped: Skipped,
}

/// The orders standing for a slot.
pub open spec fn standing(orders: Map<usize, Seq<Order>>, slot: usize) -> Seq<Order> {
    if orders.contains_key(slot) {
        orders[slot]
    } else {
        Seq::empty()
    }
}

impl Walk {
    /// What one conflict does. One mitigation per tank per frame, a tank that
    /// has given way too long drives on, and one that has given way a while
    /// is stopped rather than eased.
    pub open spec fn step(self, units: Seq<UnitView>, ctx: &CommandCtx, c: Conflict) -> Walk {
        let (a, b) = (unit_in(units, c.a), unit_in(units, c.b));
        let yielder = if gives_way_to(self.yielding, a, b) {
            a
        } else {
            b
        };
        let other = if yielder.slot == c.a {
            c.b
        } else {
            c.a
        };
        let held = if yields_to(self.yielding, yielder.slot, other) {
            yielder.yielded
        } else {
            Scalar::zero()
        };
        if yielder.unit is Player {
            Walk {
                skipped: Skipped {
                    had_right_of_way: (self.skipped.had_right_of_way + 1) as u64,
                    ..self.skipped
                },
                ..self
            }
        } else if self.ordered.contains(yielder.slot) {
            Walk {
                skipped: Skipped {
                    already_ordered: (self.skipped.already_ordered + 1) as u64,
                    ..self.skipped
                },
                ..self
            }
        } else if ctx.yield_hold.below(held) {
            Walk { yielding: self.yielding.remove(yielder.slot), ..self }
        } else {
            let order = if ctx.escalate.at_most(held) {
                Order::Hold
            } else {
                Order::Slow { by: ctx.ease }
            };
            Walk {
                yielding: self.yielding.insert(yielder.slot, (other, held)),
                orders: self.orders.insert(
                    yielder.slot,
                    standing(self.orders, yielder.slot).push(order),
                ),
                ordered: self.ordered.push(yielder.slot),
                ..self
            }
        }
    }

    /// What the first `n` conflicts do.
    pub open spec fn steps(
        self,
        units: Seq<UnitView>,
        ctx: &CommandCtx,
        cs: Seq<Conflict>,
        n: int,
    ) -> Walk
        decreases n,
    {
        if n <= 0 {
            self
        } else {
            self.steps(units, ctx, cs, n - 1).step(units, ctx, cs[n - 1])
        }
    }
}

/// The commander. Holds the pack's shared knowledge and the memory that keeps
/// its decisions from oscillating.
pub struct Commander {
    board: Blackboard,
    enabled: bool,
    skipped: Skipped,
    /// This frame's orders, by recipient slot.
    orders: BTreeMap<usize, Vec<Order>>,
    /// Who each tank is giving way to, and for how long. Held across frames:
    /// deciding right of way from scratch every frame would flip it near any
    /// boundary.
    yielding: BTreeMap<usize, (usize, Scalar)>,
}

/// What the commander decided.
pub struct CommandReport<'a> {
    /// False when there was no commander, in which case nothing was ordered.
    pub enabled: bool,
    /// Orders issued this frame, by recipient slot.
    pub orders: &'a BTreeMap<usize, Vec<Order>>,
    pub skipped: Skipped,
    pub board: &'a Blackboard,
}

/// The orders by slot, as sequences.
pub open spec fn order_map(orders: Map<usize, Vec<Order>>) -> Map<usize, Seq<Order>> {
    Map::new(|slot: usize| orders.contains_key(slot), |slot: usize| orders[slot]@)
}

/// No two tanks are giving way to each other.
pub open spec fn no_standoff(yielding: Yielding) -> bool {
    forall|a: usize, b: usize|
        a != b && #[trigger] yields_to(yielding, a, b) ==> !yields_to(yielding, b, a)
}

impl Commander {
    /// This frame's orders, by recipient slot.
    pub closed spec fn issued(&self) -> Map<usize, Seq<Order>> {
        order_map(self.orders@)
    }

    /// Who gives way to whom.
    pub closed spec fn yields(&self) -> Yielding {
        self.yielding@
    }

    pub closed spec fn skips(&self) -> Skipped {
        self.skipped
    }

    pub closed spec fn on(&self) -> bool {
        self.enabled
    }

    pub closed spec fn known(&self) -> Blackboard {
        self.board
    }

    /// No pickup is claimed twice and no two tanks give way to each other.
    pub open spec fn wf(&self) -> bool {
        self.known().wf() && no_standoff(self.yields())
    }

    /// Knows nothing and has ordered nothing.
    pub open spec fn fresh(&self) -> bool {
        &&& self.known().blank()
        &&& self.issued() == Map::<usize, Seq<Order>>::empty()
        &&& self.yields() == Map::<usize, (usize, Scalar)>::empty()
        &&& self.skips() == Skipped::none()
        &&& !self.on()
    }

    /// The state a frame's conflicts are walked from: no orders yet.
    pub open spec fn start(&self) -> Walk {
        Walk {
            yielding: self.yields(),
            orders: Map::empty(),
            ordered: Seq::empty(),
            skipped: Skipped::none(),
        }
    }
}

impl Default for Commander {
    fn default() -> (c: Commander)
        ensures
            c.wf(),
            c.fresh(),
    {
        let c = Commander {
            board: Blackboard::default(),
            enabled: false,
            skipped: Skipped::none(),
            orders: BTreeMap::new(),
            yielding: BTreeMap::new(),
        };
        assert(c.issued() =~= Map::<usize, Seq<Order>>::empty());
        c
    }
}

/// The measurements cover a unit list: a row of approaches per unit.
pub open spec fn covers(ctx: &CommandCtx, n: int) -> bool {
    &&& ctx.approaches@.len() == n
    &&& forall|i: int| 0 <= i < n ==> (#[trigger] ctx.approaches@[i])@.len() == n
}

fn find_unit(units: &Vec<UnitView>, slot: usize) -> (u: UnitView)
    requires
        units@.len() > 0,
    ensures
        u == unit_in(units@, slot),
{
    let mut i: usize = 0;
    assert(units@.skip(0) =~= units@);
    while i < units.len() - 1 && units[i].slot != slot
        invariant
            i < units@.len(),
            unit_in(units@, slot) == unit_in(units@.skip(i as int), slot),
        decreases units@.len() - i,
    {
        assert(units@.skip(i as int).skip(1) =~= units@.skip(i + 1));
        i += 1;
    }
    units[i]
}

fn find_conflict(units: &Vec<UnitView>, ctx: &CommandCtx, i: usize, j: usize) -> (r: Option<
    Conflict,
>)
    requires
        i < j < units@.len(),
        covers(ctx, units@.len() as int),
    ensures
        r == conflict(units@, ctx, i as int, j as int),
{
    let a: UnitView = units[i];
    let b: UnitView = units[j];
    assert(ctx.approaches@[i as int]@.len() == units@.len());
    let way: Approach = ctx.approaches[i][j];
    let ttc: Scalar = if way.gap.le(way.reach) {
        Scalar::zero()
    } else {
        way.wait
    };
    if a.wreck || b.wreck || matches!(a.unit, Unit::Player(_)) || matches!(b.unit, Unit::Player(_))
        || ctx.watch.lt(way.gap) || way.closing.lt(ctx.min_closing) || !ttc.le(ctx.horizon) {
        None
    } else {
        Some(Conflict { ttc, a: a.slot, b: b.slot })
    }
}

fn find_conflicts(units: &Vec<UnitView>, ctx: &CommandCtx) -> (cs: Vec<Conflict>)
    requires
        covers(ctx, units@.len() as int),
    ensures
        cs@ == conflicts(units@, ctx, units@.len() as int),
{
    let mut cs: Vec<Conflict> = Vec::new();
    let mut i: usize = 0;
    while i < units.len()
        invariant
            i <= units@.len(),
            covers(ctx, units@.len() as int),
            cs@ == conflicts(units@, ctx, i as int),
        decreases units@.len() - i,
    {
        let mut j: usize = i + 1;
        let ghost before = cs@;
        assert(before + Seq::<Conflict>::empty() =~= before);
        while j < units.len()
            invariant
                i < j <= units@.len(),
                covers(ctx, units@.len() as int),
                cs@ == before + conflicts_of(units@, ctx, i as int, j as int),
            decreases units@.len() - j,
        {
            match find_conflict(units, ctx, i, j) {
                Some(c) => {
                    cs.push(c);
                },
                None => {},
            }
            j += 1;
            assert(cs@ =~= before + conflicts_of(units@, ctx, i as int, j as int));
        }
        i += 1;
    }
    cs
}

fn contains_slot(v: &Vec<usize>, slot: usize) -> (r: bool)
    ensures
        r == v@.contains(slot),
{
    let mut i: usize = 0;
    while i < v.len()
        invariant
            i <= v@.len(),
            forall|j: int| 0 <= j < i ==> v@[j] != slot,
        decreases v@.len() - i,
    {
        if v[i] == slot {
            return true;
        }
        i += 1;
    }
    false
}

impl Commander {
    /// Forget everything.
    pub fn clear(&mut self)
        ensures
            final(self).wf(),
            final(self).fresh(),
    {
        *self = Commander::default();
    }

    /// Whether `a` is the one that should give way to `b`.
    pub fn gives_way(&self, a: &UnitView, b: &UnitView) -> (r: bool)
        ensures
            r == gives_way_to(self.yields(), *a, *b),
            a.unit is Enemy && b.unit is Enemy && (self.yields().contains_key(a.slot)
                ==> self.yields()[a.slot].0 != b.slot) && (self.yields().contains_key(b.slot)
                ==> self.yields()[b.slot].0 != a.slot) ==> match (a.ring_rank, b.ring_rank) {
                (Some(p), Some(q)) => (p < q ==> !r) && (p > q ==> r),
                (Some(p), None) => (p < 2 ==> !r) && (p > 2 ==> r),
                (None, Some(q)) => (q < 2 ==> r) && (q > 2 ==> !r),
                (None, None) => true,
            },
    {
        if let Some(y) = self.yielding.get(&a.slot) {
            if y.0 == b.slot {
                return true;
            }
        }
        if let Some(y) = self.yielding.get(&b.slot) {
            if y.0 == a.slot {
                return false;
            }
        }
        let a_player: bool = matches!(a.unit, Unit::Player(_));
        let b_player: bool = matches!(b.unit, Unit::Player(_));
        if a_player != b_player {
            return !a_player;
        }
        let a_rank: u8 = match a.ring_rank {
            Some(rank) => rank,
            None => 2,
        };
        let b_rank: u8 = match b.ring_rank {
            Some(rank) => rank,
            None => 2,
        };
        if a_rank != b_rank {
            return a_rank > b_rank;
        }
        if a.pace != b.pace {
            return a.pace < b.pace;
        }
        a.slot > b.slot
    }

    /// Address one more order to a tank.
    pub fn issue(&mut self, slot: usize, order: Order)
        ensures
            final(self).issued() == old(self).issued().insert(
                slot,
                standing(old(self).issued(), slot).push(order),
            ),
            final(self).yields() == old(self).yields(),
            final(self).skips() == old(self).skips(),
            final(self).known() == old(self).known(),
            final(self).on() == old(self).on(),
    {
        let mut orders: Vec<Order> = match self.orders.remove(&slot) {
            Some(orders) => orders,
            None => Vec::new(),
        };
        orders.push(order);
        self.orders.insert(slot, orders);
        assert(self.issued() =~= old(self).issued().insert(
            slot,
            standing(old(self).issued(), slot).push(order),
        ));
    }
}

/// Only the tanks told to give way this frame go on giving way.
pub open spec fn kept(yielding: Yielding, ordered: Seq<usize>) -> Yielding {
    Map::new(
        |slot: usize| yielding.contains_key(slot) && ordered.contains(slot),
        |slot: usize| yielding[slot],
    )
}

/// What the conflicts of a frame come to, soonest first.
pub open spec fn walked(from: Walk, units: Seq<UnitView>, ctx: &CommandCtx) -> Walk {
    let cs = ranked(conflicts(units, ctx, units.len() as int));
    from.steps(units, ctx, cs, cs.len() as int)
}

/// Some unit is in `slot`.
pub open spec fn slot_taken(units: Seq<UnitView>, slot: usize) -> bool {
    exists|i: int| 0 <= i < units.len() && (#[trigger] units[i]).slot == slot
}

proof fn lemma_unit_in(units: Seq<UnitView>, slot: usize)
    requires
        slot_taken(units, slot),
    ensures
        unit_in(units, slot).slot == slot,
    decreases units.len(),
{
    let i = choose|i: int| 0 <= i < units.len() && (#[trigger] units[i]).slot == slot;
    if units.len() <= 1 || units[0].slot == slot {
    } else {
        assert(units.skip(1)[i - 1] == units[i]);
        lemma_unit_in(units.skip(1), slot);
    }
}

/// A conflict between tanks that exist.
pub open spec fn slots_exist(units: Seq<UnitView>, c: Conflict) -> bool {
    slot_taken(units, c.a) && slot_taken(units, c.b)
}

proof fn lemma_conflicts_of(units: Seq<UnitView>, ctx: &CommandCtx, i: int, j: int)
    requires
        0 <= i < units.len(),
        j <= units.len(),
    ensures
        forall|k: int|
            0 <= k < conflicts_of(units, ctx, i, j).len() ==> slots_exist(
                units,
                #[trigger] conflicts_of(units, ctx, i, j)[k],
            ),
    decreases j - i,
{
    if j > i + 1 {
        lemma_conflicts_of(units, ctx, i, j - 1);
        let before = conflicts_of(units, ctx, i, j - 1);
        assert forall|k: int| 0 <= k < conflicts_of(units, ctx, i, j).len() implies slots_exist(
            units,
            #[trigger] conflicts_of(units, ctx, i, j)[k],
        ) by {
            if k < before.len() {
                assert(slots_exist(units, before[k]));
            } else {
                assert(units[i].slot == conflicts_of(units, ctx, i, j)[k].a);
                assert(units[j - 1].slot == conflicts_of(units, ctx, i, j)[k].b);
            }
        }
    }
}

proof fn lemma_conflicts(units: Seq<UnitView>, ctx: &CommandCtx, n: int)
    requires
        n <= units.len(),
    ensures
        forall|k: int|
            0 <= k < conflicts(units, ctx, n).len() ==> slots_exist(
                units,
                #[trigger] conflicts(units, ctx, n)[k],
            ),
    decreases n,
{
    if n > 0 {
        lemma_conflicts(units, ctx, n - 1);
        lemma_conflicts_of(units, ctx, n - 1, units.len() as int);
        let before = conflicts(units, ctx, n - 1);
        let last = conflicts_of(units, ctx, n - 1, units.len() as int);
        assert forall|k: int| 0 <= k < conflicts(units, ctx, n).len() implies slots_exist(
            units,
            #[trigger] conflicts(units, ctx, n)[k],
        ) by {
            if k < before.len() {
                assert(slots_exist(units, before[k]));
            } else {
                assert(slots_exist(units, last[k - before.len()]));
            }
        }
    }
}

proof fn lemma_ranked_conflicts(units: Seq<UnitView>, ctx: &CommandCtx)
    ensures
        ({
            let cs = ranked(conflicts(units, ctx, units.len() as int));
            forall|k: int| 0 <= k < cs.len() ==> slots_exist(units, #[trigger] cs[k])
        }),
{
    let raw = conflicts(units, ctx, units.len() as int);
    let cs = ranked(raw);
    lemma_conflicts(units, ctx, units.len() as int);
    crate::ranking::ranking_sorts(raw);
    assert forall|k: int| 0 <= k < cs.len() implies slots_exist(units, #[trigger] cs[k]) by {
        crate::ranking::same_members(cs, raw, k);
        let m = choose|m: int| 0 <= m < raw.len() && raw[m] == cs[k];
        assert(slots_exist(units, raw[m]));
    }
}

proof fn lemma_step(from: Walk, units: Seq<UnitView>, ctx: &CommandCtx, c: Conflict)
    requires
        no_standoff(from.yielding),
        slots_exist(units, c),
    ensures
        no_standoff(from.step(units, ctx, c).yielding),
{
    lemma_unit_in(units, c.a);
    lemma_unit_in(units, c.b);
    let after = from.step(units, ctx, c).yielding;
    assert forall|a: usize, b: usize| a != b && #[trigger] yields_to(after, a, b) implies !yields_to(
        after,
        b,
        a,
    ) by {
        assert(yields_to(from.yielding, a, b) ==> !yields_to(from.yielding, b, a));
        assert(yields_to(from.yielding, b, a) ==> !yields_to(from.yielding, a, b));
    }
}

impl Commander {
    /// The walk's state, between conflicts.
    closed spec fn walk(&self, ordered: Seq<usize>) -> Walk {
        Walk { yielding: self.yields(), orders: self.issued(), ordered, skipped: self.skips() }
    }

    /// Settle one conflict.
    fn settle(
        &mut self,
        units: &Vec<UnitView>,
        ctx: &CommandCtx,
        c: Conflict,
        ordered: &mut Vec<usize>,
    )
        requires
            units@.len() > 0,
            old(self).skips().already_ordered < u64::MAX,
            old(self).skips().had_right_of_way < u64::MAX,
        ensures
            final(self).walk(final(ordered)@) == old(self).walk(old(ordered)@).step(units@, ctx, c),
            final(self).known() == old(self).known(),
            final(self).on() == old(self).on(),
    {
        let a: UnitView = find_unit(units, c.a);
        let b: UnitView = find_unit(units, c.b);
        let yielder: UnitView = if self.gives_way(&a, &b) {
            a
        } else {
            b
        };
        if matches!(yielder.unit, Unit::Player(_)) {
            self.skipped.had_right_of_way = self.skipped.had_right_of_way + 1;
            return;
        }
        if contains_slot(ordered, yielder.slot) {
            self.skipped.already_ordered = self.skipped.already_ordered + 1;
            return;
        }
        let other: usize = if yielder.slot == c.a {
            c.b
        } else {
            c.a
        };
        let held: Scalar = match self.yielding.get(&yielder.slot) {
            Some(y) => if y.0 == other {
                yielder.yielded
            } else {
                Scalar::zero()
            },
            None => Scalar::zero(),
        };
        if ctx.yield_hold.lt(held) {
            self.yielding.remove(&yielder.slot);
            return;
        }
        self.yielding.insert(yielder.slot, (other, held));
        let order: Order = if ctx.escalate.le(held) {
            Order::Hold
        } else {
            Order::Slow { by: ctx.ease }
        };
        self.issue(yielder.slot, order);
        ordered.push(yielder.slot);
    }

    /// Stop enemies driving into each other: of every pair about to touch,
    /// soonest first, one gives way.
    fn deconflict(&mut self, units: &Vec<UnitView>, ctx: &CommandCtx)
        requires
            covers(ctx, units@.len() as int),
            old(self).issued() == Map::<usize, Seq<Order>>::empty(),
            old(self).skips() == Skipped::none(),
        ensures
            ({
                let end = walked(old(self).start(), units@, ctx);
                &&& final(self).issued() == end.orders
                &&& final(self).yields() == kept(end.yielding, end.ordered)
                &&& final(self).skips() == end.skipped
            }),
            no_standoff(old(self).yields()) ==> no_standoff(final(self).yields()),
            final(self).known() == old(self).known(),
            final(self).on() == old(self).on(),
    {
        let found: Vec<Conflict> = find_conflicts(units, ctx);
        let cs: Vec<Conflict> = sort_ranked(&found);
        let mut ordered: Vec<usize> = Vec::new();
        let ghost from = self.start();
        assert(self.walk(ordered@) =~= from);
        proof {
            lemma_ranked_conflicts(units@, ctx);
        }
        let mut n: usize = 0;
        while n < cs.len()
            invariant
                n <= cs@.len(),
                covers(ctx, units@.len() as int),
                forall|k: int| 0 <= k < cs@.len() ==> slots_exist(units@, #[trigger] cs@[k]),
                self.walk(ordered@) == from.steps(units@, ctx, cs@, n as int),
                no_standoff(from.yielding) ==> no_standoff(self.yields()),
                self.skips().already_ordered + self.skips().had_right_of_way <= n,
                self.known() == old(self).known(),
                self.on() == old(self).on(),
            decreases cs@.len() - n,
        {
            proof {
                assert(slots_exist(units@, cs@[n as int]));
                if no_standoff(from.yielding) {
                    lemma_step(self.walk(ordered@), units@, ctx, cs@[n as int]);
                }
            }
            self.settle(units, ctx, cs[n], &mut ordered);
            n += 1;
        }
        // A tank nobody told to give way this frame no longer does.
        let ghost end = self.walk(ordered@);
        let mut still: BTreeMap<usize, (usize, Scalar)> = BTreeMap::new();
        let mut k: usize = 0;
        while k < ordered.len()
            invariant
                k <= ordered@.len(),
                self.walk(ordered@) == end,
                self.known() == old(self).known(),
                self.on() == old(self).on(),
                still@ == kept(end.yielding, ordered@.take(k as int)),
            decreases ordered@.len() - k,
        {
            let slot: usize = ordered[k];
            assert(ordered@.take(k + 1) =~= ordered@.take(k as int).push(slot));
            assert forall|s: usize| ordered@.take(k + 1).contains(s) == (ordered@.take(
                k as int,
            ).contains(s) || s == slot) by {
                if ordered@.take(k as int).contains(s) {
                    let m = choose|m: int|
                        0 <= m < k && #[trigger] ordered@.take(k as int)[m] == s;
                    assert(ordered@.take(k + 1)[m] == s);
                }
                assert(ordered@.take(k + 1)[k as int] == slot);
            }
            match self.yielding.get(&slot) {
                Some(y) => {
                    still.insert(slot, *y);
                },
                None => {},
            }
            k += 1;
            assert(still@ =~= kept(end.yielding, ordered@.take(k as int)));
        }
        assert(ordered@.take(k as int) =~= ordered@);
        self.yielding = still;
        assert(self.yields() == kept(end.yielding, end.ordered));
        assert(no_standoff(end.yielding) ==> no_standoff(self.yields())) by {
            if no_standoff(end.yielding) {
                assert forall|a: usize, b: usize|
                    a != b && #[trigger] yields_to(self.yields(), a, b) implies !yields_to(
                    self.yields(),
                    b,
                    a,
                ) by {
                    assert(yields_to(end.yielding, a, b));
                }
            }
        }
    }

    /// Decide this frame's orders. While there is no commander it orders
    /// nothing and leaves what it knows untouched.
    pub fn plan(&mut self, units: &Vec<UnitView>, ctx: &CommandCtx)
        requires
            old(self).wf(),
            covers(ctx, units@.len() as int),
            ctx.lane_ttls@.len() == old(self).known().lanes@.len(),
            ctx.claim_helds@.len() == old(self).known().claims@.len(),
        ensures
            final(self).wf(),
            final(self).on() == ctx.enabled,
            !ctx.enabled ==> {
                &&& final(self).issued() == Map::<usize, Seq<Order>>::empty()
                &&& final(self).skips() == Skipped::none()
                &&& final(self).yields() == old(self).yields()
                &&& final(self).known() == old(self).known()
            },
            ctx.enabled ==> {
                let end = walked(old(self).start(), units@, ctx);
                let (before, after) = (old(self).known(), final(self).known());
                &&& final(self).issued() == end.orders
                &&& final(self).skips() == end.skipped
                &&& final(self).yields() == kept(end.yielding, end.ordered)
                &&& after.lanes@ == lanes_left(
                    before.lanes@,
                    ctx.lane_ttls@,
                    before.lanes@.len() as int,
                )
                &&& after.claims@ == claims_held(before.claims@, ctx.claim_helds@)
                &&& after.spotted == before.spotted
                &&& after.threat == before.threat
                &&& after.morale == before.morale
            },
    {
        self.orders.clear();
        self.skipped = Skipped::none();
        self.enabled = ctx.enabled;
        assert(self.issued() =~= Map::<usize, Seq<Order>>::empty());
        if !self.enabled {
            return;
        }
        self.board.begin_frame(&ctx.lane_ttls, &ctx.claim_helds);
        assert(self.start() =~= old(self).start());
        self.deconflict(units, ctx);
    }

    /// What the commander decided.
    pub fn report(&self) -> (report: CommandReport<'_>)
        ensures
            report.enabled == self.on(),
            order_map(report.orders@) == self.issued(),
            report.skipped == self.skips(),
            *report.board == self.known(),
    {
        CommandReport {
            enabled: self.enabled,
            orders: &self.orders,
            skipped: self.skipped,
            board: &self.board,
        }
    }

    /// Who a tank is giving way to, and for how long.
    pub fn yielding_to(&self, slot: usize) -> (r: Option<(usize, Scalar)>)
        ensures
            r == (if self.yields().contains_key(slot) {
                Some(self.yields()[slot])
            } else {
                None
            }),
    {
        match self.yielding.get(&slot) {
            Some(y) => Some(*y),
            None => None,
        }
    }
}

/// What one reflex order makes of an intent. `ease` adds a throttle to the
/// throttle already there.
pub open spec fn obeys<F: Fn(Scalar, Scalar) -> Scalar>(
    ease: F,
    order: Order,
    from: Intent,
    to: Intent,
) -> bool {
    match order {
        Order::Slow { by } => to == (Intent { slow: to.slow, ..from }) && call_ensures(
            ease,
            (from.slow, by),
            to.slow,
        ),
        Order::Hold => to == (Intent {
            face: if from.face is Some {
                from.face
            } else {
                from.move_dir
            },
            move_dir: None,
            ..from
        }),
        Order::Nudge { dir } => to == (Intent { move_dir: Some(dir), ..from }),
        Order::HoldFire => to == (Intent { fire: false, ..from }),
        Order::Ram { .. } | Order::Goto { .. } | Order::Fetch { .. } | Order::Focus { .. } => to
            == from,
    }
}

/// What the first `n` orders, in turn, make of an intent.
pub open spec fn obeys_all<F: Fn(Scalar, Scalar) -> Scalar>(
    ease: F,
    orders: Seq<Order>,
    n: int,
    from: Intent,
    to: Intent,
) -> bool
    decreases n,
{
    if n <= 0 {
        to == from
    } else {
        exists|mid: Intent|
            obeys_all(ease, orders, n - 1, from, mid) && #[trigger] obeys(
                ease,
                orders[n - 1],
                mid,
                to,
            )
    }
}

impl Commander {
    /// Apply this frame's reflex orders to a tank's intent. Throttles
    /// compound through `ease`; goal orders leave the intent alone.
    pub fn apply<F: Fn(Scalar, Scalar) -> Scalar>(
        &self,
        slot: usize,
        intent: Intent,
        ease: &F,
    ) -> (after: Intent)
        requires
            forall|slow: Scalar, by: Scalar| #[trigger] call_requires(*ease, (slow, by)),
        ensures
            obeys_all(
                *ease,
                standing(self.issued(), slot),
                standing(self.issued(), slot).len() as int,
                intent,
                after,
            ),
    {
        match self.orders.get(&slot) {
            None => intent,
            Some(orders) => {
                let mut after: Intent = intent;
                let mut n: usize = 0;
                assert(orders@ == standing(self.issued(), slot));
                while n < orders.len()
                    invariant
                        n <= orders@.len(),
                        forall|slow: Scalar, by: Scalar| #[trigger] call_requires(*ease, (slow, by)),
                        obeys_all(*ease, orders@, n as int, intent, after),
                    decreases orders@.len() - n,
                {
                    let ghost mid = after;
                    match orders[n] {
                        Order::Slow { by } => {
                            after.slow = ease(after.slow, by);
                        },
                        Order::Hold => {
                            if after.face.is_none() {
                                after.face = after.move_dir;
                            }
                            after.move_dir = None;
                        },
                        Order::Nudge { dir } => {
                            after.move_dir = Some(dir);
                        },
                        Order::HoldFire => {
                            after.fire = false;
                        },
                        Order::Ram { .. }
                        | Order::Goto { .. }
                        | Order::Fetch { .. }
                        | Order::Focus { .. } => {},
                    }
                    n += 1;
                    assert(obeys_all(*ease, orders@, n - 1, intent, mid) && obeys(
                        *ease,
                        orders@[n - 1],
                        mid,
                        after,
                    ));
                }
                after
            },
        }
    }
}

/// Of any two tanks exactly one gives way, so two tanks never both brake for
/// each other and never both drive on.
pub proof fn right_of_way_is_antisymmetric_and_total(yielding: Yielding, a: UnitView, b: UnitView)
    requires
        no_standoff(yielding),
        a.slot != b.slot,
    ensures
        gives_way_to(yielding, a, b) != gives_way_to(yielding, b, a),
{
    assert(yields_to(yielding, a.slot, b.slot) ==> !yields_to(yielding, b.slot, a.slot));
    assert(yields_to(yielding, b.slot, a.slot) ==> !yields_to(yielding, a.slot, b.slot));
}

/// A tank giving way to another goes on giving way to it, however their
/// ranks and speeds have changed.
pub proof fn a_yielder_keeps_yielding(yielding: Yielding, a: UnitView, b: UnitView)
    requires
        no_standoff(yielding),
        a.slot != b.slot,
        yields_to(yielding, a.slot, b.slot),
    ensures
        gives_way_to(yielding, a, b),
        !gives_way_to(yielding, b, a),
{
    right_of_way_is_antisymmetric_and_total(yielding, a, b);
}

/// One mitigation per tank per frame: nobody is told twice, and who is told
/// gets exactly one order.
pub open spec fn told_once(w: Walk) -> bool {
    &&& w.ordered.no_duplicates()
    &&& forall|slot: usize| #[trigger] w.orders.contains_key(slot) <==> w.ordered.contains(slot)
    &&& forall|slot: usize| #[trigger]
        w.orders.contains_key(slot) ==> w.orders[slot].len() == 1
}

proof fn lemma_told_once(
    from: Walk,
    units: Seq<UnitView>,
    ctx: &CommandCtx,
    cs: Seq<Conflict>,
    n: int,
)
    requires
        told_once(from),
    ensures
        told_once(from.steps(units, ctx, cs, n)),
    decreases n,
{
    if n > 0 {
        lemma_told_once(from, units, ctx, cs, n - 1);
        let w = from.steps(units, ctx, cs, n - 1);
        let after = w.step(units, ctx, cs[n - 1]);
        if after.ordered != w.ordered {
            let slot = after.ordered.last();
            assert(after.ordered == w.ordered.push(slot));
            assert(!w.ordered.contains(slot));
            assert forall|s: usize| #[trigger] after.ordered.contains(s) <==> w.ordered.contains(s)
                || s == slot by {
                assert(after.ordered[w.ordered.len() as int] == slot);
                if w.ordered.contains(s) {
                    let m = choose|m: int| 0 <= m < w.ordered.len() && w.ordered[m] == s;
                    assert(after.ordered[m] == s);
                }
            }
            assert(standing(w.orders, slot).len() == 0);
        }
    }
}

/// One mitigation per tank per frame, from any frame's start.
pub proof fn every_tank_gets_at_most_one_order(
    yielding: Yielding,
    units: Seq<UnitView>,
    ctx: &CommandCtx,
)
    ensures
        ({
            let from = Walk {
                yielding,
                orders: Map::empty(),
                ordered: Seq::empty(),
                skipped: Skipped::none(),
            };
            told_once(walked(from, units, ctx))
        }),
{
    let from = Walk {
        yielding,
        orders: Map::empty(),
        ordered: Seq::empty(),
        skipped: Skipped::none(),
    };
    assert(told_once(from));
    let cs = ranked(conflicts(units, ctx, units.len() as int));
    lemma_told_once(from, units, ctx, cs, cs.len() as int);
}

/// Of two tanks neither of which gives way to the other yet, both enemies or
/// both players, the one nearer the firing line keeps its lane and the other
/// gives way. A tank without a ring slot stands behind both ranks.
pub proof fn the_firing_line_keeps_its_lane(yielding: Yielding, a: UnitView, b: UnitView)
    requires
        yielding.contains_key(a.slot) ==> yielding[a.slot].0 != b.slot,
        yielding.contains_key(b.slot) ==> yielding[b.slot].0 != a.slot,
        (a.unit is Player && b.unit is Player) || (a.unit is Enemy && b.unit is Enemy),
        match (a.ring_rank, b.ring_rank) {
            (Some(p), Some(q)) => p < q,
            (Some(p), None) => p < 2,
            (None, Some(q)) => 2 < q,
            (None, None) => false,
        },
    ensures
        !gives_way_to(yielding, a, b),
        gives_way_to(yielding, b, a),
{
}

/// At equal rank the slower of the two gives way, and at equal pace the one in
/// the higher slot.
pub proof fn at_equal_rank_the_slower_gives_way(yielding: Yielding, a: UnitView, b: UnitView)
    requires
        yielding.contains_key(a.slot) ==> yielding[a.slot].0 != b.slot,
        yielding.contains_key(b.slot) ==> yielding[b.slot].0 != a.slot,
        (a.unit is Player && b.unit is Player) || (a.unit is Enemy && b.unit is Enemy),
        a.ring_rank == b.ring_rank || (a.ring_rank is None && b.ring_rank == Some(2u8)) || (
        b.ring_rank is None && a.ring_rank == Some(2u8)),
        a.pace < b.pace || (a.pace == b.pace && a.slot > b.slot),
    ensures
        gives_way_to(yielding, a, b),
        !gives_way_to(yielding, b, a),
{
}

/// An enemy gives way to a player whatever their ranks and speeds, unless the
/// player is giving way to it already.
pub proof fn an_enemy_gives_way_to_a_player(yielding: Yielding, a: UnitView, b: UnitView)
    requires
        yielding.contains_key(b.slot) ==> yielding[b.slot].0 != a.slot,
        yielding.contains_key(a.slot) ==> yielding[a.slot].0 != b.slot,
        a.unit is Enemy,
        b.unit is Player,
    ensures
        gives_way_to(yielding, a, b),
        !gives_way_to(yielding, b, a),
{
}

/// Two enemies are in each other's way exactly when neither is a wreck, they
/// are within the watched distance, close fast enough, and touch now or within
/// the horizon; a player's tank is in nobody's.
pub proof fn a_pair_is_in_conflict_when_it_is_about_to_touch(
    units: Seq<UnitView>,
    ctx: &CommandCtx,
    i: int,
    j: int,
)
    ensures
        ({
            let (a, b) = (units[i], units[j]);
            let way = ctx.approaches@[i]@[j];
            let touching = way.gap.at_most(way.reach);
            let found = conflict(units, ctx, i, j);
            &&& found is Some <==> {
                &&& a.unit is Enemy && b.unit is Enemy && !a.wreck && !b.wreck
                &&& !ctx.watch.below(way.gap)
                &&& !way.closing.below(ctx.min_closing)
                &&& if touching {
                    Scalar::zero().at_most(ctx.horizon)
                } else {
                    way.wait.at_most(ctx.horizon)
                }
            }
            &&& found is Some ==> {
                &&& found->0.a == a.slot && found->0.b == b.slot
                &&& touching ==> found->0.ttc.bits == 0
                &&& !touching ==> found->0.ttc == way.wait
            }
        }),
{
}

proof fn lemma_conflicts_of_has(units: Seq<UnitView>, ctx: &CommandCtx, i: int, j: int, n: int)
    requires
        0 <= i < j < n,
        conflict(units, ctx, i, j) is Some,
    ensures
        conflicts_of(units, ctx, i, n).contains(conflict(units, ctx, i, j)->0),
    decreases n,
{
    let c = conflict(units, ctx, i, j)->0;
    let now = conflicts_of(units, ctx, i, n);
    let before = conflicts_of(units, ctx, i, n - 1);
    if j == n - 1 {
        assert(now == before.push(c));
        assert(now[before.len() as int] == c);
    } else {
        lemma_conflicts_of_has(units, ctx, i, j, n - 1);
        let k = choose|k: int| 0 <= k < before.len() && before[k] == c;
        assert(now[k] == c);
    }
}

proof fn lemma_conflicts_has(units: Seq<UnitView>, ctx: &CommandCtx, i: int, j: int, n: int)
    requires
        0 <= i < j < units.len(),
        i < n <= units.len(),
        conflict(units, ctx, i, j) is Some,
    ensures
        conflicts(units, ctx, n).contains(conflict(units, ctx, i, j)->0),
    decreases n,
{
    let c = conflict(units, ctx, i, j)->0;
    let now = conflicts(units, ctx, n);
    let before = conflicts(units, ctx, n - 1);
    let last = conflicts_of(units, ctx, n - 1, units.len() as int);
    if i == n - 1 {
        lemma_conflicts_of_has(units, ctx, i, j, units.len() as int);
        let k = choose|k: int| 0 <= k < last.len() && last[k] == c;
        assert(now[before.len() + k] == c);
    } else {
        lemma_conflicts_has(units, ctx, i, j, n - 1);
        let k = choose|k: int| 0 <= k < before.len() && before[k] == c;
        assert(now[k] == c);
    }
}

/// Every pair about to touch is dealt with, the soonest first and of equally
/// soon ones the one in the lower slots.
pub proof fn every_pair_about_to_touch_is_dealt_with(
    units: Seq<UnitView>,
    ctx: &CommandCtx,
    i: int,
    j: int,
)
    requires
        0 <= i < j < units.len(),
    ensures
        ({
            let cs = ranked(conflicts(units, ctx, units.len() as int));
            &&& conflict(units, ctx, i, j) matches Some(c) ==> cs.contains(c)
            &&& forall|p: int, q: int|
                0 <= p < q < cs.len() ==> {
                    let (c, d) = (#[trigger] cs[p], #[trigger] cs[q]);
                    ||| c.ttc.total_rank() < d.ttc.total_rank()
                    ||| c.ttc.total_rank() == d.ttc.total_rank() && (c.a < d.a || (c.a == d.a
                        && c.b <= d.b))
                }
        }),
{
    let raw = conflicts(units, ctx, units.len() as int);
    let cs = ranked(raw);
    crate::ranking::ranking_sorts(raw);
    if let Some(c) = conflict(units, ctx, i, j) {
        lemma_conflicts_has(units, ctx, i, j, units.len() as int);
        let k = choose|k: int| 0 <= k < raw.len() && raw[k] == c;
        crate::ranking::same_members(raw, cs, k);
    }
    assert forall|p: int, q: int| 0 <= p < q < cs.len() implies {
        let (c, d) = (#[trigger] cs[p], #[trigger] cs[q]);
        ||| c.ttc.total_rank() < d.ttc.total_rank()
        ||| c.ttc.total_rank() == d.ttc.total_rank() && (c.a < d.a || (c.a == d.a && c.b <= d.b))
    } by {
        assert(!cs[q].ahead(cs[p]));
    }
}

/// What happens to two enemies about to touch. The one that is to give way and
/// has no order yet is eased off, or stopped once it has given way long enough,
/// and remembers for whom; once it has given way too long it drives on without
/// an order. The other is told nothing.
pub proof fn the_one_that_gives_way_is_ordered(
    w: Walk,
    units: Seq<UnitView>,
    ctx: &CommandCtx,
    c: Conflict,
)
    requires
        slots_exist(units, c),
        c.a != c.b,
        no_standoff(w.yielding),
        unit_in(units, c.a).unit is Enemy,
        unit_in(units, c.b).unit is Enemy,
    ensures
        ({
            let after = w.step(units, ctx, c);
            let (a, b) = (unit_in(units, c.a), unit_in(units, c.b));
            let (gives, goes) = if gives_way_to(w.yielding, a, b) {
                (a, b)
            } else {
                (b, a)
            };
            let held = if w.yielding.contains_key(gives.slot) && w.yielding[gives.slot].0
                == goes.slot {
                gives.yielded
            } else {
                Scalar::zero()
            };
            let had = if w.orders.contains_key(gives.slot) {
                w.orders[gives.slot]
            } else {
                Seq::empty()
            };
            &&& gives.slot != goes.slot
            &&& after.orders.contains_key(goes.slot) == w.orders.contains_key(goes.slot)
            &&& w.orders.contains_key(goes.slot) ==> after.orders[goes.slot] == w.orders[goes.slot]
            &&& w.ordered.contains(gives.slot) ==> after.orders == w.orders && after.yielding
                == w.yielding
            &&& !w.ordered.contains(gives.slot) && ctx.yield_hold.below(held) ==> after.orders
                == w.orders && after.yielding == w.yielding.remove(gives.slot)
            &&& !w.ordered.contains(gives.slot) && !ctx.yield_hold.below(held) ==> {
                &&& after.orders.contains_key(gives.slot)
                &&& ctx.escalate.at_most(held) ==> after.orders[gives.slot] == had.push(
                    Order::Hold,
                )
                &&& !ctx.escalate.at_most(held) ==> after.orders[gives.slot] == had.push(
                    Order::Slow { by: ctx.ease },
                )
                &&& after.yielding == w.yielding.insert(gives.slot, (goes.slot, held))
                &&& after.ordered.contains(gives.slot)
            }
        }),
{
    lemma_unit_in(units, c.a);
    lemma_unit_in(units, c.b);
    let after = w.step(units, ctx, c);
    if after.ordered != w.ordered {
        assert(after.ordered[w.ordered.len() as int] == after.ordered.last());
    }
}

/// A frame with one pair of enemies about to touch, neither giving way yet: the
/// reserve eases off for the tank on the firing line, and only it is told
/// anything.
pub proof fn the_reserve_eases_off_for_the_firing_line(
    from: Walk,
    a: UnitView,
    b: UnitView,
    ctx: &CommandCtx,
)
    requires
        from.yielding == Map::<usize, (usize, Scalar)>::empty(),
        from.orders == Map::<usize, Seq<Order>>::empty(),
        from.ordered == Seq::<usize>::empty(),
        a.slot != b.slot,
        a.unit is Enemy,
        b.unit is Enemy,
        a.ring_rank == Some(0u8),
        b.ring_rank == Some(1u8) || b.ring_rank is None,
        conflict(seq![a, b], ctx, 0, 1) is Some || conflict(seq![b, a], ctx, 0, 1) is Some,
        !ctx.yield_hold.below(Scalar::zero()),
        !ctx.escalate.at_most(Scalar::zero()),
    ensures
        conflict(seq![a, b], ctx, 0, 1) is Some ==> walked(from, seq![a, b], ctx).orders
            == Map::<usize, Seq<Order>>::empty().insert(b.slot, seq![Order::Slow { by: ctx.ease }]),
        conflict(seq![b, a], ctx, 0, 1) is Some ==> walked(from, seq![b, a], ctx).orders
            == Map::<usize, Seq<Order>>::empty().insert(b.slot, seq![Order::Slow { by: ctx.ease }]),
{
    if conflict(seq![a, b], ctx, 0, 1) is Some {
        lemma_one_pair(from, a, b, ctx);
        assert(gives_way_to(from.yielding, b, a));
    }
    if conflict(seq![b, a], ctx, 0, 1) is Some {
        lemma_one_pair(from, b, a, ctx);
        assert(gives_way_to(from.yielding, b, a));
    }
}

proof fn lemma_one_pair(from: Walk, a: UnitView, b: UnitView, ctx: &CommandCtx)
    requires
        from.yielding == Map::<usize, (usize, Scalar)>::empty(),
        from.orders == Map::<usize, Seq<Order>>::empty(),
        from.ordered == Seq::<usize>::empty(),
        a.slot != b.slot,
        a.unit is Enemy,
        b.unit is Enemy,
        conflict(seq![a, b], ctx, 0, 1) is Some,
        !ctx.yield_hold.below(Scalar::zero()),
        !ctx.escalate.at_most(Scalar::zero()),
    ensures
        ({
            let slot = if gives_way_to(from.yielding, a, b) {
                a.slot
            } else {
                b.slot
            };
            walked(from, seq![a, b], ctx).orders == Map::<usize, Seq<Order>>::empty().insert(
                slot,
                seq![Order::Slow { by: ctx.ease }],
            )
        }),
{
    let units = seq![a, b];
    let c = conflict(units, ctx, 0, 1)->0;
    reveal_with_fuel(conflicts_of, 3);
    reveal_with_fuel(conflicts, 3);
    reveal_with_fuel(Walk::steps, 3);
    reveal_with_fuel(unit_in, 3);
    assert(conflicts_of(units, ctx, 0, 2) =~= seq![c]);
    assert(conflicts_of(units, ctx, 1, 2) =~= Seq::<Conflict>::empty());
    let raw = conflicts(units, ctx, 2);
    assert(raw =~= seq![c]);
    let cs = ranked(raw);
    crate::ranking::ranking_sorts(raw);
    crate::ranking::same_members(cs, raw, 0);
    assert(cs =~= seq![c]);
    assert(units.skip(1) =~= seq![b]);
    assert(unit_in(units, c.a) == a);
    assert(unit_in(units, c.b) == b);
    let after = from.step(units, ctx, c);
    assert(walked(from, units, ctx) == after);
    let slot = if gives_way_to(from.yielding, a, b) {
        a.slot
    } else {
        b.slot
    };
    assert(standing(from.orders, slot).push(Order::Slow { by: ctx.ease }) =~= seq![
        Order::Slow { by: ctx.ease },
    ]);
}

/// What an order does to the tank it is for. One that is held stops, keeps its
/// facing or faces where it was driving, and may still fire; one that eases off
/// keeps its course and only its throttle changes; one told to hold its fire
/// only stops firing; one that is nudged drives the other way.
pub proof fn an_order_changes_only_what_it_says<F: Fn(Scalar, Scalar) -> Scalar>(
    ease: F,
    order: Order,
    from: Intent,
    to: Intent,
)
    requires
        obeys_all(ease, seq![order], 1, from, to),
    ensures
        order is Hold ==> {
            &&& to.move_dir is None
            &&& from.face is Some ==> to.face == from.face
            &&& from.face is None ==> to.face == from.move_dir
            &&& to.fire == from.fire && to.slow == from.slow && to.fire_aim_offset
                == from.fire_aim_offset
        },
        order matches Order::Slow { by } ==> {
            &&& call_ensures(ease, (from.slow, by), to.slow)
            &&& to.move_dir == from.move_dir && to.face == from.face && to.fire == from.fire
                && to.fire_aim_offset == from.fire_aim_offset
        },
        order is HoldFire ==> {
            &&& !to.fire
            &&& to.move_dir == from.move_dir && to.face == from.face && to.slow == from.slow
                && to.fire_aim_offset == from.fire_aim_offset
        },
        order matches Order::Nudge { dir } ==> {
            &&& to.move_dir == Some(dir)
            &&& to.face == from.face && to.fire == from.fire && to.slow == from.slow
                && to.fire_aim_offset == from.fire_aim_offset
        },
        order is Ram || order is Goto || order is Fetch || order is Focus ==> to == from,
{
    reveal_with_fuel(obeys_all, 2);
}

} // verus!
