//! Engagement slots: every enemy actually attacking claims a distinct point
//! near the player instead of converging on the same spot.
//!
//! Four cardinal axes through the player, each with two lateral firing slots
//! (rank 0) and two reserve slots (rank 1), make sixteen points, claimed
//! greedily with mutual exclusion each frame. Where the points lie, which of
//! them a tank can reach and which of them see the player are measured by
//! the host; who gets which is decided here. Every assignment also fills an
//! [`EngageReport`]: which slot each tank holds, and why the others were
//! passed over.

use std::collections::HashMap;
use vstd::prelude::*;

use crate::scalar::{Point, Scalar};

verus! {

broadcast use vstd::std_specs::hash::group_hash_axioms;

/// Slots in the ring: 4 axes x 2 ranks x 2 sides.
pub const SLOT_COUNT: usize = 16;

/// One slot identity: cardinal axis (0 = N, 1 = E, 2 = S, 3 = W), rank (0
/// firing line, 1 reserve) and lateral side (-1/+1).
#[derive(Clone, Copy, Debug, PartialEq, Eq, Structural)]
pub struct EngageSlot {
    pub axis: u8,
    pub rank: u8,
    pub side: i8,
}

/// Which of an axis's two sides, as a table offset.
pub fn side_idx(side: i8) -> (i: usize)
    ensures
        i == (if side < 0 { 0int } else { 1int }),
{
    if side < 0 {
        0
    } else {
        1
    }
}

impl EngageSlot {
    /// One of the sixteen.
    pub open spec fn valid(self) -> bool {
        self.axis < 4 && self.rank < 2 && (self.side == -1 || self.side == 1)
    }

    /// Table position: axis-major, then rank, then side (-1 before +1).
    pub open spec fn place(self) -> int {
        self.axis * 4 + self.rank * 2 + (if self.side < 0 { 0int } else { 1int })
    }

    /// The slot at a table position.
    pub open spec fn at(i: int) -> EngageSlot {
        EngageSlot {
            axis: (i / 4) as u8,
            rank: ((i / 2) % 2) as u8,
            side: if i % 2 == 0 { -1i8 } else { 1i8 },
        }
    }

    /// This slot's position in the 16-entry table: axis-major, then rank,
    /// then side (-1 before +1).
    pub fn index(self) -> (i: usize)
        ensures
            i == self.place(),
            self.valid() ==> i < SLOT_COUNT,
    {
        self.axis as usize * 4 + self.rank as usize * 2 + side_idx(self.side)
    }

    /// The slot at position `i` of the table. Positions past the table name
    /// axes past the fourth, cut to what an axis number can hold.
    pub fn from_index(i: usize) -> (slot: EngageSlot)
        ensures
            slot == EngageSlot::at(i as int),
            i < SLOT_COUNT ==> slot.valid() && slot.place() == i,
    {
        EngageSlot {
            axis: #[verifier::truncate] ((i / 4) as u8),
            rank: ((i / 2) % 2) as u8,
            side: if i % 2 == 0 {
                -1
            } else {
                1
            },
        }
    }

    /// The axis as the direction the slot lies in from the player.
    pub fn axis_name(self) -> (name: &'static str)
        requires
            self.axis < 4,
        ensures
            name@ == axis_names()[self.axis as int],
    {
        if self.axis == 0 {
            "up"
        } else if self.axis == 1 {
            "right"
        } else if self.axis == 2 {
            "down"
        } else {
            "left"
        }
    }
}

/// The four axes by name, in axis order.
pub open spec fn axis_names() -> Seq<Seq<char>> {
    seq!["up"@, "right"@, "down"@, "left"@]
}

/// A slot and its table position determine each other.
pub proof fn slot_index_round_trip(slot: EngageSlot, i: int)
    ensures
        slot.valid() ==> 0 <= slot.place() < SLOT_COUNT && EngageSlot::at(slot.place()) == slot,
        0 <= i < SLOT_COUNT ==> EngageSlot::at(i).valid() && EngageSlot::at(i).place() == i,
{
}

/// Why an enemy is or isn't competing for a slot this frame.
#[derive(Clone, Copy, Debug, PartialEq, Eq, Structural)]
pub enum EngageStatus {
    Engaged,
    Wreck,
    /// Damage at or past the flee threshold.
    Fleeing,
    /// Backing off to recharge shells.
    Retreating,
    /// Neither within view range nor hit-alerted.
    OutOfRange,
}

/// How many candidate slots one tank's search threw out, by reason, before
/// it settled on one (or gave up).
#[derive(Clone, Copy, Debug, PartialEq, Eq, Structural)]
pub struct Rejections {
    pub claimed: u8,
    pub off_map: u8,
    pub unreachable: u8,
    pub no_los: u8,
}

impl Rejections {
    /// Nothing thrown out.
    pub open spec fn none() -> Rejections {
        Rejections { claimed: 0, off_map: 0, unreachable: 0, no_los: 0 }
    }
}

impl Default for Rejections {
    fn default() -> (r: Rejections)
        ensures
            r == Rejections::none(),
    {
        Rejections { claimed: 0, off_map: 0, unreachable: 0, no_los: 0 }
    }
}

/// One of the 16 slots as this frame's assignment saw it.
#[derive(Clone, Copy, Debug, PartialEq, Eq, Structural)]
pub struct SlotReport {
    /// World point; `None` when it can't be kept inside the battlefield.
    pub point: Option<Point>,
    /// Line of sight from the point to the player; `None` until some tank's
    /// search got as far as checking it.
    pub line_of_sight: Option<bool>,
    /// The entity holding the slot.
    pub claimed_by: Option<u64>,
}

/// One enemy's outcome. `slot`, `target`, `sticky` and `rejected` are only
/// filled for `Engaged` tanks.
#[derive(Clone, Copy, Debug, PartialEq, Eq, Structural)]
pub struct EngageTank {
    pub entity: u64,
    /// The tank's round slot.
    pub owner: usize,
    pub status: EngageStatus,
    pub slot: Option<EngageSlot>,
    pub target: Option<Point>,
    /// The slot is the one held last frame, kept without a new search.
    pub sticky: bool,
    pub rejected: Rejections,
}

impl EngageTank {
    /// A tank before any assignment.
    pub open spec fn fresh(entity: u64, owner: usize, status: EngageStatus) -> EngageTank {
        EngageTank {
            entity,
            owner,
            status,
            slot: None,
            target: None,
            sticky: false,
            rejected: Rejections::none(),
        }
    }

    pub fn new(entity: u64, owner: usize, status: EngageStatus) -> (tank: EngageTank)
        ensures
            tank == EngageTank::fresh(entity, owner, status),
    {
        EngageTank {
            entity,
            owner,
            status,
            slot: None,
            target: None,
            sticky: false,
            rejected: Rejections { claimed: 0, off_map: 0, unreachable: 0, no_los: 0 },
        }
    }
}

/// Everything one enemy phase's assignment decided.
pub struct EngageReport {
    /// False when fewer than two tanks were engaged and no ring was built.
    pub built: bool,
    pub slots: [SlotReport; 16],
    pub tanks: Vec<EngageTank>,
}

/// An untouched slot.
pub open spec fn blank_slot() -> SlotReport {
    SlotReport { point: None, line_of_sight: None, claimed_by: None }
}

/// Position of the first tank with this entity, or the list's length.
pub open spec fn find_tank(tanks: Seq<EngageTank>, entity: u64) -> int
    decreases tanks.len(),
{
    if tanks.len() == 0 || tanks[0].entity == entity {
        0
    } else {
        1 + find_tank(tanks.skip(1), entity)
    }
}

pub(crate) proof fn lemma_find_tank(tanks: Seq<EngageTank>, entity: u64)
    ensures
        0 <= find_tank(tanks, entity) <= tanks.len(),
        find_tank(tanks, entity) < tanks.len() ==> tanks[find_tank(tanks, entity)].entity == entity,
        forall|j: int|
            0 <= j < find_tank(tanks, entity) ==> (#[trigger] tanks[j]).entity != entity,
    decreases tanks.len(),
{
    if tanks.len() == 0 || tanks[0].entity == entity {
    } else {
        let rest = tanks.skip(1);
        lemma_find_tank(rest, entity);
        assert forall|j: int| 0 <= j < find_tank(tanks, entity) implies (#[trigger] tanks[j]).entity
            != entity by {
            if j > 0 {
                assert(rest[j - 1] == tanks[j]);
            }
        }
    }
}

impl EngageReport {
    /// What an entity was told, if it is reported on at all.
    pub open spec fn entry(&self, entity: u64) -> Option<EngageTank> {
        let i = find_tank(self.tanks@, entity);
        if i < self.tanks@.len() {
            Some(self.tanks@[i])
        } else {
            None
        }
    }

    pub(crate) fn find(&self, entity: u64) -> (i: usize)
        ensures
            i == find_tank(self.tanks@, entity),
    {
        proof {
            lemma_find_tank(self.tanks@, entity);
        }
        let mut i: usize = 0;
        while i < self.tanks.len() && self.tanks[i].entity != entity
            invariant
                i <= self.tanks@.len(),
                0 <= find_tank(self.tanks@, entity) <= self.tanks@.len(),
                find_tank(self.tanks@, entity) < self.tanks@.len() ==> self.tanks@[find_tank(
                    self.tanks@,
                    entity,
                )].entity == entity,
                forall|j: int|
                    0 <= j < find_tank(self.tanks@, entity) ==> (#[trigger] self.tanks@[j]).entity
                        != entity,
                forall|j: int| 0 <= j < i ==> (#[trigger] self.tanks@[j]).entity != entity,
            decreases self.tanks@.len() - i,
        {
            i += 1;
        }
        i
    }

    /// The point an entity was sent to.
    pub fn target(&self, entity: u64) -> (r: Option<Point>)
        ensures
            r == (match self.entry(entity) {
                Some(t) => t.target,
                None => None,
            }),
    {
        let i: usize = self.find(entity);
        if i < self.tanks.len() {
            self.tanks[i].target
        } else {
            None
        }
    }

    /// The slot an entity holds.
    pub fn slot_of(&self, entity: u64) -> (r: Option<EngageSlot>)
        ensures
            r == (match self.entry(entity) {
                Some(t) => t.slot,
                None => None,
            }),
    {
        let i: usize = self.find(entity);
        if i < self.tanks.len() {
            self.tanks[i].slot
        } else {
            None
        }
    }

    /// Forget everything.
    pub fn clear(&mut self)
        ensures
            final(self).built == false,
            forall|i: int| 0 <= i < 16 ==> final(self).slots@[i] == blank_slot(),
            final(self).tanks@ == Seq::<EngageTank>::empty(),
    {
        *self = EngageReport::default();
    }
}

impl Default for EngageReport {
    fn default() -> (r: EngageReport)
        ensures
            r.built == false,
            forall|i: int| 0 <= i < 16 ==> r.slots@[i] == blank_slot(),
            r.tanks@ == Seq::<EngageTank>::empty(),
    {
        EngageReport {
            built: false,
            slots: [SlotReport { point: None, line_of_sight: None, claimed_by: None };16],
            tanks: Vec::new(),
        }
    }
}

/// What the host measured about the ring this frame.
pub struct EngageCtx {
    /// Where each slot lies; `None` when it can't be kept on the field.
    pub points: [Option<Point>; 16],
    /// Whether a shot from each slot's point reaches the player.
    pub line_of_sight: [bool; 16],
}

/// What the host measured about one engaged tank.
pub struct Contender {
    pub entity: u64,
    /// How squarely the tank stands on each axis; larger is closer.
    pub bearing: [Scalar; 4],
    /// How far to the + side of each axis it stands.
    pub lateral: [Scalar; 4],
    /// Whether a route exists from the tank to each slot's point.
    pub reachable: [bool; 16],
}

impl Contender {
    /// The bearings are numbers, or none of them is: a place that is no number
    /// makes none of the four.
    pub open spec fn valid(&self) -> bool {
        ||| forall|a: int| 0 <= a < 4 ==> !(#[trigger] self.bearing@[a]).is_nan()
        ||| forall|a: int| 0 <= a < 4 ==> (#[trigger] self.bearing@[a]).is_nan()
    }

    /// Axis `a` comes before axis `b` in this tank's preference: the larger
    /// bearing first, and the lower number where neither is larger.
    pub open spec fn prefers(&self, a: int, b: int) -> bool {
        self.bearing@[b].below(self.bearing@[a]) || (!self.bearing@[a].below(self.bearing@[b]) && a
            < b)
    }

    /// How many axes this tank prefers to axis `b`.
    pub open spec fn axis_place(&self, b: int) -> int {
        (if self.prefers(0, b) { 1int } else { 0 }) + (if self.prefers(1, b) { 1int } else { 0 })
            + (if self.prefers(2, b) { 1int } else { 0 }) + (if self.prefers(3, b) {
            1int
        } else {
            0
        })
    }

    /// The axis with `k` preferred to it.
    pub open spec fn nth_axis(&self, k: int) -> int {
        if self.axis_place(0) == k {
            0
        } else if self.axis_place(1) == k {
            1
        } else if self.axis_place(2) == k {
            2
        } else {
            3
        }
    }

    /// The tank stands on the + side of the axis.
    pub open spec fn plus_side(&self, axis: int) -> bool {
        Scalar::zero().at_most(self.lateral@[axis])
    }

    /// The sixteen slots in the order this tank tries them: every firing
    /// slot before any reserve slot, within a rank the axes it stands closest
    /// to, and on an axis the nearer side.
    pub open spec fn search_order(&self) -> Seq<int> {
        Seq::new(
            16,
            |n: int|
                {
                    let axis = self.nth_axis((n % 8) / 2);
                    let near = n % 2 == 0;
                    axis * 4 + (n / 8) * 2 + (if self.plus_side(axis) == near {
                        1int
                    } else {
                        0
                    })
                },
        )
    }
}

/// What one slot is to one tank.
#[derive(Clone, Copy, Debug, PartialEq, Eq, Structural)]
pub enum Verdict {
    /// Another tank took it this frame.
    Claimed,
    /// It has no point on the field.
    OffMap,
    Unreachable,
    NoLineOfSight,
    Open,
}

/// The assignment's working state.
#[verifier::ext_equal]
pub struct Board {
    pub claimed: Seq<bool>,
    pub slots: Seq<SlotReport>,
    pub choice: Map<u64, EngageSlot>,
    pub tanks: Seq<EngageTank>,
}

/// Line of sight from a slot: what was seen before, else what is measured.
pub open spec fn sight(slots: Seq<SlotReport>, ctx: &EngageCtx, i: int) -> bool {
    match slots[i].line_of_sight {
        Some(seen) => seen,
        None => ctx.line_of_sight@[i],
    }
}

impl Board {
    /// What slot `i` is to a tank, the reasons in the order they are tried.
    pub open spec fn verdict(self, ctx: &EngageCtx, c: &Contender, i: int) -> Verdict {
        if self.claimed[i] {
            Verdict::Claimed
        } else if self.slots[i].point is None {
            Verdict::OffMap
        } else if !c.reachable@[i] {
            Verdict::Unreachable
        } else if !sight(self.slots, ctx, i) {
            Verdict::NoLineOfSight
        } else {
            Verdict::Open
        }
    }

    /// The slots a tank tries, in order: the one it holds, and then the whole
    /// search.
    pub open spec fn trail(self, c: &Contender) -> Seq<int> {
        if self.choice.contains_key(c.entity) {
            seq![self.choice[c.entity].place()] + c.search_order()
        } else {
            c.search_order()
        }
    }

    /// Where along the trail the tank stops: the first open slot at or after
    /// `from`, or the end.
    pub open spec fn stop(self, ctx: &EngageCtx, c: &Contender, from: int) -> int
        decreases self.trail(c).len() - from,
    {
        if from >= self.trail(c).len() {
            from
        } else if self.verdict(ctx, c, self.trail(c)[from]) == Verdict::Open {
            from
        } else {
            self.stop(ctx, c, from + 1)
        }
    }

    /// How many of the first `k` slots tried got verdict `v`.
    pub open spec fn count(self, ctx: &EngageCtx, c: &Contender, v: Verdict, k: int) -> nat
        decreases k,
    {
        if k <= 0 {
            0
        } else {
            self.count(ctx, c, v, k - 1) + (if self.verdict(ctx, c, self.trail(c)[k - 1]) == v {
                1nat
            } else {
                0
            })
        }
    }

    /// The slot table once the first `k` slots have been tried: a slot that
    /// got as far as the line-of-sight test remembers its answer.
    pub open spec fn looked(self, ctx: &EngageCtx, c: &Contender, k: int) -> Seq<SlotReport>
        decreases k,
    {
        if k <= 0 {
            self.slots
        } else {
            let before = self.looked(ctx, c, k - 1);
            let i = self.trail(c)[k - 1];
            let v = self.verdict(ctx, c, i);
            if v == Verdict::NoLineOfSight || v == Verdict::Open {
                before.update(
                    i,
                    SlotReport { line_of_sight: Some(sight(self.slots, ctx, i)), ..before[i] },
                )
            } else {
                before
            }
        }
    }

    /// The slot a tank settles on.
    pub open spec fn settled(self, ctx: &EngageCtx, c: &Contender) -> Option<int> {
        let k = self.stop(ctx, c, 0);
        if k < self.trail(c).len() {
            Some(self.trail(c)[k])
        } else {
            None
        }
    }

    /// The tank kept the slot it held.
    pub open spec fn stuck(self, ctx: &EngageCtx, c: &Contender) -> bool {
        self.choice.contains_key(c.entity) && self.stop(ctx, c, 0) == 0
    }

    /// The slots a tank's search threw out.
    pub open spec fn rejections(self, ctx: &EngageCtx, c: &Contender) -> Rejections {
        let k = self.stop(ctx, c, 0);
        Rejections {
            claimed: self.count(ctx, c, Verdict::Claimed, k) as u8,
            off_map: self.count(ctx, c, Verdict::OffMap, k) as u8,
            unreachable: self.count(ctx, c, Verdict::Unreachable, k) as u8,
            no_los: self.count(ctx, c, Verdict::NoLineOfSight, k) as u8,
        }
    }

    /// The state after one tank has taken its turn.
    pub open spec fn turn(self, ctx: &EngageCtx, c: &Contender) -> Board {
        let k = self.stop(ctx, c, 0);
        let at = find_tank(self.tanks, c.entity);
        let tanks = |slot: Option<EngageSlot>, target: Option<Point>|
            if at < self.tanks.len() {
                self.tanks.update(
                    at,
                    EngageTank {
                        slot,
                        target,
                        sticky: self.stuck(ctx, c),
                        rejected: self.rejections(ctx, c),
                        ..self.tanks[at]
                    },
                )
            } else {
                self.tanks
            };
        match self.settled(ctx, c) {
            Some(i) => {
                let slots = self.looked(ctx, c, k + 1);
                Board {
                    claimed: self.claimed.update(i, true),
                    slots: slots.update(i, SlotReport { claimed_by: Some(c.entity), ..slots[i] }),
                    choice: self.choice.insert(c.entity, EngageSlot::at(i)),
                    tanks: tanks(Some(EngageSlot::at(i)), self.slots[i].point),
                }
            },
            None => {
                Board {
                    claimed: self.claimed,
                    slots: self.looked(ctx, c, k),
                    choice: self.choice.remove(c.entity),
                    tanks: tanks(None, None),
                }
            },
        }
    }

    /// The state after the first `n` tanks have taken their turns.
    pub open spec fn turns(self, ctx: &EngageCtx, engaged: Seq<Contender>, n: int) -> Board
        decreases n,
    {
        if n <= 0 {
            self
        } else {
            self.turns(ctx, engaged, n - 1).turn(ctx, &engaged[n - 1])
        }
    }

    /// The tables are whole and every held slot is one of the sixteen.
    pub open spec fn wf(self) -> bool {
        &&& self.claimed.len() == 16
        &&& self.slots.len() == 16
        &&& forall|e: u64| #[trigger]
            self.choice.contains_key(e) ==> self.choice[e].valid()
    }
}

/// Slot assignment with memory: a tank keeps the slot it already holds for
/// as long as it stays valid and unclaimed, and only searches afresh when it
/// doesn't. Choosing from scratch every frame would let the pick flip between
/// two equally good slots near a boundary.
pub struct EngageRing {
    choice: HashMap<u64, EngageSlot>,
}

impl EngageRing {
    /// The slot each entity holds.
    pub closed spec fn held(&self) -> Map<u64, EngageSlot> {
        self.choice@
    }

    /// Every held slot is one of the sixteen.
    pub open spec fn wf(&self) -> bool {
        forall|e: u64| #[trigger] self.held().contains_key(e) ==> self.held()[e].valid()
    }

    /// Forget who held what.
    pub fn clear(&mut self)
        ensures
            final(self).wf(),
            final(self).held() == Map::<u64, EngageSlot>::empty(),
    {
        self.choice.clear();
    }

    /// Forget what one entity held, so it searches afresh.
    pub fn release(&mut self, entity: u64)
        requires
            old(self).wf(),
        ensures
            final(self).wf(),
            final(self).held() == old(self).held().remove(entity),
    {
        self.choice.remove(&entity);
        assert(self.held() =~= old(self).held().remove(entity));
    }

    /// The state an assignment starts from: nothing claimed, every slot at
    /// its point.
    pub open spec fn start(&self, ctx: &EngageCtx, report: &EngageReport) -> Board {
        Board::opening(self.held(), ctx, report)
    }
}

impl Board {
    /// The state an assignment starts from, given who holds what.
    pub open spec fn opening(
        held: Map<u64, EngageSlot>,
        ctx: &EngageCtx,
        report: &EngageReport,
    ) -> Board {
        Board {
            claimed: Seq::new(16, |i: int| false),
            slots: Seq::new(
                16,
                |i: int| SlotReport { point: ctx.points@[i], ..report.slots@[i] },
            ),
            choice: held,
            tanks: report.tanks@,
        }
    }
}

impl Default for EngageRing {
    fn default() -> (ring: EngageRing)
        ensures
            ring.wf(),
            ring.held() == Map::<u64, EngageSlot>::empty(),
    {
        EngageRing { choice: HashMap::new() }
    }
}

impl Contender {
    proof fn lemma_axes(&self)
        requires
            self.valid(),
        ensures
            forall|a: int| 0 <= a < 4 ==> 0 <= #[trigger] self.axis_place(a) < 4,
            forall|a: int, b: int|
                0 <= a < 4 && 0 <= b < 4 && a != b ==> #[trigger] self.axis_place(a)
                    != #[trigger] self.axis_place(b),
            forall|k: int| 0 <= k < 4 ==> 0 <= #[trigger] self.nth_axis(k) < 4,
            forall|k: int|
                0 <= k < 4 ==> self.axis_place(#[trigger] self.nth_axis(k)) == k,
    {
        assert(self.bearing@[0].is_nan() == self.bearing@[1].is_nan());
        assert(self.bearing@[1].is_nan() == self.bearing@[2].is_nan());
        assert(self.bearing@[2].is_nan() == self.bearing@[3].is_nan());
        assert(self.axis_place(0) + self.axis_place(1) + self.axis_place(2) + self.axis_place(3)
            == 6);
    }

    proof fn lemma_search_order(&self)
        ensures
            self.search_order().len() == 16,
            forall|n: int| 0 <= n < 16 ==> 0 <= #[trigger] self.search_order()[n] < 16,
    {
        assert forall|n: int| 0 <= n < 16 implies 0 <= #[trigger] self.search_order()[n] < 16 by {
            assert(0 <= n / 8 < 2);
            assert(0 <= self.nth_axis((n % 8) / 2) < 4);
        }
    }

    /// The axes in the order this tank prefers them.
    fn axis_order(&self) -> (order: [usize; 4])
        requires
            self.valid(),
        ensures
            forall|k: int| 0 <= k < 4 ==> #[trigger] order@[k] == self.nth_axis(k),
    {
        let mut order: [usize; 4] = [0;4];
        let mut b: usize = 0;
        proof {
            self.lemma_axes();
        }
        while b < 4
            invariant
                b <= 4,
                self.valid(),
                forall|a: int| 0 <= a < 4 ==> 0 <= #[trigger] self.axis_place(a) < 4,
                forall|x: int, y: int|
                    0 <= x < 4 && 0 <= y < 4 && x != y ==> #[trigger] self.axis_place(x)
                        != #[trigger] self.axis_place(y),
                forall|a: int| 0 <= a < b ==> order@[#[trigger] self.axis_place(a)] == a,
            decreases 4 - b,
        {
            let mut place: usize = 0;
            let mut a: usize = 0;
            while a < 4
                invariant
                    a <= 4,
                    b < 4,
                    self.valid(),
                    place <= a,
                    a == 0 ==> place == 0,
                    a == 1 ==> place == (if self.prefers(0, b as int) { 1int } else { 0 }),
                    a == 2 ==> place == (if self.prefers(0, b as int) { 1int } else { 0 }) + (
                    if self.prefers(1, b as int) { 1int } else { 0 }),
                    a == 3 ==> place == (if self.prefers(0, b as int) { 1int } else { 0 }) + (
                    if self.prefers(1, b as int) { 1int } else { 0 }) + (if self.prefers(
                        2,
                        b as int,
                    ) { 1int } else { 0 }),
                    a == 4 ==> place == self.axis_place(b as int),
                decreases 4 - a,
            {
                let x: Scalar = self.bearing[a];
                let y: Scalar = self.bearing[b];
                if y.lt(x) || (!x.lt(y) && a < b) {
                    place += 1;
                }
                a += 1;
            }
            order[place] = b;
            b += 1;
        }
        assert forall|k: int| 0 <= k < 4 implies #[trigger] order@[k] == self.nth_axis(k) by {
            let a = self.nth_axis(k);
            assert(self.axis_place(a) == k);
        }
        order
    }
}

impl Board {
    proof fn lemma_trail(self, c: &Contender)
        requires
            self.wf(),
        ensures
            self.trail(c).len() == (if self.choice.contains_key(c.entity) { 17int } else { 16 }),
            forall|k: int|
                0 <= k < self.trail(c).len() ==> 0 <= #[trigger] self.trail(c)[k] < 16,
    {
        c.lemma_search_order();
        if self.choice.contains_key(c.entity) {
            let held = self.choice[c.entity];
            assert(held.valid());
            assert forall|k: int| 0 <= k < self.trail(c).len() implies 0 <= #[trigger] self.trail(
                c,
            )[k] < 16 by {
                if k > 0 {
                    assert(self.trail(c)[k] == c.search_order()[k - 1]);
                }
            }
        }
    }

    /// Looking at slots only fills in what was seen from them.
    proof fn lemma_looked(self, ctx: &EngageCtx, c: &Contender, k: int)
        requires
            self.wf(),
            k <= self.trail(c).len(),
        ensures
            self.looked(ctx, c, k).len() == 16,
            forall|i: int|
                0 <= i < 16 ==> (#[trigger] self.looked(ctx, c, k)[i]).point == self.slots[i].point,
            forall|i: int|
                0 <= i < 16 ==> (#[trigger] self.looked(ctx, c, k)[i]).claimed_by
                    == self.slots[i].claimed_by,
            forall|i: int|
                0 <= i < 16 ==> #[trigger] sight(self.looked(ctx, c, k), ctx, i) == sight(
                    self.slots,
                    ctx,
                    i,
                ),
        decreases k,
    {
        if k > 0 {
            self.lemma_looked(ctx, c, k - 1);
            self.lemma_trail(c);
        }
    }

    proof fn lemma_count(self, ctx: &EngageCtx, c: &Contender, v: Verdict, k: int)
        ensures
            self.count(ctx, c, v, k) <= (if k > 0 { k } else { 0 }),
        decreases k,
    {
        if k > 0 {
            self.lemma_count(ctx, c, v, k - 1);
        }
    }

    proof fn lemma_stop(self, ctx: &EngageCtx, c: &Contender, from: int)
        requires
            0 <= from <= self.trail(c).len(),
        ensures
            from <= self.stop(ctx, c, from) <= self.trail(c).len(),
            self.stop(ctx, c, from) < self.trail(c).len() ==> self.verdict(
                ctx,
                c,
                self.trail(c)[self.stop(ctx, c, from)],
            ) == Verdict::Open,
            forall|k: int|
                from <= k < self.stop(ctx, c, from) ==> self.verdict(
                    ctx,
                    c,
                    #[trigger] self.trail(c)[k],
                ) != Verdict::Open,
        decreases self.trail(c).len() - from,
    {
        if from < self.trail(c).len() && self.verdict(ctx, c, self.trail(c)[from])
            != Verdict::Open {
            self.lemma_stop(ctx, c, from + 1);
        }
    }
}

/// Try one slot for a tank, remembering what was seen from it.
fn try_slot(
    slots: &mut [SlotReport; 16],
    claimed: &[bool; 16],
    ctx: &EngageCtx,
    c: &Contender,
    i: usize,
    Ghost(b): Ghost<Board>,
    Ghost(k): Ghost<int>,
) -> (v: Verdict)
    requires
        b.wf(),
        0 <= k < b.trail(c).len(),
        b.trail(c)[k] == i,
        i < 16,
        claimed@ == b.claimed,
        old(slots)@ == b.looked(ctx, c, k),
    ensures
        v == b.verdict(ctx, c, i as int),
        final(slots)@ == b.looked(ctx, c, k + 1),
{
    proof {
        b.lemma_looked(ctx, c, k);
        assert(sight(b.looked(ctx, c, k), ctx, i as int) == sight(b.slots, ctx, i as int));
    }
    let slot: SlotReport = slots[i];
    if claimed[i] {
        Verdict::Claimed
    } else if slot.point.is_none() {
        Verdict::OffMap
    } else if !c.reachable[i] {
        Verdict::Unreachable
    } else {
        let seen: bool = match slot.line_of_sight {
            Some(seen) => seen,
            None => ctx.line_of_sight[i],
        };
        slots[i] = SlotReport { line_of_sight: Some(seen), ..slot };
        assert(slots@ =~= b.looked(ctx, c, k + 1));
        if seen {
            Verdict::Open
        } else {
            Verdict::NoLineOfSight
        }
    }
}

/// The working state held by a ring, a claim table and a report.
pub open spec fn board(ring: &EngageRing, claimed: Seq<bool>, report: &EngageReport) -> Board {
    Board { claimed, slots: report.slots@, choice: ring.held(), tanks: report.tanks@ }
}

impl EngageRing {
    /// One tank takes its turn.
    fn take_turn(
        &mut self,
        c: &Contender,
        ctx: &EngageCtx,
        claimed: &mut [bool; 16],
        report: &mut EngageReport,
    )
        requires
            old(self).wf(),
            c.valid(),
        ensures
            final(self).wf(),
            final(report).built == old(report).built,
            board(final(self), final(claimed)@, final(report)) == board(
                old(self),
                old(claimed)@,
                old(report),
            ).turn(ctx, c),
    {
        let ghost b = board(self, claimed@, report);
        proof {
            b.lemma_trail(c);
            c.lemma_search_order();
            c.lemma_axes();
        }
        let held: Option<EngageSlot> = match self.choice.get(&c.entity) {
            Some(slot) => Some(*slot),
            None => None,
        };
        let order: [usize; 4] = c.axis_order();
        let lead: usize = if held.is_some() {
            1
        } else {
            0
        };
        let mut chosen: Option<usize> = None;
        let mut rejected: Rejections = Rejections {
            claimed: 0,
            off_map: 0,
            unreachable: 0,
            no_los: 0,
        };
        let mut k: usize = 0;
        while chosen.is_none() && k < lead + 16
            invariant
                b.wf(),
                lead == (if held is Some { 1int } else { 0 }),
                held is Some == b.choice.contains_key(c.entity),
                held matches Some(slot) ==> slot == b.choice[c.entity],
                k <= lead + 16 == b.trail(c).len(),
                forall|j: int| 0 <= j < b.trail(c).len() ==> 0 <= #[trigger] b.trail(c)[j] < 16,
                forall|j: int| 0 <= j < 4 ==> #[trigger] order@[j] == c.nth_axis(j),
                forall|j: int| 0 <= j < 4 ==> 0 <= #[trigger] c.nth_axis(j) < 4,
                claimed@ == b.claimed,
                rejected.claimed == b.count(ctx, c, Verdict::Claimed, k as int),
                rejected.off_map == b.count(ctx, c, Verdict::OffMap, k as int),
                rejected.unreachable == b.count(ctx, c, Verdict::Unreachable, k as int),
                rejected.no_los == b.count(ctx, c, Verdict::NoLineOfSight, k as int),
                chosen is None ==> report.slots@ == b.looked(ctx, c, k as int) && b.stop(ctx, c, 0)
                    == b.stop(ctx, c, k as int),
                chosen matches Some(i) ==> k < b.trail(c).len() && i == b.trail(c)[k as int]
                    && b.stop(ctx, c, 0) == k && report.slots@ == b.looked(ctx, c, k + 1),
                report.tanks@ == b.tanks,
                report.built == old(report).built,
            decreases lead + 16 - k, (if chosen is None { 1int } else { 0 }),
        {
            let i: usize = match held {
                Some(slot) if k == 0 => slot.index(),
                _ => {
                    let n: usize = k - lead;
                    let axis: usize = order[(n % 8) / 2];
                    let plus: bool = Scalar::zero().le(c.lateral[axis]);
                    assert(b.trail(c)[k as int] == c.search_order()[n as int]);
                    axis * 4 + (n / 8) * 2 + (if plus == (n % 2 == 0) {
                        1
                    } else {
                        0
                    })
                },
            };
            proof {
                b.lemma_count(ctx, c, Verdict::Claimed, k as int);
                b.lemma_count(ctx, c, Verdict::OffMap, k as int);
                b.lemma_count(ctx, c, Verdict::Unreachable, k as int);
                b.lemma_count(ctx, c, Verdict::NoLineOfSight, k as int);
            }
            let v: Verdict = try_slot(&mut report.slots, claimed, ctx, c, i, Ghost(b), Ghost(k as int));
            match v {
                Verdict::Open => {
                    chosen = Some(i);
                },
                Verdict::Claimed => {
                    rejected.claimed = rejected.claimed + 1;
                    k += 1;
                },
                Verdict::OffMap => {
                    rejected.off_map = rejected.off_map + 1;
                    k += 1;
                },
                Verdict::Unreachable => {
                    rejected.unreachable = rejected.unreachable + 1;
                    k += 1;
                },
                Verdict::NoLineOfSight => {
                    rejected.no_los = rejected.no_los + 1;
                    k += 1;
                },
            }
        }
        let sticky: bool = held.is_some() && chosen.is_some() && k == 0;
        let mut slot: Option<EngageSlot> = None;
        let mut target: Option<Point> = None;
        proof {
            b.lemma_looked(ctx, c, k as int);
            if chosen is Some {
                b.lemma_looked(ctx, c, k + 1);
            }
        }
        match chosen {
            Some(i) => {
                let s: EngageSlot = EngageSlot::from_index(i);
                claimed[i] = true;
                target = report.slots[i].point;
                report.slots[i] = SlotReport { claimed_by: Some(c.entity), ..report.slots[i] };
                self.choice.insert(c.entity, s);
                slot = Some(s);
            },
            None => {
                self.choice.remove(&c.entity);
            },
        }
        let at: usize = report.find(c.entity);
        if at < report.tanks.len() {
            let t: EngageTank = report.tanks[at];
            report.tanks.set(at, EngageTank { slot, target, sticky, rejected, ..t });
        }
        assert(board(self, claimed@, report) =~= b.turn(ctx, c));
    }

    /// Assign one target point to each tank in `engaged` (callers pass these
    /// sorted by entity so the greedy order is stable frame to frame). A tank
    /// keeps the slot it holds while that is still open; otherwise it takes
    /// the first open slot in its search order, any firing slot before any
    /// reserve slot. A tank that finds none gets no target, and steers at the
    /// player directly.
    ///
    /// Results land in `report`, whose `tanks` the caller fills beforehand
    /// (one entry per enemy; an engaged entity without one is still assigned,
    /// just not reported).
    pub fn assign(
        &mut self,
        engaged: &Vec<Contender>,
        ctx: &EngageCtx,
        report: &mut EngageReport,
    )
        requires
            old(self).wf(),
            forall|n: int| 0 <= n < engaged@.len() ==> (#[trigger] engaged@[n]).valid(),
        ensures
            final(self).wf(),
            final(report).built,
            ({
                let end = old(self).start(ctx, old(report)).turns(
                    ctx,
                    engaged@,
                    engaged@.len() as int,
                );
                &&& final(self).held() == end.choice
                &&& final(report).slots@ == end.slots
                &&& final(report).tanks@ == end.tanks
            }),
    {
        let ghost b = self.start(ctx, report);
        report.built = true;
        let mut i: usize = 0;
        while i < 16
            invariant
                i <= 16,
                report.built,
                self.held() == b.choice,
                self.wf(),
                report.tanks@ == b.tanks,
                b == old(self).start(ctx, old(report)),
                forall|j: int| 0 <= j < i ==> #[trigger] report.slots@[j] == b.slots[j],
                forall|j: int|
                    i <= j < 16 ==> #[trigger] report.slots@[j] == old(report).slots@[j],
            decreases 16 - i,
        {
            report.slots[i] = SlotReport { point: ctx.points[i], ..report.slots[i] };
            i += 1;
        }
        let mut claimed: [bool; 16] = [false;16];
        assert(board(self, claimed@, report) =~= b);
        let mut n: usize = 0;
        while n < engaged.len()
            invariant
                n <= engaged@.len(),
                self.wf(),
                report.built,
                forall|j: int| 0 <= j < engaged@.len() ==> (#[trigger] engaged@[j]).valid(),
                board(self, claimed@, report) == b.turns(ctx, engaged@, n as int),
            decreases engaged@.len() - n,
        {
            self.take_turn(&engaged[n], ctx, &mut claimed, report);
            n += 1;
        }
    }
}

impl Board {
    pub(crate) proof fn lemma_turn(self, ctx: &EngageCtx, c: &Contender)
        requires
            self.wf(),
        ensures
            self.turn(ctx, c).wf(),
            forall|i: int|
                0 <= i < 16 && self.claimed[i] ==> #[trigger] self.turn(ctx, c).claimed[i],
            self.settled(ctx, c) matches Some(i) ==> 0 <= i < 16 && !self.claimed[i] && self.turn(
                ctx,
                c,
            ).claimed[i],
    {
        self.lemma_trail(c);
        self.lemma_stop(ctx, c, 0);
        let k = self.stop(ctx, c, 0);
        self.lemma_looked(ctx, c, k);
        if k < self.trail(c).len() {
            self.lemma_looked(ctx, c, k + 1);
            slot_index_round_trip(EngageSlot::at(0), self.trail(c)[k]);
        }
    }

    proof fn lemma_turns(self, ctx: &EngageCtx, engaged: Seq<Contender>, j: int, k: int)
        requires
            self.wf(),
            0 <= j <= k,
        ensures
            self.turns(ctx, engaged, j).wf(),
            self.turns(ctx, engaged, k).wf(),
            forall|i: int|
                0 <= i < 16 && self.turns(ctx, engaged, j).claimed[i] ==> #[trigger] self.turns(
                    ctx,
                    engaged,
                    k,
                ).claimed[i],
        decreases k,
    {
        if j < k {
            self.lemma_turns(ctx, engaged, j, k - 1);
            self.turns(ctx, engaged, k - 1).lemma_turn(ctx, &engaged[k - 1]);
        } else if k > 0 {
            self.lemma_turns(ctx, engaged, k - 1, k - 1);
            self.turns(ctx, engaged, k - 1).lemma_turn(ctx, &engaged[k - 1]);
        }
    }
}

/// Mutual exclusion: in one assignment no slot goes to two tanks.
pub proof fn no_slot_is_given_twice(
    b: Board,
    ctx: &EngageCtx,
    engaged: Seq<Contender>,
    j: int,
    k: int,
)
    requires
        b.wf(),
        0 <= j < k < engaged.len(),
    ensures
        b.turns(ctx, engaged, j).settled(ctx, &engaged[j]) is Some ==> b.turns(
            ctx,
            engaged,
            k,
        ).settled(ctx, &engaged[k]) != b.turns(ctx, engaged, j).settled(ctx, &engaged[j]),
{
    b.lemma_turns(ctx, engaged, j, j + 1);
    b.lemma_turns(ctx, engaged, j + 1, k);
    b.turns(ctx, engaged, j).lemma_turn(ctx, &engaged[j]);
    b.turns(ctx, engaged, k).lemma_turn(ctx, &engaged[k]);
    if let Some(i) = b.turns(ctx, engaged, j).settled(ctx, &engaged[j]) {
        assert(b.turns(ctx, engaged, j + 1).claimed[i]);
        assert(b.turns(ctx, engaged, k).claimed[i]);
    }
}

/// Stickiness: a tank whose held slot is still open keeps it, whatever else
/// is open, and says so.
pub proof fn an_open_held_slot_is_kept(b: Board, ctx: &EngageCtx, c: &Contender)
    requires
        b.wf(),
        b.choice.contains_key(c.entity),
        b.verdict(ctx, c, b.choice[c.entity].place()) == Verdict::Open,
    ensures
        b.stuck(ctx, c),
        b.settled(ctx, c) == Some(b.choice[c.entity].place()),
        b.turn(ctx, c).choice[c.entity] == b.choice[c.entity],
{
    b.lemma_trail(c);
    assert(b.trail(c)[0] == b.choice[c.entity].place());
    slot_index_round_trip(b.choice[c.entity], 0);
}

/// Every slot is somewhere in a tank's search.
proof fn lemma_search_covers(c: &Contender, i: int) -> (n: int)
    requires
        c.valid(),
        0 <= i < 16,
    ensures
        0 <= n < 16,
        c.search_order()[n] == i,
        n / 8 == (i / 2) % 2,
{
    c.lemma_axes();
    let axis = i / 4;
    let rank = (i / 2) % 2;
    let near = if c.plus_side(axis) { i % 2 == 1 } else { i % 2 == 0 };
    let k = c.axis_place(axis);
    let n = rank * 8 + k * 2 + (if near { 0int } else { 1 });
    assert(c.nth_axis(k) == axis) by {
        assert(c.axis_place(c.nth_axis(k)) == k);
    }
    assert(n / 8 == rank);
    assert((n % 8) / 2 == k);
    n
}

/// A tank settles on a slot exactly when some slot is open to it, and then
/// on an open one: on the field, reachable, in sight of the player and
/// unclaimed. A tank that holds no open slot takes a reserve slot only when
/// no firing slot is open.
pub proof fn a_tank_settles_on_an_open_slot(b: Board, ctx: &EngageCtx, c: &Contender)
    requires
        b.wf(),
        c.valid(),
    ensures
        b.settled(ctx, c) matches Some(i) ==> 0 <= i < 16 && b.verdict(ctx, c, i) == Verdict::Open,
        b.settled(ctx, c) is None <==> forall|i: int|
            0 <= i < 16 ==> #[trigger] b.verdict(ctx, c, i) != Verdict::Open,
        b.settled(ctx, c) matches Some(i) && !b.stuck(ctx, c) && EngageSlot::at(i).rank == 1
            ==> forall|f: int|
            0 <= f < 16 && EngageSlot::at(f).rank == 0 ==> #[trigger] b.verdict(ctx, c, f)
                != Verdict::Open,
{
    b.lemma_trail(c);
    b.lemma_stop(ctx, c, 0);
    let k = b.stop(ctx, c, 0);
    let lead: int = if b.choice.contains_key(c.entity) { 1 } else { 0 };
    if b.settled(ctx, c) is None {
        assert forall|i: int| 0 <= i < 16 implies #[trigger] b.verdict(ctx, c, i)
            != Verdict::Open by {
            let n = lemma_search_covers(c, i);
            assert(b.trail(c)[lead + n] == c.search_order()[n]);
        }
    } else {
        let i = b.trail(c)[k];
        if !b.stuck(ctx, c) && EngageSlot::at(i).rank == 1 {
            assert forall|f: int| 0 <= f < 16 && EngageSlot::at(f).rank == 0 implies
                #[trigger] b.verdict(ctx, c, f) != Verdict::Open by {
                let n = lemma_search_covers(c, f);
                assert(b.trail(c)[lead + n] == c.search_order()[n]);
                assert(b.trail(c)[k] == c.search_order()[k - lead]);
                let m = k - lead;
                assert(0 <= c.nth_axis((m % 8) / 2) < 4);
                assert(m / 8 == 1);
                assert(n < m);
            }
        }
    }
}

/// No tank is engaged twice.
pub open spec fn engaged_once(engaged: Seq<Contender>) -> bool {
    forall|i: int, j: int|
        0 <= i < j < engaged.len() ==> (#[trigger] engaged[i]).entity != (#[trigger] engaged[j]).entity
}

/// The slot the tank in place `n` was given.
pub open spec fn given(b: Board, ctx: &EngageCtx, engaged: Seq<Contender>, n: int) -> Option<int> {
    b.turns(ctx, engaged, n).settled(ctx, &engaged[n])
}

/// Nobody was turned away.
pub open spec fn no_rejections() -> Rejections {
    Rejections { claimed: 0, off_map: 0, unreachable: 0, no_los: 0 }
}

proof fn lemma_given_stays(b: Board, ctx: &EngageCtx, engaged: Seq<Contender>, n: int, k: int)
    requires
        b.wf(),
        engaged_once(engaged),
        0 <= n < k <= engaged.len(),
        given(b, ctx, engaged, n) is Some,
    ensures
        0 <= given(b, ctx, engaged, n)->0 < 16,
        b.turns(ctx, engaged, k).choice.contains_key(engaged[n].entity),
        b.turns(ctx, engaged, k).choice[engaged[n].entity] == EngageSlot::at(
            given(b, ctx, engaged, n)->0,
        ),
    decreases k,
{
    b.lemma_turns(ctx, engaged, n, n);
    b.turns(ctx, engaged, n).lemma_turn(ctx, &engaged[n]);
    if n < k - 1 {
        lemma_given_stays(b, ctx, engaged, n, k - 1);
        assert(engaged[n].entity != engaged[k - 1].entity);
    }
}

/// What holds after `n` turns of an assignment in which everybody keeps what
/// it holds.
spec fn keeping(
    second: Board,
    later: &EngageCtx,
    again: Seq<Contender>,
    slots: Seq<int>,
    n: int,
) -> bool {
    let now = second.turns(later, again, n);
    &&& now.wf()
    &&& now.choice == second.choice
    &&& forall|i: int|
        0 <= i < 16 && #[trigger] now.claimed[i] ==> exists|m: int|
            0 <= m < n && #[trigger] slots[m] == i
    &&& forall|i: int| 0 <= i < 16 ==> (#[trigger] now.slots[i]).point == second.slots[i].point
    &&& forall|i: int|
        0 <= i < 16 ==> #[trigger] sight(now.slots, later, i) == sight(second.slots, later, i)
    &&& now.tanks.len() == second.tanks.len()
    &&& forall|k: int|
        0 <= k < now.tanks.len() ==> (#[trigger] now.tanks[k]).entity == second.tanks[k].entity
    &&& forall|m: int|
        #![trigger again[m]]
        0 <= m < n && find_tank(second.tanks, again[m].entity) < second.tanks.len()
            ==> now.tanks[find_tank(second.tanks, again[m].entity)] == (EngageTank {
            slot: Some(EngageSlot::at(slots[m])),
            target: second.slots[slots[m]].point,
            sticky: true,
            rejected: no_rejections(),
            ..second.tanks[find_tank(second.tanks, again[m].entity)]
        })
    &&& forall|k: int|
        0 <= k < now.tanks.len() && (forall|m: int|
            0 <= m < n ==> find_tank(second.tanks, (#[trigger] again[m]).entity) != k)
            ==> #[trigger] now.tanks[k] == second.tanks[k]
}

proof fn lemma_same_names(a: Seq<EngageTank>, b: Seq<EngageTank>, entity: u64)
    requires
        a.len() == b.len(),
        forall|k: int| 0 <= k < a.len() ==> (#[trigger] a[k]).entity == b[k].entity,
    ensures
        find_tank(a, entity) == find_tank(b, entity),
{
    lemma_find_tank(a, entity);
    lemma_find_tank(b, entity);
    let (x, y) = (find_tank(a, entity), find_tank(b, entity));
    if x < y {
        assert(a[x].entity == b[x].entity);
    } else if y < x {
        assert(a[y].entity == b[y].entity);
    }
}

/// One more turn of such an assignment.
proof fn lemma_keeps(
    second: Board,
    later: &EngageCtx,
    again: Seq<Contender>,
    slots: Seq<int>,
    n: int,
)
    requires
        second.wf(),
        engaged_once(again),
        slots.len() == again.len(),
        0 <= n < again.len(),
        keeping(second, later, again, slots, n),
        forall|i: int, j: int| 0 <= i < j < slots.len() ==> #[trigger] slots[i] != #[trigger] slots[j],
        second.choice.contains_key(again[n].entity),
        0 <= slots[n] < 16,
        second.choice[again[n].entity] == EngageSlot::at(slots[n]),
        !second.claimed[slots[n]],
        second.verdict(later, &again[n], slots[n]) == Verdict::Open,
    ensures
        ({
            let now = second.turns(later, again, n);
            &&& now.stuck(later, &again[n])
            &&& now.settled(later, &again[n]) == Some(slots[n])
            &&& now.rejections(later, &again[n]) == no_rejections()
        }),
        keeping(second, later, again, slots, n + 1),
{
    let now = second.turns(later, again, n);
    let c = &again[n];
    let i = slots[n];
    slot_index_round_trip(EngageSlot::at(i), i);
    assert(!now.claimed[i]) by {
        if now.claimed[i] {
            let m = choose|m: int| 0 <= m < n && #[trigger] slots[m] == i;
            assert(slots[m] != slots[n]);
        }
    }
    assert(now.slots[i].point == second.slots[i].point);
    assert(sight(now.slots, later, i) == sight(second.slots, later, i));
    assert(now.verdict(later, c, i) == Verdict::Open);
    an_open_held_slot_is_kept(now, later, c);
    assert(now.stop(later, c, 0) == 0);
    let next = now.turn(later, c);
    assert(second.turns(later, again, n + 1) == next);
    now.lemma_turn(later, c);
    now.lemma_trail(c);
    now.lemma_looked(later, c, 1);
    let looked = now.looked(later, c, 1);
    assert(next.choice =~= second.choice);
    assert forall|j: int| 0 <= j < 16 && #[trigger] next.claimed[j] implies exists|m: int|
        0 <= m < n + 1 && #[trigger] slots[m] == j by {
        if j == i {
            assert(slots[n] == j);
        } else {
            assert(now.claimed[j]);
        }
    }
    assert forall|j: int| 0 <= j < 16 implies #[trigger] sight(next.slots, later, j) == sight(
        second.slots,
        later,
        j,
    ) by {
        assert(sight(looked, later, j) == sight(now.slots, later, j));
    }
    assert forall|j: int| 0 <= j < 16 implies (#[trigger] next.slots[j]).point
        == second.slots[j].point by {
        assert(looked[j].point == now.slots[j].point);
    }
    let at = find_tank(second.tanks, c.entity);
    lemma_same_names(now.tanks, second.tanks, c.entity);
    lemma_find_tank(second.tanks, c.entity);
    assert forall|m: int| 0 <= m < n implies find_tank(second.tanks, (#[trigger] again[m]).entity)
        != at || at >= second.tanks.len() by {
        lemma_find_tank(second.tanks, again[m].entity);
        assert(again[m].entity != again[n].entity);
    }
    if at < second.tanks.len() {
        assert(now.tanks[at] == second.tanks[at]);
    }
    assert forall|m: int|
        #![trigger again[m]]
        0 <= m < n + 1 && find_tank(second.tanks, again[m].entity) < second.tanks.len() implies
        next.tanks[find_tank(second.tanks, again[m].entity)] == (EngageTank {
        slot: Some(EngageSlot::at(slots[m])),
        target: second.slots[slots[m]].point,
        sticky: true,
        rejected: no_rejections(),
        ..second.tanks[find_tank(second.tanks, again[m].entity)]
    }) by {
        lemma_find_tank(second.tanks, again[m].entity);
    }
    assert forall|k: int|
        0 <= k < next.tanks.len() && (forall|m: int|
            0 <= m < n + 1 ==> find_tank(second.tanks, (#[trigger] again[m]).entity) != k) implies
        #[trigger] next.tanks[k] == second.tanks[k] by {
        assert(find_tank(second.tanks, again[n].entity) != k);
        assert(now.tanks[k] == second.tanks[k]);
    }
}

proof fn lemma_all_keep(
    second: Board,
    later: &EngageCtx,
    again: Seq<Contender>,
    slots: Seq<int>,
    n: int,
)
    requires
        second.wf(),
        engaged_once(again),
        slots.len() == again.len(),
        0 <= n <= again.len(),
        forall|i: int, j: int| 0 <= i < j < slots.len() ==> #[trigger] slots[i] != #[trigger] slots[j],
        forall|i: int| 0 <= i < 16 ==> !(#[trigger] second.claimed[i]),
        forall|k: int|
            0 <= k < slots.len() ==> {
                &&& 0 <= #[trigger] slots[k] < 16
                &&& second.choice.contains_key(again[k].entity)
                &&& second.choice[again[k].entity] == EngageSlot::at(slots[k])
                &&& second.verdict(later, &again[k], slots[k]) == Verdict::Open
            },
    ensures
        keeping(second, later, again, slots, n),
    decreases n,
{
    if n > 0 {
        lemma_all_keep(second, later, again, slots, n - 1);
        assert(0 <= slots[n - 1] < 16);
        lemma_keeps(second, later, again, slots, n - 1);
    }
}

/// Stickiness from one assignment to the next: where every tank was given a
/// slot, the same tanks come in the same order, and each finds its slot still
/// on the field, reachable and in sight, every one of them keeps its slot, is
/// sent to that slot's point, is told that it stuck to it, and nothing was
/// rejected on the way.
pub proof fn slots_are_kept_from_one_assignment_to_the_next(
    first: Board,
    ctx: &EngageCtx,
    engaged: Seq<Contender>,
    second: Board,
    later: &EngageCtx,
    again: Seq<Contender>,
    n: int,
)
    requires
        first.wf(),
        second.wf(),
        engaged_once(engaged),
        again.len() == engaged.len(),
        forall|k: int| 0 <= k < again.len() ==> (#[trigger] again[k]).entity == engaged[k].entity,
        forall|k: int| 0 <= k < engaged.len() ==> #[trigger] given(first, ctx, engaged, k) is Some,
        second.choice == first.turns(ctx, engaged, engaged.len() as int).choice,
        forall|i: int| 0 <= i < 16 ==> !(#[trigger] second.claimed[i]),
        forall|k: int|
            0 <= k < again.len() ==> second.verdict(
                later,
                &again[k],
                (#[trigger] given(first, ctx, engaged, k))->0,
            ) == Verdict::Open,
        0 <= n < again.len(),
    ensures
        ({
            let slot = given(first, ctx, engaged, n)->0;
            let now = second.turns(later, again, n);
            let end = second.turns(later, again, again.len() as int);
            let at = find_tank(second.tanks, again[n].entity);
            &&& now.stuck(later, &again[n])
            &&& given(second, later, again, n) == Some(slot)
            &&& now.rejections(later, &again[n]) == no_rejections()
            &&& end.choice[again[n].entity] == EngageSlot::at(slot)
            &&& at < second.tanks.len() ==> end.tanks[at] == (EngageTank {
                slot: Some(EngageSlot::at(slot)),
                target: second.slots[slot].point,
                sticky: true,
                rejected: no_rejections(),
                ..second.tanks[at]
            })
        }),
{
    let count = engaged.len() as int;
    let slots = Seq::new(engaged.len(), |k: int| given(first, ctx, engaged, k)->0);
    assert(engaged_once(again)) by {
        assert forall|i: int, j: int| 0 <= i < j < again.len() implies (#[trigger] again[i]).entity
            != (#[trigger] again[j]).entity by {
            assert(engaged[i].entity != engaged[j].entity);
        }
    }
    assert forall|k: int| 0 <= k < slots.len() implies {
        &&& 0 <= #[trigger] slots[k] < 16
        &&& second.choice.contains_key(again[k].entity)
        &&& second.choice[again[k].entity] == EngageSlot::at(slots[k])
        &&& second.verdict(later, &again[k], slots[k]) == Verdict::Open
    } by {
        assert(given(first, ctx, engaged, k) is Some);
        lemma_given_stays(first, ctx, engaged, k, count);
    }
    assert forall|i: int, j: int| 0 <= i < j < slots.len() implies #[trigger] slots[i]
        != #[trigger] slots[j] by {
        assert(given(first, ctx, engaged, i) is Some && given(first, ctx, engaged, j) is Some);
        no_slot_is_given_twice(first, ctx, engaged, i, j);
    }
    lemma_all_keep(second, later, again, slots, n);
    assert(0 <= slots[n] < 16);
    lemma_keeps(second, later, again, slots, n);
    lemma_all_keep(second, later, again, slots, count);
    assert(again[n].entity == engaged[n].entity);
}

/// A slot is open to a tank when nobody has taken it, it lies on the field, a
/// route leads there, and the player is in sight from it, by what was seen from
/// it before or else by what is measured; and what keeps it from being open is
/// said in that order.
pub proof fn a_slot_is_open_to_a_tank(b: Board, ctx: &EngageCtx, c: &Contender, i: int)
    ensures
        ({
            let seen = if b.slots[i].line_of_sight is Some {
                b.slots[i].line_of_sight->0
            } else {
                ctx.line_of_sight@[i]
            };
            let there = b.slots[i].point is Some;
            let v = b.verdict(ctx, c, i);
            &&& v is Open <==> !b.claimed[i] && there && c.reachable@[i] && seen
            &&& v is Claimed <==> b.claimed[i]
            &&& v is OffMap <==> !b.claimed[i] && !there
            &&& v is Unreachable <==> !b.claimed[i] && there && !c.reachable@[i]
            &&& v is NoLineOfSight <==> !b.claimed[i] && there && c.reachable@[i] && !seen
        }),
{
}

/// The order in which a tank tries the ring: the firing line before the
/// reserve, the axes it stands closest to before the others, and on each axis
/// the side it stands on before the far one.
pub proof fn a_tank_tries_what_is_nearest_first(c: &Contender, n: int)
    requires
        c.valid(),
        0 <= n < 16,
    ensures
        ({
            let order = c.search_order();
            let slot = EngageSlot::at(order[n]);
            &&& order.len() == 16
            &&& 0 <= order[n] < 16 && slot.valid() && slot.place() == order[n]
            &&& slot.rank == (if n < 8 {
                0int
            } else {
                1
            })
            &&& n % 2 == 0 ==> (slot.side == 1 <==> Scalar::zero().at_most(
                c.lateral@[slot.axis as int],
            ))
            &&& n % 2 == 1 ==> (slot.side == 1 <==> !Scalar::zero().at_most(
                c.lateral@[slot.axis as int],
            ))
            &&& n % 2 == 0 ==> EngageSlot::at(order[n + 1]).axis == slot.axis
            &&& n % 8 < 6 ==> {
                let next = EngageSlot::at(order[n + 2]);
                &&& !c.bearing@[slot.axis as int].below(c.bearing@[next.axis as int])
                &&& next.axis != slot.axis
                &&& !c.bearing@[next.axis as int].below(c.bearing@[slot.axis as int]) ==> slot.axis
                    < next.axis
            }
        }),
{
    assert(0 <= c.nth_axis((n % 8) / 2) < 4);
    let axis = c.nth_axis((n % 8) / 2);
    let low = axis * 4 + (n / 8) * 2;
    assert(c.search_order()[n] == low || c.search_order()[n] == low + 1);
    slot_index_round_trip(EngageSlot::at(c.search_order()[n]), c.search_order()[n]);
    assert(0 <= n / 8 < 2);
    if n % 2 == 0 {
        assert((n + 1) % 8 / 2 == n % 8 / 2);
        assert((n + 1) / 8 == n / 8);
        assert(0 <= c.search_order()[n + 1] - low <= 1);
        slot_index_round_trip(EngageSlot::at(c.search_order()[n + 1]), c.search_order()[n + 1]);
    }
    if n % 8 < 6 {
        let next = c.nth_axis((n % 8) / 2 + 1);
        assert((n + 2) % 8 / 2 == n % 8 / 2 + 1);
        assert((n + 2) / 8 == n / 8);
        let high = next * 4 + (n / 8) * 2;
        assert(c.search_order()[n + 2] == high || c.search_order()[n + 2] == high + 1);
        slot_index_round_trip(EngageSlot::at(c.search_order()[n + 2]), c.search_order()[n + 2]);
    }
}

/// A tank that settles on a slot holds it from that turn on: the slot is
/// taken, in its name, and the tank is sent to the slot's point; one that
/// settles on none holds none and is sent nowhere. Nobody else is told anything
/// new.
pub proof fn a_turn_is_reported(b: Board, ctx: &EngageCtx, c: &Contender)
    requires
        b.wf(),
        c.valid(),
    ensures
        ({
            let now = b.turn(ctx, c);
            let at = find_tank(b.tanks, c.entity);
            &&& now.tanks.len() == b.tanks.len()
            &&& forall|k: int|
                0 <= k < b.tanks.len() && b.tanks[k].entity != c.entity ==> #[trigger] now.tanks[k]
                    == b.tanks[k]
            &&& forall|e: u64|
                e != c.entity ==> (#[trigger] now.choice.contains_key(e) <==> b.choice.contains_key(
                    e,
                )) && (b.choice.contains_key(e) ==> now.choice[e] == b.choice[e])
            &&& match b.settled(ctx, c) {
                Some(i) => {
                    &&& 0 <= i < 16 && now.claimed[i]
                    &&& now.slots[i].claimed_by == Some(c.entity)
                    &&& now.choice.contains_key(c.entity) && now.choice[c.entity].place() == i
                    &&& at < b.tanks.len() ==> now.tanks[at].slot is Some && (
                    now.tanks[at].slot->0).place() == i && now.tanks[at].target == b.slots[i].point
                        && now.tanks[at].entity == c.entity
                },
                None => {
                    &&& now.claimed == b.claimed
                    &&& !now.choice.contains_key(c.entity)
                    &&& at < b.tanks.len() ==> now.tanks[at].slot is None && now.tanks[at].target
                        is None && now.tanks[at].entity == c.entity
                },
            }
        }),
{
    b.lemma_turn(ctx, c);
    lemma_find_tank(b.tanks, c.entity);
    a_tank_settles_on_an_open_slot(b, ctx, c);
    let k = b.stop(ctx, c, 0);
    if b.settled(ctx, c) is Some {
        let i = b.settled(ctx, c)->0;
        b.lemma_looked(ctx, c, k + 1);
        slot_index_round_trip(EngageSlot::at(i), i);
    }
}

/// An assignment starts with every slot free and at the point measured for it.
pub proof fn an_assignment_starts_with_a_free_ring(
    held: Map<u64, EngageSlot>,
    ctx: &EngageCtx,
    report: &EngageReport,
    i: int,
)
    requires
        0 <= i < 16,
    ensures
        ({
            let b = Board::opening(held, ctx, report);
            &&& !b.claimed[i] && b.slots[i].point == ctx.points@[i]
            &&& b.choice == held && b.tanks == report.tanks@
        }),
{
}

} // verus!
