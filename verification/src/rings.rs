//! The engagement rings of a frame: who competes on which, in what order the
//! rings are dealt, and the one report every reader consults.
//!
//! The host says where a ring's slots lie, how a tank stands to them and
//! whether it could drive straight at the frog.

use vstd::prelude::*;

use crate::enemies::{
    engage_slot_events, entered, entries, merge_outcomes, merged, ring_entrants, ring_wanted,
    roster, slot_changes, slots_valid, Entrant, Fighter, Ring,
};
use crate::engage::{
    blank_slot, find_tank, Board, Contender, EngageCtx, EngageReport, EngageRing, EngageSlot,
    EngageTank,
};
use crate::frame::Frame;
use crate::game::Game;
use crate::kinds::MAX_SEATS;
use crate::ranking::ranked;
use crate::scalar::Scalar;

verus! {

/// A ring and its contenders as the host measured them.
pub open spec fn ring_met<K: Fn(Ring, u64) -> Contender, X: Fn(Ring) -> EngageCtx>(
    contend: K,
    context: X,
    which: Ring,
    who: Seq<Entrant>,
    ctx: EngageCtx,
    cs: Seq<Contender>,
) -> bool {
    &&& call_ensures(context, (which,), ctx)
    &&& cs.len() == who.len()
    &&& forall|i: int|
        0 <= i < who.len() ==> call_ensures(contend, (which, who[i].entity), #[trigger] cs[i])
}

/// A ring was dealt to its entrants: who holds what afterwards, and what the
/// report says.
pub open spec fn ring_run<K: Fn(Ring, u64) -> Contender, X: Fn(Ring) -> EngageCtx>(
    contend: K,
    context: X,
    which: Ring,
    who: Seq<Entrant>,
    held: Map<u64, EngageSlot>,
    report: EngageReport,
    held_after: Map<u64, EngageSlot>,
    after: EngageReport,
) -> bool {
    exists|ctx: EngageCtx, cs: Seq<Contender>|
        {
            let end = Board::opening(held, &ctx, &report).turns(&ctx, cs, cs.len() as int);
            &&& #[trigger] ring_met(contend, context, which, who, ctx, cs)
            &&& after.built
            &&& held_after == end.choice
            &&& after.slots@ == end.slots
            &&& after.tanks@ == end.tanks
        }
}

/// A list of entrants holds an entity.
pub open spec fn enters(who: Seq<Entrant>, entity: u64) -> bool {
    exists|i: int| 0 <= i < who.len() && (#[trigger] who[i]).entity == entity
}

/// Those of the first `n` reported tanks that are among the entrants.
pub open spec fn entries_of(tanks: Seq<EngageTank>, who: Seq<Entrant>, n: int) -> Seq<EngageTank>
    decreases n,
{
    if n <= 0 {
        Seq::empty()
    } else if enters(who, tanks[n - 1].entity) {
        entries_of(tanks, who, n - 1).push(tanks[n - 1])
    } else {
        entries_of(tanks, who, n - 1)
    }
}

/// A report that keeps no slot table of its own.
pub open spec fn side_report(tanks: Seq<EngageTank>, report: EngageReport) -> bool {
    &&& !report.built
    &&& report.tanks@ == tanks
    &&& forall|i: int| 0 <= i < 16 ==> report.slots@[i] == blank_slot()
}

/// A ring past the first was dealt: its slot table is not kept, its outcomes
/// are merged into the one report.
pub open spec fn side_run<K: Fn(Ring, u64) -> Contender, X: Fn(Ring) -> EngageCtx>(
    contend: K,
    context: X,
    which: Ring,
    who: Seq<Entrant>,
    held: Map<u64, EngageSlot>,
    report: EngageReport,
    held_after: Map<u64, EngageSlot>,
    after: EngageReport,
) -> bool {
    exists|side: EngageReport, dealt: EngageReport|
        {
            &&& side_report(
                entries_of(report.tanks@, who, report.tanks@.len() as int),
                side,
            )
            &&& #[trigger] ring_run(contend, context, which, who, held, side, held_after, dealt)
            &&& after.tanks@ == merged(report.tanks@, dealt.tanks@, dealt.tanks@.len() as int)
            &&& after.slots == report.slots
            &&& after.built == report.built
        }
}

/// Every contender can be measured, and its bearings ordered.
pub open spec fn contends_well<K: Fn(Ring, u64) -> Contender>(contend: K) -> bool {
    &&& forall|r: Ring, e: u64| call_requires(contend, (r, e))
    &&& forall|r: Ring, e: u64, c: Contender| #[trigger]
        call_ensures(contend, (r, e), c) ==> c.valid()
}

proof fn lemma_turns_valid(b: Board, ctx: &EngageCtx, cs: Seq<Contender>, n: int)
    requires
        b.wf(),
        slots_valid(b.tanks),
        0 <= n <= cs.len(),
    ensures
        b.turns(ctx, cs, n).wf(),
        slots_valid(b.turns(ctx, cs, n).tanks),
    decreases n,
{
    if n > 0 {
        lemma_turns_valid(b, ctx, cs, n - 1);
        let now = b.turns(ctx, cs, n - 1);
        now.lemma_turn(ctx, &cs[n - 1]);
        let next = now.turn(ctx, &cs[n - 1]);
        assert forall|i: int| 0 <= i < next.tanks.len() implies ((
        #[trigger] next.tanks[i]).slot matches Some(s) ==> s.valid()) by {
            crate::engage::lemma_find_tank(now.tanks, cs[n - 1].entity);
            if i != find_tank(now.tanks, cs[n - 1].entity) {
                assert(next.tanks[i] == now.tanks[i]);
            } else if let Some(k) = now.settled(ctx, &cs[n - 1]) {
                crate::engage::slot_index_round_trip(EngageSlot::at(0), k);
            }
        }
    }
}

proof fn lemma_merged_valid(tanks: Seq<EngageTank>, other: Seq<EngageTank>, n: int)
    requires
        slots_valid(tanks),
        slots_valid(other),
        0 <= n <= other.len(),
    ensures
        slots_valid(merged(tanks, other, n)),
    decreases n,
{
    if n > 0 {
        lemma_merged_valid(tanks, other, n - 1);
        let now = merged(tanks, other, n - 1);
        let next = merged(tanks, other, n);
        crate::engage::lemma_find_tank(now, other[n - 1].entity);
        assert forall|i: int| 0 <= i < next.len() implies ((
        #[trigger] next[i]).slot matches Some(s) ==> s.valid()) by {
            if i != find_tank(now, other[n - 1].entity) {
                assert(next[i] == now[i]);
            } else {
                assert(next[i] == other[n - 1]);
            }
        }
    }
}

proof fn lemma_entries_of_valid(tanks: Seq<EngageTank>, who: Seq<Entrant>, n: int)
    requires
        slots_valid(tanks),
        0 <= n <= tanks.len(),
    ensures
        slots_valid(entries_of(tanks, who, n)),
    decreases n,
{
    if n > 0 {
        lemma_entries_of_valid(tanks, who, n - 1);
        let now = entries_of(tanks, who, n - 1);
        let next = entries_of(tanks, who, n);
        assert(tanks[n - 1].slot matches Some(s) ==> s.valid());
        assert forall|i: int| 0 <= i < next.len() implies ((
        #[trigger] next[i]).slot matches Some(s) ==> s.valid()) by {
            if i < now.len() {
                assert(next[i] == now[i]);
            }
        }
    }
}

/// Deal one ring to its entrants.
pub fn run_ring<K: Fn(Ring, u64) -> Contender, X: Fn(Ring) -> EngageCtx>(
    ring: &mut EngageRing,
    which: Ring,
    who: &Vec<Entrant>,
    contend: &K,
    context: &X,
    report: &mut EngageReport,
)
    requires
        old(ring).wf(),
        contends_well(*contend),
        call_requires(*context, (which,)),
        slots_valid(old(report).tanks@),
    ensures
        final(ring).wf(),
        slots_valid(final(report).tanks@),
        ring_run(
            *contend,
            *context,
            which,
            who@,
            old(ring).held(),
            *old(report),
            final(ring).held(),
            *final(report),
        ),
{
    let ctx: EngageCtx = context(which);
    let mut cs: Vec<Contender> = Vec::new();
    let mut n: usize = 0;
    while n < who.len()
        invariant
            n <= who@.len(),
            cs@.len() == n,
            contends_well(*contend),
            forall|i: int|
                0 <= i < n ==> call_ensures(
                    *contend,
                    (which, who@[i].entity),
                    #[trigger] cs@[i],
                ) && cs@[i].valid(),
        decreases who@.len() - n,
    {
        let c: Contender = contend(which, who[n].entity);
        cs.push(c);
        n += 1;
    }
    ring.assign(&cs, &ctx, report);
    proof {
        assert(ring_met(*contend, *context, which, who@, ctx, cs@));
        let opening = old(ring).start(&ctx, old(report));
        assert(opening.wf());
        lemma_turns_valid(opening, &ctx, cs@, cs@.len() as int);
    }
}

fn is_entered(who: &Vec<Entrant>, entity: u64) -> (r: bool)
    ensures
        r == enters(who@, entity),
{
    let mut i: usize = 0;
    while i < who.len()
        invariant
            i <= who@.len(),
            forall|j: int| 0 <= j < i ==> (#[trigger] who@[j]).entity != entity,
        decreases who@.len() - i,
    {
        if who[i].entity == entity {
            assert(who@[i as int].entity == entity);
            return true;
        }
        i += 1;
    }
    false
}

/// Deal a ring past the first, and merge what it decided.
pub fn run_side_ring<K: Fn(Ring, u64) -> Contender, X: Fn(Ring) -> EngageCtx>(
    ring: &mut EngageRing,
    which: Ring,
    who: &Vec<Entrant>,
    contend: &K,
    context: &X,
    report: &mut EngageReport,
)
    requires
        old(ring).wf(),
        contends_well(*contend),
        call_requires(*context, (which,)),
        slots_valid(old(report).tanks@),
    ensures
        final(ring).wf(),
        slots_valid(final(report).tanks@),
        side_run(
            *contend,
            *context,
            which,
            who@,
            old(ring).held(),
            *old(report),
            final(ring).held(),
            *final(report),
        ),
{
    let mut side: EngageReport = EngageReport::default();
    let mut n: usize = 0;
    while n < report.tanks.len()
        invariant
            n <= report.tanks@.len(),
            *report == *old(report),
            side_report(entries_of(report.tanks@, who@, n as int), side),
        decreases report.tanks@.len() - n,
    {
        if is_entered(who, report.tanks[n].entity) {
            side.tanks.push(report.tanks[n]);
        }
        n += 1;
    }
    proof {
        lemma_entries_of_valid(report.tanks@, who@, report.tanks@.len() as int);
    }
    let ghost blank = side;
    run_ring(ring, which, who, contend, context, &mut side);
    merge_outcomes(report, &side.tanks);
    proof {
        lemma_merged_valid(old(report).tanks@, side.tanks@, side.tanks@.len() as int);
        assert(ring_run(
            *contend,
            *context,
            which,
            who@,
            old(ring).held(),
            blank,
            ring.held(),
            side,
        ));
    }
}

/// One seat's ring this frame: dealt if at least two compete for it, and left
/// alone otherwise. The first seat's table is the one the report keeps.
pub open spec fn seat_step<K: Fn(Ring, u64) -> Contender, X: Fn(Ring) -> EngageCtx>(
    contend: K,
    context: X,
    es: Seq<Fighter>,
    seats: int,
    seat: int,
    flee: Scalar,
    view_range: Scalar,
    held: Map<u64, EngageSlot>,
    report: EngageReport,
    held_after: Map<u64, EngageSlot>,
    after: EngageReport,
) -> bool {
    let which = Ring::Seat(seat as usize);
    let who = ranked(entered(es, which, seats, flee, view_range, es.len() as int));
    if who.len() < 2 {
        held_after == held && after == report
    } else if seat == 0 {
        ring_run(contend, context, which, who, held, report, held_after, after)
    } else {
        side_run(contend, context, which, who, held, report, held_after, after)
    }
}

/// The rings of the first `n` seats were dealt in seat order, by way of the
/// report after each.
pub open spec fn seats_dealt<K: Fn(Ring, u64) -> Contender, X: Fn(Ring) -> EngageCtx>(
    contend: K,
    context: X,
    es: Seq<Fighter>,
    seats: int,
    flee: Scalar,
    view_range: Scalar,
    rings: Seq<EngageRing>,
    after: Seq<EngageRing>,
    reports: Seq<EngageReport>,
    n: int,
) -> bool {
    &&& reports.len() == n + 1
    &&& after.len() == rings.len()
    &&& forall|s: int|
        0 <= s < n ==> seat_step(
            contend,
            context,
            es,
            seats,
            s,
            flee,
            view_range,
            rings[s].held(),
            reports[s],
            (#[trigger] after[s]).held(),
            reports[s + 1],
        )
    &&& forall|s: int| n <= s < rings.len() ==> #[trigger] after[s] == rings[s]
}

/// Whether some entrant has no straight way to the frog, as `blocked` says.
pub open spec fn someone_blocked<B: Fn(u64) -> bool>(
    blocked: B,
    who: Seq<Entrant>,
    r: bool,
) -> bool {
    if r {
        exists|i: int|
            0 <= i < who.len() && call_ensures(blocked, ((#[trigger] who[i]).entity,), true)
    } else {
        forall|i: int|
            0 <= i < who.len() ==> call_ensures(blocked, ((#[trigger] who[i]).entity,), false)
    }
}

/// The frog's ring this frame: dealt while there is a quarry and either two
/// compete or one of them cannot drive straight at it.
pub open spec fn frog_step<
    K: Fn(Ring, u64) -> Contender,
    X: Fn(Ring) -> EngageCtx,
    B: Fn(u64) -> bool,
>(
    contend: K,
    context: X,
    blocked: B,
    es: Seq<Fighter>,
    seats: int,
    quarry: bool,
    flee: Scalar,
    view_range: Scalar,
    held: Map<u64, EngageSlot>,
    report: EngageReport,
    held_after: Map<u64, EngageSlot>,
    after: EngageReport,
) -> bool {
    let who = ranked(entered(es, Ring::Frog, seats, flee, view_range, es.len() as int));
    exists|stuck: bool|
        {
            &&& #[trigger] someone_blocked(blocked, who, stuck)
            &&& if quarry && (who.len() >= 2 || stuck) {
                side_run(contend, context, Ring::Frog, who, held, report, held_after, after)
            } else {
                held_after == held && after == report
            }
        }
}

fn any_blocked<B: Fn(u64) -> bool>(blocked: &B, who: &Vec<Entrant>) -> (r: bool)
    requires
        forall|e: u64| call_requires(*blocked, (e,)),
    ensures
        someone_blocked(*blocked, who@, r),
{
    let mut i: usize = 0;
    while i < who.len()
        invariant
            i <= who@.len(),
            forall|e: u64| call_requires(*blocked, (e,)),
            forall|j: int|
                0 <= j < i ==> call_ensures(*blocked, ((#[trigger] who@[j]).entity,), false),
        decreases who@.len() - i,
    {
        if blocked(who[i].entity) {
            assert(call_ensures(*blocked, (who@[i as int].entity,), true));
            return true;
        }
        i += 1;
    }
    false
}

/// The frame's rings, by way of the report after each of them.
pub open spec fn rings_frame<
    K: Fn(Ring, u64) -> Contender,
    X: Fn(Ring) -> EngageCtx,
    B: Fn(u64) -> bool,
>(
    contend: K,
    context: X,
    blocked: B,
    es: Seq<Fighter>,
    seats: int,
    quarry: bool,
    flee: Scalar,
    view_range: Scalar,
    before: Game,
    reports: Seq<EngageReport>,
    after: Game,
) -> bool {
    &&& side_report(ranked(entries(es, flee, view_range, es.len() as int)), reports[0])
    &&& seats_dealt(
        contend,
        context,
        es,
        seats,
        flee,
        view_range,
        before.pack.rings@,
        after.pack.rings@,
        reports,
        seats,
    )
    &&& frog_step(
        contend,
        context,
        blocked,
        es,
        seats,
        quarry,
        flee,
        view_range,
        before.pack.frog_ring.held(),
        reports[seats],
        after.pack.frog_ring.held(),
        after.pack.report,
    )
}

proof fn lemma_fresh_valid(es: Seq<Fighter>, flee: Scalar, view_range: Scalar, n: int)
    requires
        0 <= n <= es.len(),
    ensures
        entries(es, flee, view_range, n).len() == n,
        forall|i: int| 0 <= i < n ==> (#[trigger] entries(es, flee, view_range, n)[i]).slot is None,
    decreases n,
{
    if n > 0 {
        lemma_fresh_valid(es, flee, view_range, n - 1);
        let now = entries(es, flee, view_range, n - 1);
        let next = entries(es, flee, view_range, n);
        assert forall|i: int| 0 <= i < n implies (#[trigger] next[i]).slot is None by {
            if i < n - 1 {
                assert(next[i] == now[i]);
            }
        }
    }
}

impl Game {
    /// Deal the frame's engagement rings: one per seat in seat order, and the
    /// frog's. Every enemy is on the report with its status, by round slot;
    /// `seats` is how many players there are. With a trace, whoever holds
    /// another slot than last frame is recorded.
    pub fn assign_rings<
        K: Fn(Ring, u64) -> Contender,
        X: Fn(Ring) -> EngageCtx,
        B: Fn(u64) -> bool,
    >(
        &mut self,
        f: &mut Frame,
        es: &Vec<Fighter>,
        seats: usize,
        quarry: bool,
        flee: Scalar,
        view_range: Scalar,
        contend: &K,
        context: &X,
        blocked: &B,
        trace: bool,
    )
        requires
            old(self).wf(),
            0 < seats <= MAX_SEATS,
            contends_well(*contend),
            forall|r: Ring| call_requires(*context, (r,)),
            forall|e: u64| call_requires(*blocked, (e,)),
        ensures
            final(self).wf(),
            exists|reports: Seq<EngageReport>| #[trigger]
                rings_frame(
                    *contend,
                    *context,
                    *blocked,
                    es@,
                    seats as int,
                    quarry,
                    flee,
                    view_range,
                    *old(self),
                    reports,
                    *final(self),
                ),
            final(f)@ == (if trace {
                slot_changes(
                    old(f)@,
                    old(self).pack.report,
                    final(self).pack.report.tanks@,
                    final(self).pack.report.tanks@.len() as int,
                )
            } else {
                old(f)@
            }),
            final(self).pack.commander == old(self).pack.commander,
            final(self).round == old(self).round,
            final(self).field == old(self).field,
            final(self).ground == old(self).ground,
            final(self).show == old(self).show,
            final(self).events == old(self).events,
            final(self).debug_kills == old(self).debug_kills,
    {
        let mut report: EngageReport = EngageReport::default();
        report.tanks = roster(es, flee, view_range);
        let ghost mut reports: Seq<EngageReport> = seq![report];
        proof {
            let list = entries(es@, flee, view_range, es@.len() as int);
            lemma_fresh_valid(es@, flee, view_range, es@.len() as int);
            crate::ranking::ranking_sorts(list);
            assert forall|i: int| 0 <= i < report.tanks@.len() implies ((
            #[trigger] report.tanks@[i]).slot matches Some(s) ==> s.valid()) by {
                crate::ranking::same_members(report.tanks@, list, i);
                assert(list.contains(report.tanks@[i]));
            }
        }
        let mut seat: usize = 0;
        while seat < seats
            invariant
                seat <= seats <= MAX_SEATS,
                0 < seats,
                contends_well(*contend),
                forall|r: Ring| call_requires(*context, (r,)),
                self.wf(),
                slots_valid(report.tanks@),
                reports.len() == seat + 1,
                reports[seat as int] == report,
                side_report(
                    ranked(entries(es@, flee, view_range, es@.len() as int)),
                    reports[0],
                ),
                seats_dealt(
                    *contend,
                    *context,
                    es@,
                    seats as int,
                    flee,
                    view_range,
                    old(self).pack.rings@,
                    self.pack.rings@,
                    reports,
                    seat as int,
                ),
                self.pack.frog_ring == old(self).pack.frog_ring,
                self.pack.report == old(self).pack.report,
                self.pack.commander == old(self).pack.commander,
                self.round == old(self).round,
                self.field == old(self).field,
                self.ground == old(self).ground,
                self.show == old(self).show,
                self.events == old(self).events,
                self.debug_kills == old(self).debug_kills,
            decreases seats - seat,
        {
            let ghost (were, rings) = (reports, self.pack.rings@);
            let which: Ring = Ring::Seat(seat);
            let who: Vec<Entrant> = ring_entrants(es, which, seats, flee, view_range);
            assert(self.pack.rings@[seat as int].wf());
            if ring_wanted(which, quarry, who.len(), false) {
                if seat == 0 {
                    run_ring(
                        &mut self.pack.rings[seat],
                        which,
                        &who,
                        contend,
                        context,
                        &mut report,
                    );
                } else {
                    run_side_ring(
                        &mut self.pack.rings[seat],
                        which,
                        &who,
                        contend,
                        context,
                        &mut report,
                    );
                }
            }
            proof {
                reports = reports.push(report);
                assert(rings[seat as int] == old(self).pack.rings@[seat as int]);
                assert forall|s: int| 0 <= s < MAX_SEATS implies (
                #[trigger] self.pack.rings@[s]).wf() by {
                    if s != seat {
                        assert(self.pack.rings@[s] == rings[s]);
                    }
                }
                assert forall|s: int| 0 <= s < seat + 1 implies seat_step(
                    *contend,
                    *context,
                    es@,
                    seats as int,
                    s,
                    flee,
                    view_range,
                    old(self).pack.rings@[s].held(),
                    reports[s],
                    (#[trigger] self.pack.rings@[s]).held(),
                    reports[s + 1],
                ) by {
                    if s < seat {
                        assert(self.pack.rings@[s] == rings[s]);
                        assert(reports[s] == were[s]);
                        assert(reports[s + 1] == were[s + 1]);
                    }
                }
                assert forall|s: int|
                    seat + 1 <= s < rings.len() implies #[trigger] self.pack.rings@[s]
                    == old(self).pack.rings@[s] by {
                    assert(self.pack.rings@[s] == rings[s]);
                }
            }
            seat += 1;
        }
        let who: Vec<Entrant> = ring_entrants(es, Ring::Frog, seats, flee, view_range);
        let stuck: bool = any_blocked(blocked, &who);
        if ring_wanted(Ring::Frog, quarry, who.len(), stuck) {
            run_side_ring(
                &mut self.pack.frog_ring,
                Ring::Frog,
                &who,
                contend,
                context,
                &mut report,
            );
        }
        if trace {
            engage_slot_events(f, &self.pack.report, &report);
        }
        self.pack.report = report;
        assert(rings_frame(
            *contend,
            *context,
            *blocked,
            es@,
            seats as int,
            quarry,
            flee,
            view_range,
            *old(self),
            reports,
            *self,
        ));
    }
}

/// The ring around a seat is dealt once two compete for it, and nothing changes
/// for fewer.
pub proof fn two_contenders_make_a_ring<
    K: Fn(Ring, u64) -> Contender,
    X: Fn(Ring) -> EngageCtx,
>(
    contend: K,
    context: X,
    es: Seq<Fighter>,
    seats: int,
    seat: int,
    flee: Scalar,
    view_range: Scalar,
    held: Map<u64, EngageSlot>,
    report: EngageReport,
    held_after: Map<u64, EngageSlot>,
    after: EngageReport,
    who: Seq<Entrant>,
)
    requires
        who == ranked(
            entered(es, Ring::Seat(seat as usize), seats, flee, view_range, es.len() as int),
        ),
        seat_step(
            contend,
            context,
            es,
            seats,
            seat,
            flee,
            view_range,
            held,
            report,
            held_after,
            after,
        ),
    ensures
        who.len() <= 1 ==> held_after == held && after == report,
        who.len() >= 2 && seat == 0 ==> after.built && exists|ctx: EngageCtx, cs: Seq<Contender>|
            #[trigger] ring_met(contend, context, Ring::Seat(0), who, ctx, cs) && held_after
                == Board::opening(held, &ctx, &report).turns(&ctx, cs, cs.len() as int).choice,
        who.len() >= 2 && seat != 0 ==> after.slots == report.slots && after.built == report.built
            && side_run(
            contend,
            context,
            Ring::Seat(seat as usize),
            who,
            held,
            report,
            held_after,
            after,
        ),
{
}

/// The ring around the frog is dealt while there is a frog to go for and either
/// two compete for it or a lone hunter cannot drive straight at it; otherwise
/// nothing changes.
pub proof fn a_frog_worth_surrounding_gets_a_ring<
    K: Fn(Ring, u64) -> Contender,
    X: Fn(Ring) -> EngageCtx,
    B: Fn(u64) -> bool,
>(
    contend: K,
    context: X,
    blocked: B,
    es: Seq<Fighter>,
    seats: int,
    quarry: bool,
    flee: Scalar,
    view_range: Scalar,
    held: Map<u64, EngageSlot>,
    report: EngageReport,
    held_after: Map<u64, EngageSlot>,
    after: EngageReport,
    who: Seq<Entrant>,
)
    requires
        who == ranked(entered(es, Ring::Frog, seats, flee, view_range, es.len() as int)),
        frog_step(
            contend,
            context,
            blocked,
            es,
            seats,
            quarry,
            flee,
            view_range,
            held,
            report,
            held_after,
            after,
        ),
    ensures
        !quarry ==> held_after == held && after == report,
        quarry && who.len() >= 2 ==> side_run(
            contend,
            context,
            Ring::Frog,
            who,
            held,
            report,
            held_after,
            after,
        ),
        quarry && who.len() == 1 && !call_ensures(blocked, (who[0].entity,), false) ==> side_run(
            contend,
            context,
            Ring::Frog,
            who,
            held,
            report,
            held_after,
            after,
        ),
        who.len() == 1 && !call_ensures(blocked, (who[0].entity,), true) ==> held_after == held
            && after == report,
        who.len() == 0 ==> held_after == held && after == report,
        after.built == report.built && after.slots == report.slots,
{
    let stuck = choose|stuck: bool|
        {
            &&& #[trigger] someone_blocked(blocked, who, stuck)
            &&& if quarry && (who.len() >= 2 || stuck) {
                side_run(contend, context, Ring::Frog, who, held, report, held_after, after)
            } else {
                held_after == held && after == report
            }
        };
    assert(someone_blocked(blocked, who, stuck));
    if who.len() == 1 {
        if stuck {
            let i = choose|i: int|
                0 <= i < who.len() && call_ensures(blocked, ((#[trigger] who[i]).entity,), true);
            assert(i == 0);
        } else {
            assert(call_ensures(blocked, (who[0].entity,), false));
        }
    }
}

/// A ring past the first is dealt to the reports of its own contenders, all of
/// them and nobody else's.
pub proof fn a_side_ring_is_dealt_to_its_own(
    tanks: Seq<EngageTank>,
    who: Seq<Entrant>,
    n: int,
    k: int,
)
    requires
        0 <= k < n <= tanks.len(),
    ensures
        (exists|i: int| 0 <= i < who.len() && (#[trigger] who[i]).entity == tanks[k].entity)
            ==> entries_of(tanks, who, n).contains(tanks[k]),
        forall|p: int|
            0 <= p < entries_of(tanks, who, n).len() ==> exists|i: int|
                0 <= i < who.len() && (#[trigger] who[i]).entity == (#[trigger] entries_of(
                    tanks,
                    who,
                    n,
                )[p]).entity,
    decreases n,
{
    let before = entries_of(tanks, who, n - 1);
    let now = entries_of(tanks, who, n);
    if n > 1 {
        a_side_ring_is_dealt_to_its_own(tanks, who, n - 1, if k < n - 1 {
            k
        } else {
            0
        });
    }
    assert forall|p: int| 0 <= p < now.len() implies exists|i: int|
        0 <= i < who.len() && (#[trigger] who[i]).entity == (#[trigger] now[p]).entity by {
        if p < before.len() {
            assert(now[p] == before[p]);
        } else {
            assert(enters(who, tanks[n - 1].entity));
        }
    }
    if enters(who, tanks[k].entity) {
        if k == n - 1 {
            assert(now[now.len() - 1] == tanks[k]);
        } else {
            let p = choose|p: int| 0 <= p < before.len() && before[p] == tanks[k];
            assert(now[p] == tanks[k]);
        }
    }
}

} // verus!
