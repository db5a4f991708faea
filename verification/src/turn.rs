//! The pack's turn: it looks, every enemy thinks, the commander has its say,
//! and only after that does anyone drive.
//!
//! The host measures, traces lines and runs the minds; the order of things and
//! what each step hands to the next are decided here.

use vstd::prelude::*;

use crate::command::{covers, obeys_all, standing, CommandCtx, Commander, UnitView};
use crate::comms::Unit;
use crate::enemies::{
    ai_transition_events, alert_told, enemy_fires, mind_changes, nearest_sighting, renamed,
    slot_changes, AiMemory, Fighter, PlayerView, Quarry, Ring,
};
use crate::engage::{Contender, EngageCtx, EngageReport};
use crate::field::{selects, thing, Kind};
use crate::flame::seated;
use crate::frame::{Frame, Record, Scene};
use crate::game::{keeps_identities, lemma_identities, Game, Pack, Round};
use crate::kinds::{Intent, Owner, MAX_SEATS};
use crate::perception::{fighters_of, home_of, live_frog, retarget_done, seats_seen};
use crate::pieces::{Piece, Tank};
use crate::ranking::ranked;
use crate::rings::{contends_well, rings_frame};
use crate::scalar::{Point, Scalar};
use crate::thinking::{brief_for, briefed, commanded, planning_order, Brief, Traced};
use crate::travel::fights;

verus! {

/// The pack's senses, in the host's numbers.
#[derive(Clone, Copy, Debug, PartialEq, Eq, Structural)]
pub struct PackRules {
    pub view_range: Scalar,
    /// How far from its frog a guard lets its player be.
    pub leash: Scalar,
    /// The damage from which a tank flees.
    pub flee: Scalar,
    /// How long a sighting is remembered, and what is left of the last one
    /// once this frame's time is taken off.
    pub hold: Scalar,
    pub decayed: Scalar,
    /// Record what the pack decides.
    pub trace: bool,
}

/// How far every enemy is from every player.
pub open spec fn sightings<D: Fn(Point, Point) -> Scalar>(
    dist: D,
    views: Seq<PlayerView>,
    enemies: Seq<(u64, Tank)>,
    far: Seq<Vec<Scalar>>,
) -> bool {
    far.len() == views.len() && forall|i: int|
        0 <= i < views.len() ==> row_of(dist, views[i], enemies, (#[trigger] far[i])@)
}

/// How far every enemy is from one player.
pub open spec fn row_of<D: Fn(Point, Point) -> Scalar>(
    dist: D,
    view: PlayerView,
    enemies: Seq<(u64, Tank)>,
    row: Seq<Scalar>,
) -> bool {
    row.len() == enemies.len() && forall|j: int|
        0 <= j < enemies.len() ==> call_ensures(
            dist,
            (enemies[j].1.position, view.position),
            #[trigger] row[j],
        )
}

fn sighted<D: Fn(Point, Point) -> Scalar>(
    dist: &D,
    views: &Vec<PlayerView>,
    enemies: &Vec<(u64, Tank)>,
) -> (far: Vec<Vec<Scalar>>)
    requires
        forall|a: Point, b: Point| call_requires(*dist, (a, b)),
    ensures
        sightings(*dist, views@, enemies@, far@),
{
    let mut far: Vec<Vec<Scalar>> = Vec::new();
    let mut i: usize = 0;
    while i < views.len()
        invariant
            i <= views@.len(),
            far@.len() == i,
            forall|a: Point, b: Point| call_requires(*dist, (a, b)),
            forall|k: int| 0 <= k < i ==> row_of(*dist, views@[k], enemies@, (#[trigger] far@[k])@),
        decreases views@.len() - i,
    {
        let mut row: Vec<Scalar> = Vec::new();
        let mut j: usize = 0;
        while j < enemies.len()
            invariant
                i < views@.len(),
                j <= enemies@.len(),
                row@.len() == j,
                forall|a: Point, b: Point| call_requires(*dist, (a, b)),
                forall|k: int|
                    0 <= k < j ==> call_ensures(
                        *dist,
                        (enemies@[k].1.position, views@[i as int].position),
                        #[trigger] row@[k],
                    ),
            decreases enemies@.len() - j,
        {
            row.push(dist(enemies[j].1.position, views[i].position));
            j += 1;
        }
        far.push(row);
        i += 1;
    }
    far
}

/// The alert once the pack has looked.
pub open spec fn looked(
    round: Round,
    views: Seq<PlayerView>,
    far: Seq<Vec<Scalar>>,
    rules: PackRules,
) -> Round {
    let seen = match nearest_sighting(views, far, rules.view_range, views.len() as int) {
        Some((_, i)) => Some(views[i].position),
        None => None,
    };
    Round { alert: round.alert.after(seen, rules.decayed, rules.hold), ..round }
}

/// The pack has looked around: by way of the field and the record once
/// everyone had settled on whom to fight, the distances, the fighters and the
/// reports of the rings.
pub open spec fn surveyed<
    H: Fn(Point) -> bool,
    D: Fn(Point, Point) -> Scalar,
    W: Fn(Scalar) -> Scalar,
    K: Fn(Ring, u64) -> Contender,
    X: Fn(Ring) -> EngageCtx,
    B: Fn(u64) -> bool,
>(
    hides: H,
    dist: D,
    widen: W,
    contend: K,
    context: X,
    blocked: B,
    rules: PackRules,
    before: Game,
    told: Record,
    views: Seq<PlayerView>,
    settled: Scene,
    enemies: Seq<(u64, Tank)>,
    far: Seq<Vec<Scalar>>,
    es: Seq<Fighter>,
    reports: Seq<EngageReport>,
    after: Game,
    record: Record,
) -> bool {
    let quarry = live_frog(settled.pieces, before.round.frog);
    let home = home_of(settled.pieces, before.round.enemy_frog);
    let alerted = alert_told(
        settled.record,
        before.round.alert.known(),
        after.round.alert.known(),
        rules.trace,
        views[0].position,
    );
    &&& seats_seen(hides, before.field@, before.round.seats@, views, MAX_SEATS as int)
    &&& retarget_done(
        dist,
        widen,
        views,
        rules.trace,
        Scene { pieces: before.field@, record: told },
        settled,
    )
    &&& after.field@ == settled.pieces
    &&& selects::<Tank>(settled.pieces, fights(), enemies)
    &&& sightings(dist, views, enemies, far)
    &&& after.round == looked(before.round, views, far, rules)
    &&& fighters_of(dist, views, settled.pieces, quarry, home, rules.leash, es)
    &&& rings_frame(
        contend,
        context,
        blocked,
        es,
        views.len() as int,
        quarry is Some,
        rules.flee,
        rules.view_range,
        before,
        reports,
        after,
    )
    &&& record == (if rules.trace {
        slot_changes(
            alerted,
            before.pack.report,
            after.pack.report.tanks@,
            after.pack.report.tanks@.len() as int,
        )
    } else {
        alerted
    })
}

impl Game {
    /// The pack looks around before anyone thinks: whom each enemy fights,
    /// where a player was last seen, and who holds which engagement slot.
    /// Returns the players as the enemies see them.
    pub fn survey<
        H: Fn(Point) -> bool,
        D: Fn(Point, Point) -> Scalar,
        W: Fn(Scalar) -> Scalar,
        K: Fn(Ring, u64) -> Contender,
        X: Fn(Ring) -> EngageCtx,
        B: Fn(u64) -> bool,
    >(
        &mut self,
        f: &mut Frame,
        rules: &PackRules,
        hides: &H,
        dist: &D,
        widen: &W,
        contend: &K,
        context: &X,
        blocked: &B,
    ) -> (views: Vec<PlayerView>)
        requires
            old(self).wf(),
            seated(old(self).round.seats@, MAX_SEATS as int).len() > 0,
            forall|p: Point| call_requires(*hides, (p,)),
            forall|a: Point, b: Point| call_requires(*dist, (a, b)),
            forall|d: Scalar| call_requires(*widen, (d,)),
            contends_well(*contend),
            forall|r: Ring| call_requires(*context, (r,)),
            forall|e: u64| call_requires(*blocked, (e,)),
        ensures
            final(self).wf(),
            0 < views@.len() <= MAX_SEATS,
            exists|
                settled: Scene,
                enemies: Seq<(u64, Tank)>,
                far: Seq<Vec<Scalar>>,
                es: Seq<Fighter>,
                reports: Seq<EngageReport>,
            | #[trigger]
                surveyed(
                    *hides,
                    *dist,
                    *widen,
                    *contend,
                    *context,
                    *blocked,
                    *rules,
                    *old(self),
                    old(f)@,
                    views@,
                    settled,
                    enemies,
                    far,
                    es,
                    reports,
                    *final(self),
                    final(f)@,
                ),
            final(self).pack.commander == old(self).pack.commander,
            final(self).ground == old(self).ground,
            final(self).show == old(self).show,
            final(self).events == old(self).events,
            final(self).debug_kills == old(self).debug_kills,
    {
        let views: Vec<PlayerView> = self.player_views(hides);
        self.retarget_all(f, &views, dist, widen, rules.trace);
        let ghost settled = Scene { pieces: self.field@, record: f@ };
        let enemies: Vec<(u64, Tank)> = self.fighting();
        let far: Vec<Vec<Scalar>> = sighted(dist, &views, &enemies);
        self.refresh_alert(
            f,
            &views,
            &far,
            rules.view_range,
            rules.decayed,
            rules.hold,
            rules.trace,
        );
        let quarry: Option<Quarry> = self.quarry();
        let es: Vec<Fighter> = self.fighters(&views, rules.leash, dist);
        let ghost mid = *self;
        self.assign_rings(
            f,
            &es,
            views.len(),
            quarry.is_some(),
            rules.flee,
            rules.view_range,
            contend,
            context,
            blocked,
            rules.trace,
        );
        proof {
            let reports = choose|reports: Seq<EngageReport>| #[trigger]
                rings_frame(
                    *contend,
                    *context,
                    *blocked,
                    es@,
                    views@.len() as int,
                    quarry is Some,
                    rules.flee,
                    rules.view_range,
                    mid,
                    reports,
                    *self,
                );
            assert(rings_frame(
                *contend,
                *context,
                *blocked,
                es@,
                views@.len() as int,
                quarry is Some,
                rules.flee,
                rules.view_range,
                *old(self),
                reports,
                *self,
            ));
            assert(surveyed(
                *hides,
                *dist,
                *widen,
                *contend,
                *context,
                *blocked,
                *rules,
                *old(self),
                old(f)@,
                views@,
                settled,
                enemies@,
                far@,
                es@,
                reports,
                *self,
                f@,
            ));
        }
        views
    }
}

/// What came of one enemy's thinking.
#[derive(Clone, Copy, Debug)]
pub struct Thought {
    /// The tank, aimed and its queued shots ticked: a shot flies along the
    /// hull, so that does not wait.
    pub tank: Tank,
    pub intent: Intent,
    /// What it remembered before and after.
    pub before: AiMemory,
    pub after: AiMemory,
}

/// What waits for the commander.
#[derive(Clone, Copy, Debug, PartialEq, Eq, Structural)]
pub struct Pending {
    pub entity: u64,
    pub slot: usize,
    pub intent: Intent,
    /// It shoots this frame.
    pub fires: bool,
}

/// Thinking leaves a tank whose it was, in its role and after the seat it was
/// given.
pub open spec fn thinks_well<M: Fn(u64, Tank, Brief) -> Thought>(think: M) -> bool {
    &&& forall|e: u64, t: Tank, b: Brief| call_requires(think, (e, t, b))
    &&& forall|e: u64, t: Tank, b: Brief, th: Thought| #[trigger]
        call_ensures(think, (e, t, b), th) ==> th.tank.owner == t.owner && th.tank.mind is Some && (
        t.mind matches Some(m) ==> th.tank.mind->0.role == m.role && th.tank.mind->0.target_player
            == m.target_player)
}

/// What the first `n` enemies were told, and what they made of it.
pub open spec fn thoughts_had<T: Fn(u64, Tank) -> Traced, M: Fn(u64, Tank, Brief) -> Thought>(
    trace: T,
    think: M,
    report: &EngageReport,
    views: Seq<PlayerView>,
    quarry: Option<Quarry>,
    home: Option<Point>,
    all: Seq<(u64, Tank)>,
    traces: Seq<Traced>,
    thoughts: Seq<Thought>,
    n: int,
) -> bool {
    &&& traces.len() == n
    &&& thoughts.len() == n
    &&& forall|k: int|
        0 <= k < n ==> {
            let (id, t) = #[trigger] all[k];
            &&& call_ensures(trace, (id, t), traces[k])
            &&& call_ensures(
                think,
                (id, t, briefed(report, views, quarry, home, id, t.mind->0, traces[k])),
                thoughts[k],
            )
        }
}

/// The first `n` enemies have thought and aimed; a trace tells how their minds
/// changed.
pub open spec fn thought_out(
    at: Scene,
    all: Seq<(u64, Tank)>,
    thoughts: Seq<Thought>,
    trace: bool,
    n: int,
) -> Scene
    decreases n,
{
    if n <= 0 {
        at
    } else {
        let now = thought_out(at, all, thoughts, trace, n - 1);
        let (id, t) = all[n - 1];
        let th = thoughts[n - 1];
        Scene {
            pieces: now.pieces.insert(id, th.tank.as_piece()),
            record: if trace {
                mind_changes(
                    now.record,
                    t.owner.round_slot(),
                    th.before,
                    th.after,
                    renamed(th.before.last_action, th.after.last_action),
                    renamed(th.before.breaching, th.after.breaching),
                )
            } else {
                now.record
            },
        }
    }
}

/// What waits for the commander, in the order it was thought.
pub open spec fn pending_of(all: Seq<(u64, Tank)>, thoughts: Seq<Thought>) -> Seq<Pending> {
    Seq::new(
        thoughts.len(),
        |k: int|
            Pending {
                entity: all[k].0,
                slot: all[k].1.owner.round_slot(),
                intent: thoughts[k].intent,
                fires: thoughts[k].intent.fire && thoughts[k].tank.fire_cooldown.at_most(
                    Scalar::zero(),
                ),
            },
    )
}

/// Every enemy has thought and aimed.
pub open spec fn collected<T: Fn(u64, Tank) -> Traced, M: Fn(u64, Tank, Brief) -> Thought>(
    trace: T,
    think: M,
    before: Game,
    told: Record,
    views: Seq<PlayerView>,
    traced: bool,
    pieces: Map<u64, Piece>,
    record: Record,
    pending: Seq<Pending>,
) -> bool {
    exists|all: Seq<(u64, Tank)>, traces: Seq<Traced>, thoughts: Seq<Thought>|
        {
            &&& selects::<Tank>(before.field@, fights(), all)
            &&& #[trigger] thoughts_had(
                trace,
                think,
                &before.pack.report,
                views,
                live_frog(before.field@, before.round.frog),
                home_of(before.field@, before.round.enemy_frog),
                all,
                traces,
                thoughts,
                all.len() as int,
            )
            &&& (Scene { pieces, record }) == thought_out(
                Scene { pieces: before.field@, record: told },
                all,
                thoughts,
                traced,
                all.len() as int,
            )
            &&& pending == pending_of(all, thoughts)
        }
}

proof fn lemma_thought_same(
    at: Scene,
    all: Seq<(u64, Tank)>,
    a: Seq<Thought>,
    b: Seq<Thought>,
    trace: bool,
    n: int,
)
    requires
        0 <= n <= a.len(),
        n <= b.len(),
        forall|i: int| 0 <= i < n ==> a[i] == b[i],
    ensures
        thought_out(at, all, a, trace, n) == thought_out(at, all, b, trace, n),
    decreases n,
{
    if n > 0 {
        lemma_thought_same(at, all, a, b, trace, n - 1);
    }
}

impl Game {
    /// Every enemy thinks and aims, in no particular order; driving waits for
    /// the commander. `trace` says what the host traced for one of them and
    /// `think` is its mind. Returns what waits, in the order it was thought.
    pub fn collect<T: Fn(u64, Tank) -> Traced, M: Fn(u64, Tank, Brief) -> Thought>(
        &mut self,
        f: &mut Frame,
        views: &Vec<PlayerView>,
        rules: &PackRules,
        trace: &T,
        think: &M,
    ) -> (pending: Vec<Pending>)
        requires
            old(self).wf(),
            0 < views@.len() <= MAX_SEATS,
            forall|e: u64, t: Tank| call_requires(*trace, (e, t)),
            thinks_well(*think),
        ensures
            final(self).wf(),
            collected(
                *trace,
                *think,
                *old(self),
                old(f)@,
                views@,
                rules.trace,
                final(self).field@,
                final(f)@,
                pending@,
            ),
            all_present(final(self).field@, pending@),
            final(self).round == old(self).round,
            final(self).keeps_surroundings(old(self)),
            final(self).events == old(self).events,
    {
        let quarry: Option<Quarry> = self.quarry();
        let home: Option<Point> = self.home();
        let ghost start = Scene { pieces: self.field@, record: f@ };
        let all: Vec<(u64, Tank)> = self.fighting();
        let ghost mut traces: Seq<Traced> = Seq::empty();
        let ghost mut thoughts: Seq<Thought> = Seq::empty();
        let mut pending: Vec<Pending> = Vec::new();
        assert(pending@ =~= pending_of(all@, thoughts));
        let mut n: usize = 0;
        while n < all.len()
            invariant
                n <= all@.len(),
                0 < views@.len() <= MAX_SEATS,
                start == (Scene { pieces: old(self).field@, record: old(f)@ }),
                selects::<Tank>(start.pieces, fights(), all@),
                forall|e: u64, t: Tank| call_requires(*trace, (e, t)),
                thinks_well(*think),
                quarry == live_frog(start.pieces, old(self).round.frog),
                home == home_of(start.pieces, old(self).round.enemy_frog),
                self.field.wf(),
                self.round == old(self).round,
                self.keeps_surroundings(old(self)),
                self.events == old(self).events,
                self.field@.dom() == start.pieces.dom(),
                keeps_identities(start.pieces, self.field@),
                thoughts_had(
                    *trace,
                    *think,
                    &old(self).pack.report,
                    views@,
                    quarry,
                    home,
                    all@,
                    traces,
                    thoughts,
                    n as int,
                ),
                (Scene { pieces: self.field@, record: f@ }) == thought_out(
                    start,
                    all@,
                    thoughts,
                    rules.trace,
                    n as int,
                ),
                pending@ == pending_of(all@, thoughts),
            decreases all@.len() - n,
        {
            let (id, t) = all[n];
            let ghost were = thoughts;
            assert(thing::<Tank>(start.pieces, all@[n as int].0) == Some(t));
            assert(start.pieces.contains_key(id));
            assert(fights()(all@[n as int].1));
            if let Some(mind) = t.mind {
                let traced: Traced = trace(id, t);
                let brief: Brief = brief_for(
                    &self.pack.report,
                    views,
                    quarry,
                    home,
                    id,
                    mind,
                    traced,
                );
                let th: Thought = think(id, t, brief);
                self.field.put(id, th.tank);
                if rules.trace {
                    ai_transition_events(f, t.owner_slot(), &th.before, &th.after);
                }
                pending.push(
                    Pending {
                        entity: id,
                        slot: t.owner_slot(),
                        intent: th.intent,
                        fires: enemy_fires(th.intent.fire, th.tank.fire_cooldown),
                    },
                );
                proof {
                    traces = traces.push(traced);
                    thoughts = thoughts.push(th);
                    lemma_thought_same(start, all@, were, thoughts, rules.trace, n as int);
                    assert(self.field@.dom() =~= start.pieces.dom());
                    assert(pending@ =~= pending_of(all@, thoughts));
                }
            }
            n += 1;
        }
        proof {
            lemma_identities(self.round, start.pieces, self.field@);
            assert forall|k: int| 0 <= k < pending@.len() implies thing::<Tank>(
                self.field@,
                (#[trigger] pending@[k]).entity,
            ) is Some by {
                assert(thing::<Tank>(start.pieces, all@[k].0) is Some);
            }
        }
        pending
    }
}

/// A unit as the commander sees it, given its pace and how long it has been
/// giving way.
pub open spec fn unit_of(
    pieces: Map<u64, Piece>,
    report: &EngageReport,
    p: Pending,
    kin: (i32, Scalar),
) -> UnitView {
    UnitView {
        unit: Unit::Enemy(p.slot),
        slot: p.slot,
        pace: kin.0,
        yielded: kin.1,
        wreck: thing::<Tank>(pieces, p.entity)->0.wreck,
        ring_rank: match report.entry(p.entity) {
            Some(t) => match t.slot {
                Some(slot) => Some(slot.rank),
                None => None,
            },
            None => None,
        },
    }
}

/// The units in the order they thought.
pub open spec fn units_of(
    pieces: Map<u64, Piece>,
    report: &EngageReport,
    pending: Seq<Pending>,
    kins: Seq<(i32, Scalar)>,
) -> Seq<UnitView> {
    Seq::new(kins.len(), |k: int| unit_of(pieces, report, pending[k], kins[k]))
}

/// The units by round slot, each as `kin` measured it.
pub open spec fn marshalled<V: Fn(u64, Tank) -> (i32, Scalar)>(
    kin: V,
    pieces: Map<u64, Piece>,
    report: &EngageReport,
    pending: Seq<Pending>,
    units: Seq<UnitView>,
) -> bool {
    exists|kins: Seq<(i32, Scalar)>|
        {
            &&& #[trigger] kins_read(kin, pieces, pending, kins, pending.len() as int)
            &&& units == ranked(units_of(pieces, report, pending, kins))
        }
}

/// What `kin` measured for the first `n`.
pub open spec fn kins_read<V: Fn(u64, Tank) -> (i32, Scalar)>(
    kin: V,
    pieces: Map<u64, Piece>,
    pending: Seq<Pending>,
    kins: Seq<(i32, Scalar)>,
    n: int,
) -> bool {
    kins.len() == n && forall|k: int|
        0 <= k < n ==> call_ensures(
            kin,
            ((#[trigger] pending[k]).entity, thing::<Tank>(pieces, pending[k].entity)->0),
            kins[k],
        )
}

/// Everyone who waits is a tank on the field.
pub open spec fn all_present(pieces: Map<u64, Piece>, pending: Seq<Pending>) -> bool {
    forall|k: int|
        0 <= k < pending.len() ==> thing::<Tank>(pieces, (#[trigger] pending[k]).entity) is Some
}

/// The intents once the orders standing for each tank have been obeyed, in the
/// order they were thought.
pub open spec fn all_obeyed<E: Fn(Scalar, Scalar) -> Scalar>(
    ease: E,
    commander: Commander,
    pending: Seq<Pending>,
    intents: Seq<Intent>,
    n: int,
) -> bool {
    intents.len() == n && forall|k: int|
        0 <= k < n ==> obeys_all(
            ease,
            standing(commander.issued(), (#[trigger] pending[k]).slot),
            standing(commander.issued(), pending[k].slot).len() as int,
            pending[k].intent,
            intents[k],
        )
}

impl Game {
    /// The units for the commander to plan, by round slot. `kin` measures one:
    /// its pace, and how long it has been giving way.
    pub fn marshal<V: Fn(u64, Tank) -> (i32, Scalar)>(&self, pending: &Vec<Pending>, kin: &V) -> (
        units: Vec<UnitView>)
        requires
            all_present(self.field@, pending@),
            forall|e: u64, t: Tank| call_requires(*kin, (e, t)),
        ensures
            marshalled(*kin, self.field@, &self.pack.report, pending@, units@),
    {
        let mut units: Vec<UnitView> = Vec::new();
        let ghost mut kins: Seq<(i32, Scalar)> = Seq::empty();
        assert(units@ =~= units_of(self.field@, &self.pack.report, pending@, kins));
        let mut n: usize = 0;
        while n < pending.len()
            invariant
                n <= pending@.len(),
                all_present(self.field@, pending@),
                forall|e: u64, t: Tank| call_requires(*kin, (e, t)),
                kins_read(*kin, self.field@, pending@, kins, n as int),
                units@ == units_of(self.field@, &self.pack.report, pending@, kins),
            decreases pending@.len() - n,
        {
            let p: Pending = pending[n];
            assert(thing::<Tank>(self.field@, pending@[n as int].entity) is Some);
            let found: Option<Tank> = self.field.get(p.entity);
            if let Some(t) = found {
                let (pace, yielded): (i32, Scalar) = kin(p.entity, t);
                units.push(
                    UnitView {
                        unit: Unit::Enemy(p.slot),
                        slot: p.slot,
                        pace,
                        yielded,
                        wreck: t.wreck,
                        ring_rank: self.ring_rank(p.entity),
                    },
                );
                proof {
                    kins = kins.push((pace, yielded));
                    assert(units@ =~= units_of(self.field@, &self.pack.report, pending@, kins));
                }
            }
            n += 1;
        }
        planning_order(&units)
    }

    /// What everyone drives by: each intent once the commander's orders have
    /// been obeyed, in the order it was thought.
    pub fn obeyed_all<E: Fn(Scalar, Scalar) -> Scalar>(&self, pending: &Vec<Pending>, ease: &E) -> (
        intents: Vec<Intent>)
        requires
            forall|slow: Scalar, by: Scalar| #[trigger] call_requires(*ease, (slow, by)),
        ensures
            all_obeyed(
                *ease,
                self.pack.commander,
                pending@,
                intents@,
                pending@.len() as int,
            ),
    {
        let mut intents: Vec<Intent> = Vec::new();
        let mut n: usize = 0;
        while n < pending.len()
            invariant
                n <= pending@.len(),
                forall|slow: Scalar, by: Scalar| #[trigger] call_requires(*ease, (slow, by)),
                all_obeyed(*ease, self.pack.commander, pending@, intents@, n as int),
            decreases pending@.len() - n,
        {
            let after: Intent = self.obeyed(pending[n].slot, pending[n].intent, ease);
            intents.push(after);
            n += 1;
        }
        intents
    }
}

/// The frame's plan can be measured for any units, and covers them and what
/// the commander knows.
pub open spec fn plans_well<C: Fn(&Vec<UnitView>) -> CommandCtx>(
    plan: C,
    commander: Commander,
) -> bool {
    &&& forall|units: &Vec<UnitView>| call_requires(plan, (units,))
    &&& forall|units: &Vec<UnitView>, ctx: CommandCtx| #[trigger]
        call_ensures(plan, (units,), ctx) ==> {
            &&& covers(&ctx, units@.len() as int)
            &&& ctx.lane_ttls@.len() == commander.known().lanes@.len()
            &&& ctx.claim_helds@.len() == commander.known().claims@.len()
        }
}

/// The rest of the pack's turn, once it has looked: by way of what waited, the
/// units and the plan.
pub open spec fn turn_played<
    T: Fn(u64, Tank) -> Traced,
    M: Fn(u64, Tank, Brief) -> Thought,
    V: Fn(u64, Tank) -> (i32, Scalar),
    C: Fn(&Vec<UnitView>) -> CommandCtx,
    E: Fn(Scalar, Scalar) -> Scalar,
>(
    trace: T,
    think: M,
    kin: V,
    plan: C,
    ease: E,
    seen: Game,
    told: Record,
    views: Seq<PlayerView>,
    traced: bool,
    units: Vec<UnitView>,
    ctx: CommandCtx,
    after: Game,
    record: Record,
    pending: Seq<Pending>,
    intents: Seq<Intent>,
) -> bool {
    &&& collected(trace, think, seen, told, views, traced, after.field@, record, pending)
    &&& marshalled(kin, after.field@, &seen.pack.report, pending, units@)
    &&& call_ensures(plan, (&units,), ctx)
    &&& commanded(seen.pack.commander, units@, &ctx, after.pack.commander)
    &&& after.pack == (Pack { commander: after.pack.commander, ..seen.pack })
    &&& after.round == seen.round
    &&& all_obeyed(ease, after.pack.commander, pending, intents, pending.len() as int)
}

impl Game {
    /// The pack's turn once it has looked: every enemy thinks and aims, the
    /// commander plans over what they all want, and each intent comes back
    /// with its orders obeyed, in the order it was thought. Driving is the
    /// host's.
    pub fn play_turn<
        T: Fn(u64, Tank) -> Traced,
        M: Fn(u64, Tank, Brief) -> Thought,
        V: Fn(u64, Tank) -> (i32, Scalar),
        C: Fn(&Vec<UnitView>) -> CommandCtx,
        E: Fn(Scalar, Scalar) -> Scalar,
    >(
        &mut self,
        f: &mut Frame,
        views: &Vec<PlayerView>,
        rules: &PackRules,
        trace: &T,
        think: &M,
        kin: &V,
        plan: &C,
        ease: &E,
    ) -> (r: (Vec<Pending>, Vec<Intent>))
        requires
            old(self).wf(),
            0 < views@.len() <= MAX_SEATS,
            forall|e: u64, t: Tank| call_requires(*trace, (e, t)),
            thinks_well(*think),
            forall|e: u64, t: Tank| call_requires(*kin, (e, t)),
            plans_well(*plan, old(self).pack.commander),
            forall|slow: Scalar, by: Scalar| #[trigger] call_requires(*ease, (slow, by)),
        ensures
            final(self).wf(),
            exists|units: Vec<UnitView>, ctx: CommandCtx| #[trigger]
                turn_played(
                    *trace,
                    *think,
                    *kin,
                    *plan,
                    *ease,
                    *old(self),
                    old(f)@,
                    views@,
                    rules.trace,
                    units,
                    ctx,
                    *final(self),
                    final(f)@,
                    r.0@,
                    r.1@,
                ),
            final(self).ground == old(self).ground,
            final(self).show == old(self).show,
            final(self).events == old(self).events,
            final(self).debug_kills == old(self).debug_kills,
    {
        let pending: Vec<Pending> = self.collect(f, views, rules, trace, think);
        let units: Vec<UnitView> = self.marshal(&pending, kin);
        let ctx: CommandCtx = plan(&units);
        self.command_pass(&units, &ctx);
        let intents: Vec<Intent> = self.obeyed_all(&pending, ease);
        let r: (Vec<Pending>, Vec<Intent>) = (pending, intents);
        assert(turn_played(
            *trace,
            *think,
            *kin,
            *plan,
            *ease,
            *old(self),
            old(f)@,
            views@,
            rules.trace,
            units,
            ctx,
            *self,
            f@,
            r.0@,
            r.1@,
        ));
        r
    }
}

impl Game {
    /// The pack's whole turn: [`Game::survey`], and then [`Game::play_turn`]
    /// on what it saw.
    pub fn enemy_phase<
        H: Fn(Point) -> bool,
        D: Fn(Point, Point) -> Scalar,
        W: Fn(Scalar) -> Scalar,
        K: Fn(Ring, u64) -> Contender,
        X: Fn(Ring) -> EngageCtx,
        B: Fn(u64) -> bool,
        T: Fn(u64, Tank) -> Traced,
        M: Fn(u64, Tank, Brief) -> Thought,
        V: Fn(u64, Tank) -> (i32, Scalar),
        C: Fn(&Vec<UnitView>) -> CommandCtx,
        E: Fn(Scalar, Scalar) -> Scalar,
    >(
        &mut self,
        f: &mut Frame,
        rules: &PackRules,
        hides: &H,
        dist: &D,
        widen: &W,
        contend: &K,
        context: &X,
        blocked: &B,
        trace: &T,
        think: &M,
        kin: &V,
        plan: &C,
        ease: &E,
    ) -> (r: (Vec<Pending>, Vec<Intent>))
        requires
            old(self).wf(),
            seated(old(self).round.seats@, MAX_SEATS as int).len() > 0,
            forall|p: Point| call_requires(*hides, (p,)),
            forall|a: Point, b: Point| call_requires(*dist, (a, b)),
            forall|d: Scalar| call_requires(*widen, (d,)),
            contends_well(*contend),
            forall|r: Ring| call_requires(*context, (r,)),
            forall|e: u64| call_requires(*blocked, (e,)),
            forall|e: u64, t: Tank| call_requires(*trace, (e, t)),
            thinks_well(*think),
            forall|e: u64, t: Tank| call_requires(*kin, (e, t)),
            plans_well(*plan, old(self).pack.commander),
            forall|slow: Scalar, by: Scalar| #[trigger] call_requires(*ease, (slow, by)),
        ensures
            final(self).wf(),
            exists|
                views: Seq<PlayerView>,
                settled: Scene,
                enemies: Seq<(u64, Tank)>,
                far: Seq<Vec<Scalar>>,
                es: Seq<Fighter>,
                reports: Seq<EngageReport>,
                seen: Game,
                told: Record,
                units: Vec<UnitView>,
                ctx: CommandCtx,
            |
                {
                    &&& #[trigger] surveyed(
                        *hides,
                        *dist,
                        *widen,
                        *contend,
                        *context,
                        *blocked,
                        *rules,
                        *old(self),
                        old(f)@,
                        views,
                        settled,
                        enemies,
                        far,
                        es,
                        reports,
                        seen,
                        told,
                    )
                    &&& #[trigger] turn_played(
                        *trace,
                        *think,
                        *kin,
                        *plan,
                        *ease,
                        seen,
                        told,
                        views,
                        rules.trace,
                        units,
                        ctx,
                        *final(self),
                        final(f)@,
                        r.0@,
                        r.1@,
                    )
                },
            final(self).ground == old(self).ground,
            final(self).show == old(self).show,
            final(self).events == old(self).events,
            final(self).debug_kills == old(self).debug_kills,
    {
        let views: Vec<PlayerView> = self.survey(
            f,
            rules,
            hides,
            dist,
            widen,
            contend,
            context,
            blocked,
        );
        self.play_turn(f, &views, rules, trace, think, kin, plan, ease)
    }
}

/// The pack's sighting is of the player it sees nearest, and the alert follows
/// it: a sighting refreshes it, and without one the last stays until its time
/// is up.
pub proof fn the_alert_follows_the_sighting(
    round: Round,
    views: Seq<PlayerView>,
    far: Seq<Vec<Scalar>>,
    rules: PackRules,
)
    ensures
        ({
            let after = looked(round, views, far, rules).alert;
            match nearest_sighting(views, far, rules.view_range, views.len() as int) {
                Some((_, i)) => after.position == Some(views[i].position) && after.timer
                    == rules.hold,
                None => {
                    &&& after.timer == rules.decayed
                    &&& Scalar::zero().below(rules.decayed) ==> after.position
                        == round.alert.position
                    &&& rules.decayed.at_most(Scalar::zero()) ==> after.position is None
                },
            }
        }),
        looked(round, views, far, rules) == (Round {
            alert: looked(round, views, far, rules).alert,
            ..round
        }),
{
}

/// What waits for the commander is every enemy's wish, in the order they
/// thought; one that wants to shoot does if its gun has cooled.
pub proof fn everyone_who_thought_waits(
    all: Seq<(u64, Tank)>,
    thoughts: Seq<Thought>,
    k: int,
)
    requires
        0 <= k < thoughts.len(),
    ensures
        pending_of(all, thoughts).len() == thoughts.len(),
        ({
            let p = pending_of(all, thoughts)[k];
            &&& p.entity == all[k].0 && p.intent == thoughts[k].intent
            &&& p.fires <==> thoughts[k].intent.fire && thoughts[k].tank.fire_cooldown.at_most(
                Scalar::zero(),
            )
            &&& all[k].1.owner matches Owner::Enemy(slot) ==> p.slot == slot
        }),
{
}

/// Thinking leaves each tank as its thought has it, and tells of what it
/// changed its mind about only when somebody asked; it touches nothing else.
pub proof fn a_thought_is_carried_out(
    at: Scene,
    all: Seq<(u64, Tank)>,
    thoughts: Seq<Thought>,
    trace: bool,
    n: int,
)
    requires
        0 < n <= all.len(),
        n <= thoughts.len(),
    ensures
        ({
            let was = thought_out(at, all, thoughts, trace, n - 1);
            let now = thought_out(at, all, thoughts, trace, n);
            &&& now.pieces.contains_key(all[n - 1].0)
            &&& now.pieces[all[n - 1].0] == Piece::Tank(thoughts[n - 1].tank)
            &&& forall|e: u64|
                e != all[n - 1].0 ==> (#[trigger] now.pieces.contains_key(e)
                    <==> was.pieces.contains_key(e)) && now.pieces[e] == was.pieces[e]
            &&& !trace ==> now.record == was.record
            &&& trace && thoughts[n - 1].before.retreating != thoughts[n - 1].after.retreating
                ==> now.record.events.len() > was.record.events.len()
        }),
{
}

/// The commander sees each unit as the enemy in its round slot, at the pace and
/// patience measured, a wreck if it is one, and with the rank of the engagement
/// slot it holds, none without one.
pub proof fn the_commander_sees_who_holds_what(
    pieces: Map<u64, Piece>,
    report: &EngageReport,
    p: Pending,
    kin: (i32, Scalar),
)
    requires
        pieces.contains_key(p.entity) && pieces[p.entity] is Tank,
    ensures
        ({
            let u = unit_of(pieces, report, p, kin);
            &&& u.unit == Unit::Enemy(p.slot) && u.slot == p.slot
            &&& u.pace == kin.0 && u.yielded == kin.1
            &&& u.wreck == pieces[p.entity]->Tank_0.wreck
            &&& report.entry(p.entity) is None ==> u.ring_rank is None
            &&& report.entry(p.entity) matches Some(t) ==> (match t.slot {
                Some(slot) => u.ring_rank == Some(slot.rank),
                None => u.ring_rank is None,
            })
        }),
{
}

} // verus!
