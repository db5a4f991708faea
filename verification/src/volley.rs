//! A frame's shots and beams, each swept, landed and applied in turn.
//!
//! The host says what lies along a shot's way, rolls its damage and works out
//! what that takes off.

use rand::distr::Bernoulli;
use rand::rngs::SmallRng;
use vstd::prelude::*;

use crate::field::{selects, thing, Kind};
use crate::frame::{Frame, Scene};
use crate::game::Game;
use crate::hits::{nearest, sweep, swept, Candidate, Impact, MaterialOdds, ShellTarget, TerrainBox};
use crate::kinds::Owner;
use crate::pieces::{Frog, Piece, ProvisionalKind, Shot, ShotState, Tank, Tile};
use crate::props::{Blow, DamageCause};
use crate::scalar::{Point, Scalar};
use crate::shots::{
    hit_applied, hurts_well, landing, lemma_swept_there, rolls, shot_landed, targets_there, there,
    wounds_well, HitResult, Landed,
};

verus! {

/// A candidate as the field has it by now: a tank wrecked by an earlier shot
/// is a wreck.
pub open spec fn refreshed(c: Candidate, pieces: Map<u64, Piece>) -> Candidate {
    match c.target {
        ShellTarget::PlayerTank(e) => Candidate { wreck: thing::<Tank>(pieces, e)->0.wreck, ..c },
        ShellTarget::EnemyTank(e) => Candidate { wreck: thing::<Tank>(pieces, e)->0.wreck, ..c },
        _ => c,
    }
}

/// Those of the first `n` candidates that are on the field, as it has them by
/// now.
pub open spec fn current(cs: Seq<Candidate>, pieces: Map<u64, Piece>, n: int) -> Seq<Candidate>
    decreases n,
{
    if n <= 0 {
        Seq::empty()
    } else {
        let before = current(cs, pieces, n - 1);
        if there(pieces, cs[n - 1].target) {
            before.push(refreshed(cs[n - 1], pieces))
        } else {
            before
        }
    }
}

impl Game {
    fn current_candidates(&self, cs: &Vec<Candidate>) -> (now: Vec<Candidate>)
        ensures
            now@ == current(cs@, self.field@, cs@.len() as int),
            targets_there(self.field@, now@),
    {
        let mut now: Vec<Candidate> = Vec::new();
        let mut n: usize = 0;
        while n < cs.len()
            invariant
                n <= cs@.len(),
                now@ == current(cs@, self.field@, n as int),
                targets_there(self.field@, now@),
            decreases cs@.len() - n,
        {
            let c: Candidate = cs[n];
            match c.target {
                ShellTarget::PlayerTank(e) | ShellTarget::EnemyTank(e) => {
                    let found: Option<Tank> = self.field.get(e);
                    if let Some(t) = found {
                        now.push(Candidate { wreck: t.wreck, ..c });
                    }
                },
                ShellTarget::Frog(e) => {
                    let found: Option<Frog> = self.field.get(e);
                    if found.is_some() {
                        now.push(c);
                    }
                },
                ShellTarget::Obstacle(e) => {
                    let found: Option<Tile> = self.field.get(e);
                    if found.is_some() {
                        now.push(c);
                    }
                },
                ShellTarget::Wall => {
                    now.push(c);
                },
            }
            n += 1;
        }
        now
    }
}

proof fn lemma_nearest_counts(cs: Seq<Candidate>, shooter: Owner, ignored: Seq<u64>, n: int)
    requires
        0 <= n <= cs.len(),
    ensures
        nearest(cs, shooter, ignored, n) matches Some((_, _, target)) ==> exists|i: int|
            0 <= i < n && (#[trigger] cs[i]).target == target && cs[i].counts(shooter, ignored),
    decreases n,
{
    if n > 0 {
        lemma_nearest_counts(cs, shooter, ignored, n - 1);
        let before = nearest(cs, shooter, ignored, n - 1);
        if nearest(cs, shooter, ignored, n) == before {
            if let Some((_, _, target)) = before {
                let i = choose|i: int|
                    0 <= i < n - 1 && (#[trigger] cs[i]).target == target && cs[i].counts(
                        shooter,
                        ignored,
                    );
                assert(cs[i].target == target);
            }
        } else {
            assert(cs[n - 1].target == cs[n - 1].target);
        }
    }
}

proof fn lemma_current(cs: Seq<Candidate>, pieces: Map<u64, Piece>, n: int, i: int)
    requires
        0 <= n <= cs.len(),
        0 <= i < current(cs, pieces, n).len(),
    ensures
        exists|k: int|
            0 <= k < n && current(cs, pieces, n)[i] == refreshed(#[trigger] cs[k], pieces),
    decreases n,
{
    if n > 0 {
        let before = current(cs, pieces, n - 1);
        if i < before.len() {
            lemma_current(cs, pieces, n - 1, i);
            let k = choose|k: int|
                0 <= k < n - 1 && before[i] == refreshed(#[trigger] cs[k], pieces);
            assert(current(cs, pieces, n)[i] == refreshed(cs[k], pieces));
        } else {
            assert(current(cs, pieces, n)[i] == refreshed(cs[n - 1], pieces));
        }
    }
}

/// Wrecks stop no shot: whatever a shot or a beam strikes, it is no tank that
/// is a wreck by then.
pub proof fn no_shot_strikes_a_wreck(
    way: Seq<Candidate>,
    pieces: Map<u64, Piece>,
    shooter: Owner,
    ignored: Seq<u64>,
)
    ensures
        match swept(current(way, pieces, way.len() as int), shooter, ignored) {
            Some((ShellTarget::PlayerTank(e), _)) => !thing::<Tank>(pieces, e)->0.wreck,
            Some((ShellTarget::EnemyTank(e), _)) => !thing::<Tank>(pieces, e)->0.wreck,
            _ => true,
        },
{
    let cs = current(way, pieces, way.len() as int);
    lemma_nearest_counts(cs, shooter, ignored, cs.len() as int);
    if let Some((target, _)) = swept(cs, shooter, ignored) {
        let i = choose|i: int|
            0 <= i < cs.len() && (#[trigger] cs[i]).target == target && cs[i].counts(
                shooter,
                ignored,
            );
        lemma_current(way, pieces, way.len() as int, i);
    }
}

/// What the shots of one kind go by.
pub struct ShotRules {
    pub pass_over: MaterialOdds,
    pub deflects: MaterialOdds,
    pub fence_one_shot: Bernoulli,
    /// It can be bounced by a tile's chance.
    pub can_bounce: bool,
    /// A frog it hits hops away.
    pub frog_hops: bool,
    /// Hits count.
    pub live: bool,
}

/// What became of one shot.
#[derive(Debug)]
pub struct Flown {
    pub entity: u64,
    pub landed: Landed,
    /// What it did to what it struck, if it did anything.
    pub hit: Option<HitResult>,
    /// The tiles it has flown over so far.
    pub passed: Vec<u64>,
}

/// What a burst did: the damage is rolled for a hit that rolls, and nothing is
/// drawn for any other.
pub open spec fn burst_done<
    A: Fn(Tank, Scalar) -> Tank,
    G: Fn(Frog, Scalar) -> Frog,
    C: Fn(Tile, Scalar) -> Blow,
    O: Fn(Shot) -> Scalar,
    V: Fn(Shot) -> Point,
>(
    wound: A,
    hurt: G,
    wear: C,
    roll: O,
    travel: V,
    rules: ShotRules,
    s: Shot,
    target: ShellTarget,
    at: Point,
    damage: Scalar,
    dir: Point,
    before: Scene,
    after: Scene,
    hit: HitResult,
) -> bool {
    &&& if rolls(before.pieces, target) {
        call_ensures(roll, (s,), damage)
    } else {
        damage == Scalar::zero()
    }
    &&& call_ensures(travel, (s,), dir)
    &&& hit_applied(
        wound,
        hurt,
        wear,
        before.pieces,
        before.record,
        target,
        at,
        damage,
        rules.frog_hops,
        DamageCause::Shot { dir: Some(dir) },
        after.pieces,
        after.record,
        hit,
    )
}

/// The host's part in a shot, bundled.
pub struct Gunnery<L, T, D, R, B, A, G, C, O, V> {
    /// Where a shot is, some way along its movement.
    pub along: L,
    /// A shot turned away from a place.
    pub turn: T,
    /// What throwing a shot back leaves of a shield, and the delay it costs.
    pub spend: D,
    /// The projectile's own rule: it ricochets off a tile.
    pub ricochets: R,
    /// A shot reflected off a tile, and its new heading.
    pub reflect: B,
    pub wound: A,
    pub hurt: G,
    pub wear: C,
    /// A roll in a shot's damage range.
    pub roll: O,
    /// The way a shot travels.
    pub travel: V,
}

/// The host's part can be asked for any shot, and leaves tanks and frogs whose
/// they were.
pub open spec fn well_manned<
    L: Fn(Shot, Scalar) -> Point,
    T: Fn(Shot, Point) -> Shot,
    D: Fn(Tank, Shot) -> (Scalar, Scalar),
    R: Fn(Shot, TerrainBox) -> bool,
    B: Fn(Shot, TerrainBox) -> (Shot, Scalar),
    A: Fn(Tank, Scalar) -> Tank,
    G: Fn(Frog, Scalar) -> Frog,
    C: Fn(Tile, Scalar) -> Blow,
    O: Fn(Shot) -> Scalar,
    V: Fn(Shot) -> Point,
>(g: Gunnery<L, T, D, R, B, A, G, C, O, V>) -> bool {
    &&& forall|s: Shot, t: Scalar| call_requires(g.along, (s, t))
    &&& forall|s: Shot, p: Point| call_requires(g.turn, (s, p))
    &&& forall|t: Tank, s: Shot| call_requires(g.spend, (t, s))
    &&& forall|s: Shot, b: TerrainBox| call_requires(g.ricochets, (s, b))
    &&& forall|s: Shot, b: TerrainBox| call_requires(g.reflect, (s, b))
    &&& wounds_well(g.wound)
    &&& hurts_well(g.hurt)
    &&& forall|t: Tile, d: Scalar| call_requires(g.wear, (t, d))
    &&& forall|s: Shot| call_requires(g.roll, (s,))
    &&& forall|s: Shot| call_requires(g.travel, (s,))
}

/// One shot landed and did what it did, by way of how things stood in between.
/// A shot that is no longer there does nothing.
pub open spec fn flight_done<
    L: Fn(Shot, Scalar) -> Point,
    T: Fn(Shot, Point) -> Shot,
    D: Fn(Tank, Shot) -> (Scalar, Scalar),
    R: Fn(Shot, TerrainBox) -> bool,
    B: Fn(Shot, TerrainBox) -> (Shot, Scalar),
    A: Fn(Tank, Scalar) -> Tank,
    G: Fn(Frog, Scalar) -> Frog,
    C: Fn(Tile, Scalar) -> Blow,
    O: Fn(Shot) -> Scalar,
    V: Fn(Shot) -> Point,
>(
    g: Gunnery<L, T, D, R, B, A, G, C, O, V>,
    rules: ShotRules,
    boxes: Seq<TerrainBox>,
    entity: u64,
    way: Seq<Candidate>,
    passed: Seq<u64>,
    before: Scene,
    mid: Scene,
    after: Scene,
    out: Flown,
) -> bool {
    &&& out.entity == entity
    &&& match thing::<Shot>(before.pieces, entity) {
        Some(s) => {
            &&& landing(
                g.along,
                g.turn,
                g.spend,
                g.ricochets,
                g.reflect,
                before,
                current(way, before.pieces, way.len() as int),
                boxes,
                &rules.pass_over,
                &rules.deflects,
                rules.can_bounce,
                rules.live,
                entity,
                passed,
                out.passed@,
                mid,
                out.landed,
            )
            &&& match out.landed {
                Landed::Burst(target, at, true) => exists|damage: Scalar, dir: Point|
                    out.hit is Some && #[trigger] burst_done(
                        g.wound,
                        g.hurt,
                        g.wear,
                        g.roll,
                        g.travel,
                        rules,
                        s,
                        target,
                        at,
                        damage,
                        dir,
                        mid,
                        after,
                        out.hit->0,
                    ),
                _ => out.hit is None && after == mid,
            }
        },
        None => out.landed == Landed::Missed && out.hit is None && out.passed@ == passed && after
            == before,
    }
}

impl Game {
    /// One shot's frame: what lies along its `way` is brought up to date, it
    /// lands, and if that counts it does what it does.
    pub fn resolve_shot<
        L: Fn(Shot, Scalar) -> Point,
        T: Fn(Shot, Point) -> Shot,
        D: Fn(Tank, Shot) -> (Scalar, Scalar),
        R: Fn(Shot, TerrainBox) -> bool,
        B: Fn(Shot, TerrainBox) -> (Shot, Scalar),
        A: Fn(Tank, Scalar) -> Tank,
        G: Fn(Frog, Scalar) -> Frog,
        C: Fn(Tile, Scalar) -> Blow,
        O: Fn(Shot) -> Scalar,
        V: Fn(Shot) -> Point,
    >(
        &mut self,
        f: &mut Frame,
        entity: u64,
        way: &Vec<Candidate>,
        passed: Vec<u64>,
        boxes: &Vec<TerrainBox>,
        rules: &ShotRules,
        g: &Gunnery<L, T, D, R, B, A, G, C, O, V>,
        rng: &mut SmallRng,
    ) -> (out: Flown)
        requires
            old(self).wf(),
            well_manned(*g),
        ensures
            final(self).wf(),
            exists|mid: Scene| #[trigger]
                flight_done(
                    *g,
                    *rules,
                    boxes@,
                    entity,
                    way@,
                    passed@,
                    Scene { pieces: old(self).field@, record: old(f)@ },
                    mid,
                    Scene { pieces: final(self).field@, record: final(f)@ },
                    out,
                ),
            final(self).round == old(self).round,
            final(self).keeps_surroundings(old(self)),
            final(self).events == old(self).events,
    {
        let ghost before = Scene { pieces: self.field@, record: f@ };
        let found: Option<Shot> = self.field.get(entity);
        let s: Shot = match found {
            Some(s) => s,
            None => {
                let out: Flown = Flown { entity, landed: Landed::Missed, hit: None, passed };
                assert(flight_done(
                    *g,
                    *rules,
                    boxes@,
                    entity,
                    way@,
                    passed@,
                    before,
                    before,
                    before,
                    out,
                ));
                return out;
            },
        };
        let cs: Vec<Candidate> = self.current_candidates(way);
        let mut over: Vec<u64> = passed;
        let landed: Landed = self.land_shot(
            f,
            entity,
            &cs,
            boxes,
            &mut over,
            &rules.pass_over,
            &rules.deflects,
            rules.can_bounce,
            rules.live,
            &g.along,
            &g.turn,
            &g.spend,
            &g.ricochets,
            &g.reflect,
            rng,
        );
        let ghost mid = Scene { pieces: self.field@, record: f@ };
        let mut hit: Option<HitResult> = None;
        match landed {
            Landed::Burst(target, at, true) => {
                proof {
                    lemma_burst_there(
                        *g,
                        *rules,
                        boxes@,
                        entity,
                        s,
                        cs@,
                        over@,
                        before,
                        passed@,
                        mid,
                        landed,
                    );
                }
                let damage: Scalar = if self.hit_rolls(target) {
                    (g.roll)(s)
                } else {
                    Scalar::zero()
                };
                let dir: Point = (g.travel)(s);
                let done: HitResult = self.apply_hit(
                    f,
                    target,
                    at,
                    damage,
                    rules.frog_hops,
                    DamageCause::Shot { dir: Some(dir) },
                    &g.wound,
                    &g.hurt,
                    &g.wear,
                    &rules.fence_one_shot,
                    rng,
                );
                hit = Some(done);
                assert(burst_done(
                    g.wound,
                    g.hurt,
                    g.wear,
                    g.roll,
                    g.travel,
                    *rules,
                    s,
                    target,
                    at,
                    damage,
                    dir,
                    mid,
                    Scene { pieces: self.field@, record: f@ },
                    hit->0,
                ));
            },
            _ => {},
        }
        let out: Flown = Flown { entity, landed, hit, passed: over };
        assert(flight_done(
            *g,
            *rules,
            boxes@,
            entity,
            way@,
            passed@,
            before,
            mid,
            Scene { pieces: self.field@, record: f@ },
            out,
        ));
        out
    }
}

/// What a shot burst on is still there afterwards.
proof fn lemma_burst_there<
    L: Fn(Shot, Scalar) -> Point,
    T: Fn(Shot, Point) -> Shot,
    D: Fn(Tank, Shot) -> (Scalar, Scalar),
    R: Fn(Shot, TerrainBox) -> bool,
    B: Fn(Shot, TerrainBox) -> (Shot, Scalar),
    A: Fn(Tank, Scalar) -> Tank,
    G: Fn(Frog, Scalar) -> Frog,
    C: Fn(Tile, Scalar) -> Blow,
    O: Fn(Shot) -> Scalar,
    V: Fn(Shot) -> Point,
>(
    g: Gunnery<L, T, D, R, B, A, G, C, O, V>,
    rules: ShotRules,
    boxes: Seq<TerrainBox>,
    entity: u64,
    s: Shot,
    cs: Seq<Candidate>,
    over: Seq<u64>,
    before: Scene,
    passed: Seq<u64>,
    mid: Scene,
    landed: Landed,
)
    requires
        thing::<Shot>(before.pieces, entity) == Some(s),
        targets_there(before.pieces, cs),
        landing(
            g.along,
            g.turn,
            g.spend,
            g.ricochets,
            g.reflect,
            before,
            cs,
            boxes,
            &rules.pass_over,
            &rules.deflects,
            rules.can_bounce,
            rules.live,
            entity,
            passed,
            over,
            mid,
            landed,
        ),
    ensures
        landed matches Landed::Burst(target, _, _) ==> there(mid.pieces, target),
{
    if let Landed::Burst(target, _, _) = landed {
        lemma_swept_there(cs, s.owner, over, cs.len() as int);
        let (first, t) = swept(cs, s.owner, over)->0;
        let i = choose|i: int| 0 <= i < cs.len() && (#[trigger] cs[i]).target == first;
        assert(there(before.pieces, cs[i].target));
        let (at, own, kind, heading) = choose|at: Point, own: bool, kind: Impact, heading: Scalar|
            #[trigger] shot_landed(
                g.along,
                g.turn,
                g.spend,
                g.ricochets,
                g.reflect,
                before.pieces,
                before.record,
                boxes,
                &rules.deflects,
                rules.can_bounce,
                rules.live,
                entity,
                s,
                first,
                t,
                at,
                own,
                kind,
                heading,
                mid.pieces,
                mid.record,
                landed,
            );
        assert(kind == Impact::Burst && target == first);
    }
}

/// A projectile of one kind in the air.
pub open spec fn in_the_air(kind: ProvisionalKind) -> spec_fn(Shot) -> bool {
    |s: Shot| s.kind == kind && s.state == ShotState::Flying
}

/// What lay along each shot's way, and what it had flown over before.
pub open spec fn ways_read<W: Fn(u64, Shot) -> Vec<Candidate>, P: Fn(u64) -> Vec<u64>>(
    way: W,
    past: P,
    shots: Seq<(u64, Shot)>,
    ways: Seq<Vec<Candidate>>,
    pasts: Seq<Vec<u64>>,
    n: int,
) -> bool {
    &&& ways.len() == n
    &&& pasts.len() == n
    &&& forall|k: int|
        0 <= k < n ==> call_ensures(way, ((#[trigger] shots[k]).0, shots[k].1), ways[k])
            && call_ensures(past, (shots[k].0,), pasts[k])
}

/// The first `n` shots landed in turn, by way of how things stood before and
/// during each.
pub open spec fn flights_done<
    L: Fn(Shot, Scalar) -> Point,
    T: Fn(Shot, Point) -> Shot,
    D: Fn(Tank, Shot) -> (Scalar, Scalar),
    R: Fn(Shot, TerrainBox) -> bool,
    B: Fn(Shot, TerrainBox) -> (Shot, Scalar),
    A: Fn(Tank, Scalar) -> Tank,
    G: Fn(Frog, Scalar) -> Frog,
    C: Fn(Tile, Scalar) -> Blow,
    O: Fn(Shot) -> Scalar,
    V: Fn(Shot) -> Point,
>(
    g: Gunnery<L, T, D, R, B, A, G, C, O, V>,
    rules: ShotRules,
    boxes: Seq<TerrainBox>,
    shots: Seq<(u64, Shot)>,
    ways: Seq<Vec<Candidate>>,
    pasts: Seq<Vec<u64>>,
    stages: Seq<Scene>,
    mids: Seq<Scene>,
    outs: Seq<Flown>,
    n: int,
) -> bool {
    &&& stages.len() == n + 1
    &&& mids.len() == n
    &&& outs.len() == n
    &&& forall|k: int|
        0 <= k < n ==> flight_done(
            g,
            rules,
            boxes,
            (#[trigger] shots[k]).0,
            ways[k]@,
            pasts[k]@,
            stages[k],
            mids[k],
            stages[k + 1],
            outs[k],
        )
}

impl Game {
    /// Every projectile of one kind that is in the air lands or flies on, in
    /// turn; what an earlier one did counts for a later one. `way` says what
    /// lies along a shot's way and `past` what it has flown over before.
    /// Returns what became of each.
    pub fn resolve_projectiles<
        W: Fn(u64, Shot) -> Vec<Candidate>,
        P: Fn(u64) -> Vec<u64>,
        L: Fn(Shot, Scalar) -> Point,
        T: Fn(Shot, Point) -> Shot,
        D: Fn(Tank, Shot) -> (Scalar, Scalar),
        R: Fn(Shot, TerrainBox) -> bool,
        B: Fn(Shot, TerrainBox) -> (Shot, Scalar),
        A: Fn(Tank, Scalar) -> Tank,
        G: Fn(Frog, Scalar) -> Frog,
        C: Fn(Tile, Scalar) -> Blow,
        O: Fn(Shot) -> Scalar,
        V: Fn(Shot) -> Point,
    >(
        &mut self,
        f: &mut Frame,
        kind: ProvisionalKind,
        boxes: &Vec<TerrainBox>,
        rules: &ShotRules,
        way: &W,
        past: &P,
        g: &Gunnery<L, T, D, R, B, A, G, C, O, V>,
        rng: &mut SmallRng,
    ) -> (outs: Vec<Flown>)
        requires
            old(self).wf(),
            forall|e: u64, s: Shot| call_requires(*way, (e, s)),
            forall|e: u64| call_requires(*past, (e,)),
            well_manned(*g),
        ensures
            final(self).wf(),
            exists|
                shots: Seq<(u64, Shot)>,
                ways: Seq<Vec<Candidate>>,
                pasts: Seq<Vec<u64>>,
                stages: Seq<Scene>,
                mids: Seq<Scene>,
            |
                {
                    &&& selects::<Shot>(old(self).field@, in_the_air(kind), shots)
                    &&& #[trigger] ways_read(
                        *way,
                        *past,
                        shots,
                        ways,
                        pasts,
                        shots.len() as int,
                    )
                    &&& #[trigger] flights_done(
                        *g,
                        *rules,
                        boxes@,
                        shots,
                        ways,
                        pasts,
                        stages,
                        mids,
                        outs@,
                        shots.len() as int,
                    )
                    &&& stages[0] == (Scene { pieces: old(self).field@, record: old(f)@ })
                    &&& stages[shots.len() as int] == (Scene {
                        pieces: final(self).field@,
                        record: final(f)@,
                    })
                },
            final(self).round == old(self).round,
            final(self).keeps_surroundings(old(self)),
            final(self).events == old(self).events,
    {
        let test = |s: Shot| -> (b: bool)
            ensures
                b == (s.kind == kind && s.state == ShotState::Flying),
        { s.kind == kind && s.state == ShotState::Flying };
        let shots = self.field.select(Ghost(in_the_air(kind)), test);
        let ghost mut ways: Seq<Vec<Candidate>> = Seq::empty();
        let ghost mut pasts: Seq<Vec<u64>> = Seq::empty();
        let ghost mut mids: Seq<Scene> = Seq::empty();
        let ghost mut stages: Seq<Scene> = seq![Scene { pieces: self.field@, record: f@ }];
        let mut outs: Vec<Flown> = Vec::new();
        let mut n: usize = 0;
        while n < shots.len()
            invariant
                n <= shots@.len(),
                forall|e: u64, s: Shot| call_requires(*way, (e, s)),
                forall|e: u64| call_requires(*past, (e,)),
                well_manned(*g),
                self.wf(),
                self.round == old(self).round,
                self.keeps_surroundings(old(self)),
                self.events == old(self).events,
                ways_read(*way, *past, shots@, ways, pasts, n as int),
                flights_done(
                    *g,
                    *rules,
                    boxes@,
                    shots@,
                    ways,
                    pasts,
                    stages,
                    mids,
                    outs@,
                    n as int,
                ),
                stages[0] == (Scene { pieces: old(self).field@, record: old(f)@ }),
                stages[n as int] == (Scene { pieces: self.field@, record: f@ }),
            decreases shots@.len() - n,
        {
            let (entity, s) = shots[n];
            let ghost before = Scene { pieces: self.field@, record: f@ };
            let cs: Vec<Candidate> = way(entity, s);
            let passed: Vec<u64> = past(entity);
            let ghost was = passed;
            let out: Flown = self.resolve_shot(f, entity, &cs, passed, boxes, rules, g, rng);
            let ghost so_far = outs@;
            let ghost were = (ways, pasts, stages, mids);
            outs.push(out);
            proof {
                let after = Scene { pieces: self.field@, record: f@ };
                let mid = choose|mid: Scene| #[trigger]
                    flight_done(*g, *rules, boxes@, entity, cs@, was@, before, mid, after, out);
                ways = ways.push(cs);
                pasts = pasts.push(was);
                mids = mids.push(mid);
                stages = stages.push(after);
                assert(ways_read(*way, *past, shots@, ways, pasts, n + 1));
                assert forall|k: int| 0 <= k < n + 1 implies flight_done(
                    *g,
                    *rules,
                    boxes@,
                    (#[trigger] shots@[k]).0,
                    ways[k]@,
                    pasts[k]@,
                    stages[k],
                    mids[k],
                    stages[k + 1],
                    outs@[k],
                ) by {
                    if k < n {
                        assert(outs@[k] == so_far[k]);
                        assert(stages[k] == were.2[k]);
                        assert(stages[k + 1] == were.2[k + 1]);
                        assert(mids[k] == were.3[k]);
                        assert(ways[k] == were.0[k]);
                        assert(pasts[k] == were.1[k]);
                    }
                }
            }
            n += 1;
        }
        outs
    }
}

/// A beam fired this frame.
#[derive(Clone, Copy, Debug, PartialEq, Eq, Structural)]
pub struct Beam {
    pub owner: Owner,
    pub start: Point,
    pub end: Point,
}

/// What one beam did: it ends where it strikes, or at its end. A beam shoves
/// nobody and no frog dodges it.
pub open spec fn beam_done<
    L: Fn(Beam, Scalar) -> Point,
    A: Fn(Tank, Scalar) -> Tank,
    G: Fn(Frog, Scalar) -> Frog,
    C: Fn(Tile, Scalar) -> Blow,
    O: Fn(Beam) -> Scalar,
>(
    along: L,
    wound: A,
    hurt: G,
    wear: C,
    roll: O,
    beam: Beam,
    way: Seq<Candidate>,
    before: Scene,
    after: Scene,
    out: (Point, Option<HitResult>),
) -> bool {
    match swept(
        current(way, before.pieces, way.len() as int),
        beam.owner,
        Seq::<u64>::empty(),
    ) {
        None => out.0 == beam.end && out.1 is None && after == before,
        Some((target, t)) => {
            &&& call_ensures(along, (beam, t), out.0)
            &&& out.1 is Some
            &&& exists|damage: Scalar|
                {
                    &&& if rolls(before.pieces, target) {
                        call_ensures(roll, (beam,), damage)
                    } else {
                        damage == Scalar::zero()
                    }
                    &&& #[trigger] hit_applied(
                        wound,
                        hurt,
                        wear,
                        before.pieces,
                        before.record,
                        target,
                        out.0,
                        damage,
                        false,
                        DamageCause::Shot { dir: None },
                        after.pieces,
                        after.record,
                        out.1->0,
                    )
                }
        },
    }
}

impl Game {
    /// A beam is instant: it strikes the first thing along its `way` and does
    /// what it does at once. Returns where it ends and what it did.
    pub fn resolve_laser<
        L: Fn(Beam, Scalar) -> Point,
        A: Fn(Tank, Scalar) -> Tank,
        G: Fn(Frog, Scalar) -> Frog,
        C: Fn(Tile, Scalar) -> Blow,
        O: Fn(Beam) -> Scalar,
    >(
        &mut self,
        f: &mut Frame,
        beam: Beam,
        way: &Vec<Candidate>,
        along: &L,
        wound: &A,
        hurt: &G,
        wear: &C,
        roll: &O,
        one_shot: &Bernoulli,
        rng: &mut SmallRng,
    ) -> (out: (Point, Option<HitResult>))
        requires
            old(self).wf(),
            forall|b: Beam, t: Scalar| call_requires(*along, (b, t)),
            wounds_well(*wound),
            hurts_well(*hurt),
            forall|t: Tile, d: Scalar| call_requires(*wear, (t, d)),
            forall|b: Beam| call_requires(*roll, (b,)),
        ensures
            final(self).wf(),
            beam_done(
                *along,
                *wound,
                *hurt,
                *wear,
                *roll,
                beam,
                way@,
                Scene { pieces: old(self).field@, record: old(f)@ },
                Scene { pieces: final(self).field@, record: final(f)@ },
                out,
            ),
            final(self).round == old(self).round,
            final(self).keeps_surroundings(old(self)),
            final(self).events == old(self).events,
    {
        let ghost before = Scene { pieces: self.field@, record: f@ };
        let cs: Vec<Candidate> = self.current_candidates(way);
        let hit: Option<(ShellTarget, Scalar)> = sweep(&cs, beam.owner);
        match hit {
            None => (beam.end, None),
            Some((target, t)) => {
                proof {
                    lemma_swept_there(cs@, beam.owner, Seq::empty(), cs@.len() as int);
                    let i = choose|i: int| 0 <= i < cs@.len() && (#[trigger] cs@[i]).target == target;
                    assert(there(before.pieces, cs@[i].target));
                }
                let at: Point = along(beam, t);
                let damage: Scalar = if self.hit_rolls(target) {
                    roll(beam)
                } else {
                    Scalar::zero()
                };
                let done: HitResult = self.apply_hit(
                    f,
                    target,
                    at,
                    damage,
                    false,
                    DamageCause::Shot { dir: None },
                    wound,
                    hurt,
                    wear,
                    one_shot,
                    rng,
                );
                let out: (Point, Option<HitResult>) = (at, Some(done));
                proof {
                    let after = Scene { pieces: self.field@, record: f@ };
                    assert(hit_applied(
                        *wound,
                        *hurt,
                        *wear,
                        before.pieces,
                        before.record,
                        target,
                        out.0,
                        damage,
                        false,
                        DamageCause::Shot { dir: None },
                        after.pieces,
                        after.record,
                        out.1->0,
                    ));
                }
                out
            },
        }
    }
}

/// The first `n` beams did what they did in turn.
pub open spec fn beams_done<
    W: Fn(Beam) -> Vec<Candidate>,
    L: Fn(Beam, Scalar) -> Point,
    A: Fn(Tank, Scalar) -> Tank,
    G: Fn(Frog, Scalar) -> Frog,
    C: Fn(Tile, Scalar) -> Blow,
    O: Fn(Beam) -> Scalar,
>(
    way: W,
    along: L,
    wound: A,
    hurt: G,
    wear: C,
    roll: O,
    beams: Seq<Beam>,
    ways: Seq<Vec<Candidate>>,
    stages: Seq<Scene>,
    outs: Seq<(Point, Option<HitResult>)>,
    n: int,
) -> bool {
    &&& ways.len() == n
    &&& stages.len() == n + 1
    &&& outs.len() == n
    &&& forall|k: int|
        0 <= k < n ==> call_ensures(way, (#[trigger] beams[k],), ways[k]) && beam_done(
            along,
            wound,
            hurt,
            wear,
            roll,
            beams[k],
            ways[k]@,
            stages[k],
            stages[k + 1],
            outs[k],
        )
}

impl Game {
    /// The frame's beams, in the order they were fired. Returns where each
    /// ends and what it did.
    pub fn resolve_lasers<
        W: Fn(Beam) -> Vec<Candidate>,
        L: Fn(Beam, Scalar) -> Point,
        A: Fn(Tank, Scalar) -> Tank,
        G: Fn(Frog, Scalar) -> Frog,
        C: Fn(Tile, Scalar) -> Blow,
        O: Fn(Beam) -> Scalar,
    >(
        &mut self,
        f: &mut Frame,
        beams: &Vec<Beam>,
        way: &W,
        along: &L,
        wound: &A,
        hurt: &G,
        wear: &C,
        roll: &O,
        one_shot: &Bernoulli,
        rng: &mut SmallRng,
    ) -> (outs: Vec<(Point, Option<HitResult>)>)
        requires
            old(self).wf(),
            forall|b: Beam| call_requires(*way, (b,)),
            forall|b: Beam, t: Scalar| call_requires(*along, (b, t)),
            wounds_well(*wound),
            hurts_well(*hurt),
            forall|t: Tile, d: Scalar| call_requires(*wear, (t, d)),
            forall|b: Beam| call_requires(*roll, (b,)),
        ensures
            final(self).wf(),
            exists|ways: Seq<Vec<Candidate>>, stages: Seq<Scene>|
                {
                    &&& #[trigger] beams_done(
                        *way,
                        *along,
                        *wound,
                        *hurt,
                        *wear,
                        *roll,
                        beams@,
                        ways,
                        stages,
                        outs@,
                        beams@.len() as int,
                    )
                    &&& stages[0] == (Scene { pieces: old(self).field@, record: old(f)@ })
                    &&& stages[beams@.len() as int] == (Scene {
                        pieces: final(self).field@,
                        record: final(f)@,
                    })
                },
            final(self).round == old(self).round,
            final(self).keeps_surroundings(old(self)),
            final(self).events == old(self).events,
    {
        let ghost mut ways: Seq<Vec<Candidate>> = Seq::empty();
        let ghost mut stages: Seq<Scene> = seq![Scene { pieces: self.field@, record: f@ }];
        let mut outs: Vec<(Point, Option<HitResult>)> = Vec::new();
        let mut n: usize = 0;
        while n < beams.len()
            invariant
                n <= beams@.len(),
                forall|b: Beam| call_requires(*way, (b,)),
                forall|b: Beam, t: Scalar| call_requires(*along, (b, t)),
                wounds_well(*wound),
                hurts_well(*hurt),
                forall|t: Tile, d: Scalar| call_requires(*wear, (t, d)),
                forall|b: Beam| call_requires(*roll, (b,)),
                self.wf(),
                self.round == old(self).round,
                self.keeps_surroundings(old(self)),
                self.events == old(self).events,
                beams_done(
                    *way,
                    *along,
                    *wound,
                    *hurt,
                    *wear,
                    *roll,
                    beams@,
                    ways,
                    stages,
                    outs@,
                    n as int,
                ),
                stages[0] == (Scene { pieces: old(self).field@, record: old(f)@ }),
                stages[n as int] == (Scene { pieces: self.field@, record: f@ }),
            decreases beams@.len() - n,
        {
            let beam: Beam = beams[n];
            let cs: Vec<Candidate> = way(beam);
            let ghost so_far = outs@;
            let ghost were = (ways, stages);
            let out: (Point, Option<HitResult>) = self.resolve_laser(
                f,
                beam,
                &cs,
                along,
                wound,
                hurt,
                wear,
                roll,
                one_shot,
                rng,
            );
            outs.push(out);
            proof {
                ways = ways.push(cs);
                stages = stages.push(Scene { pieces: self.field@, record: f@ });
                assert forall|k: int| 0 <= k < n + 1 implies call_ensures(
                    *way,
                    (#[trigger] beams@[k],),
                    ways[k],
                ) && beam_done(
                    *along,
                    *wound,
                    *hurt,
                    *wear,
                    *roll,
                    beams@[k],
                    ways[k]@,
                    stages[k],
                    stages[k + 1],
                    outs@[k],
                ) by {
                    if k < n {
                        assert(outs@[k] == so_far[k]);
                        assert(ways[k] == were.0[k]);
                        assert(stages[k] == were.1[k]);
                        assert(stages[k + 1] == were.1[k + 1]);
                    }
                }
            }
            n += 1;
        }
        outs
    }
}

proof fn lemma_current_has(cs: Seq<Candidate>, pieces: Map<u64, Piece>, n: int, k: int)
    requires
        0 <= k < n <= cs.len(),
        there(pieces, cs[k].target),
    ensures
        current(cs, pieces, n).contains(refreshed(cs[k], pieces)),
    decreases n,
{
    let now = current(cs, pieces, n);
    let before = current(cs, pieces, n - 1);
    if k == n - 1 {
        assert(now.last() == refreshed(cs[k], pieces));
    } else {
        lemma_current_has(cs, pieces, n - 1, k);
        let i = choose|i: int| 0 <= i < before.len() && before[i] == refreshed(cs[k], pieces);
        assert(now[i] == before[i]);
    }
}

/// Whatever lies along a shot's way and is still on the field counts, as the
/// field has it now: a tank is a wreck if it has become one, and everything else
/// is as it was measured.
pub proof fn what_is_still_there_lies_in_the_way(
    cs: Seq<Candidate>,
    pieces: Map<u64, Piece>,
    k: int,
)
    requires
        0 <= k < cs.len(),
    ensures
        ({
            let now = current(cs, pieces, cs.len() as int);
            let c = cs[k];
            &&& c.target matches ShellTarget::PlayerTank(e) ==> pieces.contains_key(e)
                && pieces[e] is Tank ==> now.contains(
                Candidate { wreck: pieces[e]->Tank_0.wreck, ..c },
            )
            &&& c.target matches ShellTarget::EnemyTank(e) ==> pieces.contains_key(e)
                && pieces[e] is Tank ==> now.contains(
                Candidate { wreck: pieces[e]->Tank_0.wreck, ..c },
            )
            &&& c.target matches ShellTarget::Frog(e) ==> pieces.contains_key(e)
                && pieces[e] is Frog ==> now.contains(c)
            &&& c.target matches ShellTarget::Obstacle(e) ==> pieces.contains_key(e)
                && pieces[e] is Tile ==> now.contains(c)
            &&& c.target is Wall ==> now.contains(c)
        }),
{
    if there(pieces, cs[k].target) {
        lemma_current_has(cs, pieces, cs.len() as int, k);
    }
}

/// A shot burst on a target, and hit it if the frame is live.
pub open spec fn bursts_on(out: Flown, target: ShellTarget, live: bool) -> bool {
    &&& out.landed is Burst && out.landed->Burst_0 == target && out.landed->Burst_2 == live
    &&& out.hit is Some <==> live
}

/// A shot that strikes a tank without a shield bursts on it, and on a live frame
/// does what a burst does; one that strikes nothing flies on and changes nothing.
pub proof fn a_shot_that_strikes_a_bare_tank_bursts_on_it<
    L: Fn(Shot, Scalar) -> Point,
    T: Fn(Shot, Point) -> Shot,
    D: Fn(Tank, Shot) -> (Scalar, Scalar),
    R: Fn(Shot, TerrainBox) -> bool,
    B: Fn(Shot, TerrainBox) -> (Shot, Scalar),
    A: Fn(Tank, Scalar) -> Tank,
    G: Fn(Frog, Scalar) -> Frog,
    C: Fn(Tile, Scalar) -> Blow,
    O: Fn(Shot) -> Scalar,
    V: Fn(Shot) -> Point,
>(
    g: Gunnery<L, T, D, R, B, A, G, C, O, V>,
    rules: ShotRules,
    boxes: Seq<TerrainBox>,
    entity: u64,
    way: Seq<Candidate>,
    passed: Seq<u64>,
    before: Scene,
    mid: Scene,
    after: Scene,
    out: Flown,
    s: Shot,
)
    requires
        flight_done(g, rules, boxes, entity, way, passed, before, mid, after, out),
        before.pieces.contains_key(entity),
        before.pieces[entity] == Piece::Shot(s),
    ensures
        ({
            let met = swept(
                current(way, before.pieces, way.len() as int),
                s.owner,
                out.passed@,
            );
            &&& match met {
                None => out.landed is Missed && out.hit is None && after == before,
                Some((ShellTarget::PlayerTank(e), _)) => before.pieces.contains_key(e)
                    && before.pieces[e] is Tank && !Scalar::zero().below(
                    before.pieces[e]->Tank_0.shield,
                ) ==> bursts_on(out, ShellTarget::PlayerTank(e), rules.live),
                Some((ShellTarget::EnemyTank(e), _)) => before.pieces.contains_key(e)
                    && before.pieces[e] is Tank && !Scalar::zero().below(
                    before.pieces[e]->Tank_0.shield,
                ) ==> bursts_on(out, ShellTarget::EnemyTank(e), rules.live),
                Some((ShellTarget::Frog(e), _)) => bursts_on(
                    out,
                    ShellTarget::Frog(e),
                    rules.live,
                ),
                Some((ShellTarget::Wall, _)) => bursts_on(out, ShellTarget::Wall, rules.live),
                _ => true,
            }
            &&& !(out.landed matches Landed::Burst(_, _, true)) ==> out.hit is None && after == mid
            &&& out.landed is Bounced ==> out.hit is None
        }),
{
    assert(thing::<Shot>(before.pieces, entity) == Some(s));
    match swept(current(way, before.pieces, way.len() as int), s.owner, out.passed@) {
        Some((ShellTarget::PlayerTank(e), _)) => {
            if before.pieces.contains_key(e) && before.pieces[e] is Tank {
                assert(thing::<Tank>(before.pieces, e) == Some(before.pieces[e]->Tank_0));
            }
        },
        Some((ShellTarget::EnemyTank(e), _)) => {
            if before.pieces.contains_key(e) && before.pieces[e] is Tank {
                assert(thing::<Tank>(before.pieces, e) == Some(before.pieces[e]->Tank_0));
            }
        },
        _ => {},
    }
}

/// A running tank took what a roll of a beam's damage makes of it.
pub open spec fn wounds<A: Fn(Tank, Scalar) -> Tank, O: Fn(Beam) -> Scalar>(
    roll: O,
    wound: A,
    beam: Beam,
    e: u64,
    before: Scene,
    after: Scene,
) -> bool {
    before.pieces.contains_key(e) && before.pieces[e] is Tank && !before.pieces[e]->Tank_0.wreck
        ==> exists|damage: Scalar, hit: Tank|
        {
            &&& call_ensures(roll, (beam,), damage)
            &&& #[trigger] call_ensures(wound, (before.pieces[e]->Tank_0, damage), hit)
            &&& after.pieces.contains_key(e) && after.pieces[e] is Tank
            &&& after.pieces[e]->Tank_0 == (Tank { mind: after.pieces[e]->Tank_0.mind, ..hit })
        }
}

/// A beam that meets nothing reaches its end and does nothing; one that strikes
/// something ends there, wherever on its way that is, and does what a hit does.
pub proof fn a_beam_ends_where_it_strikes<
    L: Fn(Beam, Scalar) -> Point,
    A: Fn(Tank, Scalar) -> Tank,
    G: Fn(Frog, Scalar) -> Frog,
    C: Fn(Tile, Scalar) -> Blow,
    O: Fn(Beam) -> Scalar,
>(
    along: L,
    wound: A,
    hurt: G,
    wear: C,
    roll: O,
    beam: Beam,
    way: Seq<Candidate>,
    before: Scene,
    after: Scene,
    out: (Point, Option<HitResult>),
)
    requires
        beam_done(along, wound, hurt, wear, roll, beam, way, before, after, out),
    ensures
        ({
            let met = swept(
                current(way, before.pieces, way.len() as int),
                beam.owner,
                Seq::<u64>::empty(),
            );
            &&& met is None ==> out.0 == beam.end && out.1 is None && after == before
            &&& met is Some ==> call_ensures(along, (beam, (met->0).1), out.0) && out.1 is Some
            &&& match met {
                Some((ShellTarget::PlayerTank(e), _)) => wounds(roll, wound, beam, e, before, after),
                Some((ShellTarget::EnemyTank(e), _)) => wounds(roll, wound, beam, e, before, after),
                _ => true,
            }
        }),
{
    match swept(
        current(way, before.pieces, way.len() as int),
        beam.owner,
        Seq::<u64>::empty(),
    ) {
        Some((target, _)) => {
            let damage = choose|damage: Scalar|
                {
                    &&& if rolls(before.pieces, target) {
                        call_ensures(roll, (beam,), damage)
                    } else {
                        damage == Scalar::zero()
                    }
                    &&& #[trigger] hit_applied(
                        wound,
                        hurt,
                        wear,
                        before.pieces,
                        before.record,
                        target,
                        out.0,
                        damage,
                        false,
                        DamageCause::Shot { dir: None },
                        after.pieces,
                        after.record,
                        out.1->0,
                    )
                };
            let e = crate::shots::tank_of(target);
            if target.is_tank() && before.pieces.contains_key(e) && before.pieces[e] is Tank {
                let t = before.pieces[e]->Tank_0;
                assert(thing::<Tank>(before.pieces, e) == Some(t));
                crate::shots::a_burst_wounds_what_it_struck(
                    wound,
                    hurt,
                    wear,
                    before.pieces,
                    before.record,
                    target,
                    out.0,
                    damage,
                    false,
                    DamageCause::Shot { dir: None },
                    after.pieces,
                    after.record,
                    out.1->0,
                    e,
                );
                assert(rolls(before.pieces, target) == !t.wreck);
            }
        },
        None => {},
    }
}

/// A projectile lands only while it flies, and only with its own kind.
pub proof fn only_what_flies_can_land(kind: ProvisionalKind, s: Shot)
    ensures
        in_the_air(kind)(s) <==> s.kind == kind && s.state is Flying,
{
}

} // verus!
