//! Explosions that set one another off.
//!
//! A wreck may kill the next tank, and a barrel's blast may kill several. Each
//! is worked off in its turn, and the chain comes to an end: every kill takes
//! a tank out of the fight for good, and no blast sets a barrel off on the
//! spot.

use rand::distr::Bernoulli;
use rand::rngs::SmallRng;
use vstd::prelude::*;

use crate::arms::is_walk;
use crate::blasts::{
    blasted, cells_lit, frog_deaths, frogs_blasted, landed, lights_well, near_trail,
    without_landed, wreck_told, Blasted, Harm,
};
use crate::burning::sparked;
use crate::combat::{in_reach, pool, pool_fits, Explosion, ExplosionQueue};
use crate::detonation::{
    blast_done, blast_lands, blast_told, burst_lands, darkened, frogs_bitten, frogs_share, may_suffer, measured, over_soot, perches,
    reaches, shakes_well, sites, source_of, stands, tanks_share, tanks_struck, tiles_after,
    tiles_share, tiles_taken, trail_near, wreck_lands, wreck_shown, BlastOutcome, BlastRules,
    Scorched, Source, WreckRules,
};
use crate::dice::Odds;
use crate::effects::Cookoff;
use crate::field::{lists, selects, thing};
use crate::frame::{Frame, Kill, PendingBlast, Record, Scene};
use crate::game::{Game, Mark};
use crate::kinds::Cell;
use crate::pieces::{Frog, Missile, Piece, Tank, Tile};
use crate::props::{all_lit, blow, fires_inside, Blow, DamageCause, GroundFire, Spark};
use crate::scalar::{Point, Scalar};

verus! {

/// The tanks that are no wrecks.
pub open spec fn standing(pieces: Map<u64, Piece>) -> Set<u64> {
    Set::new(|id: u64| thing::<Tank>(pieces, id) matches Some(t) && !t.wreck)
}

/// What an explosion cannot do: take back a kill, kill without taking a tank
/// out of the fight, or queue a barrel's blast.
pub open spec fn winds_down(at: Scene, after: Scene) -> bool {
    &&& at.record.kills.len() <= after.record.kills.len()
    &&& forall|i: int|
        0 <= i < at.record.kills.len() ==> #[trigger] after.record.kills[i] == at.record.kills[i]
    &&& at.record.kills.len() + standing(at.pieces).len() >= after.record.kills.len() + standing(
        after.pieces,
    ).len()
    &&& after.record.pending_blasts == at.record.pending_blasts
}

/// What plain damage leaves of a tile is made of what it was made of.
pub open spec fn keeps_materials<W: Fn(Source, Point, Tile, Scalar, bool) -> (Scalar, Blow)>(
    wear: W,
) -> bool {
    forall|w: Source, c: Point, t: Tile, d: Scalar, roll: bool, r: (Scalar, Blow)| #[trigger]
        call_ensures(wear, (w, c, t, d, roll), r) ==> r.1.worn.material == t.material
}

proof fn lemma_standing_finite(pieces: Map<u64, Piece>)
    requires
        pieces.dom().finite(),
    ensures
        standing(pieces).finite(),
{
    vstd::set_lib::lemma_set_subset_finite(pieces.dom(), standing(pieces));
}

proof fn lemma_tanks_wind_down(
    at: Blasted,
    walk: Seq<u64>,
    distances: Seq<Scalar>,
    harm: Harm,
    radius: Scalar,
    outs: Seq<Tank>,
    n: int,
)
    requires
        0 <= n <= walk.len(),
        walk.no_duplicates(),
        at.pieces.dom().finite(),
        forall|k: int| 0 <= k < walk.len() ==> thing::<Tank>(at.pieces, #[trigger] walk[k]) is Some,
    ensures
        ({
            let after = blasted(at, walk, distances, harm, radius, outs, n);
            &&& after.pieces.dom() == at.pieces.dom()
            &&& forall|k: int|
                n <= k < walk.len() ==> thing::<Tank>(after.pieces, #[trigger] walk[k])
                    == thing::<Tank>(at.pieces, walk[k])
            &&& winds_down(
                Scene { pieces: at.pieces, record: at.record },
                Scene { pieces: after.pieces, record: after.record },
            )
        }),
    decreases n,
{
    if n > 0 {
        lemma_tanks_wind_down(at, walk, distances, harm, radius, outs, n - 1);
        let now = blasted(at, walk, distances, harm, radius, outs, n - 1);
        let after = blasted(at, walk, distances, harm, radius, outs, n);
        let id = walk[n - 1];
        let t = thing::<Tank>(at.pieces, id)->0;
        assert(thing::<Tank>(now.pieces, id) == Some(t));
        assert(now.pieces.contains_key(id));
        assert forall|k: int| n <= k < walk.len() implies thing::<Tank>(
            after.pieces,
            #[trigger] walk[k],
        ) == thing::<Tank>(at.pieces, walk[k]) by {
            assert(walk[k] != walk[n - 1]);
        }
        assert(after.pieces.dom() =~= at.pieces.dom());
        if in_reach(t.wreck, distances[n - 1], radius) && harm.hurts(t.owner) {
            let hit = outs[n - 1];
            lemma_standing_finite(now.pieces);
            assert(standing(now.pieces).contains(id));
            if hit.wreck {
                assert(standing(after.pieces) =~= standing(now.pieces).remove(id));
            } else {
                assert(standing(after.pieces) =~= standing(now.pieces));
            }
        }
    }
}

proof fn lemma_frogs_wind_down(
    pieces: Map<u64, Piece>,
    f: Record,
    frogs: Seq<(u64, Frog)>,
    distances: Seq<Scalar>,
    harm: Harm,
    radius: Scalar,
    outs: Seq<Frog>,
    n: int,
)
    requires
        0 <= n <= frogs.len(),
        lists::<Frog>(pieces, frogs),
    ensures
        ({
            let after = frogs_blasted(pieces, frogs, distances, harm, radius, outs, n);
            &&& after.dom() == pieces.dom()
            &&& standing(after) == standing(pieces)
            &&& forall|k: int|
                n <= k < frogs.len() ==> after[(#[trigger] frogs[k]).0] == pieces[frogs[k].0]
        }),
        frog_deaths(f, frogs, distances, harm, radius, outs, n).kills == f.kills,
        frog_deaths(f, frogs, distances, harm, radius, outs, n).pending_blasts == f.pending_blasts,
    decreases n,
{
    if n > 0 {
        lemma_frogs_wind_down(pieces, f, frogs, distances, harm, radius, outs, n - 1);
        let now = frogs_blasted(pieces, frogs, distances, harm, radius, outs, n - 1);
        let after = frogs_blasted(pieces, frogs, distances, harm, radius, outs, n);
        let id = frogs[n - 1].0;
        assert(thing::<Frog>(pieces, id) == Some(frogs[n - 1].1));
        assert(now[id] == pieces[id]);
        assert(after.dom() =~= pieces.dom());
        assert(standing(after) =~= standing(now));
        assert forall|k: int| n <= k < frogs.len() implies after[(#[trigger] frogs[k]).0]
            == pieces[frogs[k].0] by {
            assert(frogs[n - 1].0 != frogs[k].0);
        }
    }
}

proof fn lemma_tiles_wind_down<W: Fn(Source, Point, Tile, Scalar, bool) -> (Scalar, Blow)>(
    wear: W,
    source: Source,
    at: Scene,
    all: Seq<(u64, Tile)>,
    distances: Seq<Scalar>,
    radius: Scalar,
    barrel: bool,
    from: Point,
    shares: Seq<(Scalar, Blow)>,
    outs: Seq<(Tile, bool)>,
    n: int,
)
    requires
        0 <= n <= all.len(),
        lists::<Tile>(at.pieces, all),
        tiles_taken(
            wear,
            source,
            all,
            distances,
            radius,
            barrel,
            from,
            shares,
            outs,
            all.len() as int,
        ),
        keeps_materials(wear),
    ensures
        ({
            let after = tiles_after(at, all, distances, radius, barrel, from, shares, outs, n);
            &&& after.pieces.dom() == at.pieces.dom()
            &&& standing(after.pieces) == standing(at.pieces)
            &&& after.record.kills == at.record.kills
            &&& after.record.pending_blasts == at.record.pending_blasts
            &&& forall|k: int|
                n <= k < all.len() ==> after.pieces[(#[trigger] all[k]).0] == at.pieces[all[k].0]
        }),
    decreases n,
{
    if n > 0 {
        lemma_tiles_wind_down(
            wear,
            source,
            at,
            all,
            distances,
            radius,
            barrel,
            from,
            shares,
            outs,
            n - 1,
        );
        let now = tiles_after(at, all, distances, radius, barrel, from, shares, outs, n - 1);
        let after = tiles_after(at, all, distances, radius, barrel, from, shares, outs, n);
        let id = all[n - 1].0;
        let t = all[n - 1].1;
        assert(thing::<Tile>(at.pieces, id) == Some(t));
        assert(now.pieces[id] == at.pieces[id]);
        assert(after.pieces.dom() =~= at.pieces.dom());
        assert(standing(after.pieces) =~= standing(now.pieces));
        assert forall|k: int| n <= k < all.len() implies after.pieces[(#[trigger] all[k]).0]
            == at.pieces[all[k].0] by {
            assert(all[n - 1].0 != all[k].0);
        }
        if reaches(t, distances[n - 1], radius, barrel) {
            let cause = DamageCause::Blast { falloff: shares[n - 1].0, from };
            assert(may_suffer(source, t, shares[n - 1].1, cause, outs[n - 1]));
            let dark = darkened(source, t, shares[n - 1].1.face);
            let over = over_soot(shares[n - 1].1, dark);
            let heads = choose|heads: bool|
                outs[n - 1] == #[trigger] blow(dark, over, cause, heads);
            assert(shares[n - 1].1.worn.material == t.material);
            assert(outs[n - 1].1 ==> !outs[n - 1].0.material.is_explosive());
        }
    }
}

proof fn lemma_tanks_share<R: Fn(Point, Point) -> Scalar, S: Fn(Source, Tank, Scalar) -> Tank>(
    range: R,
    strike: S,
    source: Source,
    from: Point,
    game: Game,
    harm: Harm,
    radius: Scalar,
    at: Blasted,
    after: Blasted,
)
    requires
        game.wf(),
        game.field@ == at.pieces,
        tanks_share(range, strike, source, from, game.round.seats@, harm, radius, at, after),
    ensures
        after.pieces.dom() == at.pieces.dom(),
        winds_down(
            Scene { pieces: at.pieces, record: at.record },
            Scene { pieces: after.pieces, record: after.record },
        ),
{
    let (walk, distances, outs) = choose|walk: Seq<u64>, distances: Seq<Scalar>, outs: Seq<Tank>|
        {
            &&& is_walk(game.round.seats@, at.pieces, walk)
            &&& measured(range, from, stands(at.pieces, walk), distances)
            &&& #[trigger] tanks_struck(
                strike,
                source,
                at.pieces,
                walk,
                distances,
                harm,
                radius,
                outs,
                walk.len() as int,
            )
            &&& after == blasted(at, walk, distances, harm, radius, outs, walk.len() as int)
        };
    game.lemma_walk_there(walk);
    lemma_tanks_wind_down(at, walk, distances, harm, radius, outs, walk.len() as int);
}

proof fn lemma_frogs_share<R: Fn(Point, Point) -> Scalar, B: Fn(Source, Frog, Scalar) -> Frog>(
    range: R,
    bite: B,
    source: Source,
    from: Point,
    harm: Harm,
    radius: Scalar,
    at: Scene,
    after: Scene,
)
    requires
        frogs_share(range, bite, source, from, harm, radius, at, after),
    ensures
        winds_down(at, after),
{
    let (frogs, distances, outs) = choose|
        frogs: Seq<(u64, Frog)>,
        distances: Seq<Scalar>,
        outs: Seq<Frog>,
    |
        {
            let n = frogs.len() as int;
            &&& lists::<Frog>(at.pieces, frogs)
            &&& measured(range, from, perches(frogs), distances)
            &&& #[trigger] frogs_bitten(
                bite,
                source,
                frogs,
                distances,
                harm,
                radius,
                outs,
                frogs.len() as int,
            )
            &&& after.pieces == frogs_blasted(at.pieces, frogs, distances, harm, radius, outs, n)
            &&& after.record == frog_deaths(at.record, frogs, distances, harm, radius, outs, n)
        };
    lemma_frogs_wind_down(
        at.pieces,
        at.record,
        frogs,
        distances,
        harm,
        radius,
        outs,
        frogs.len() as int,
    );
}

proof fn lemma_tiles_share<
    R: Fn(Point, Point) -> Scalar,
    W: Fn(Source, Point, Tile, Scalar, bool) -> (Scalar, Blow),
>(
    range: R,
    wear: W,
    source: Source,
    from: Point,
    radius: Scalar,
    barrel: bool,
    at: Scene,
    after: Scene,
)
    requires
        keeps_materials(wear),
        tiles_share(range, wear, source, from, radius, barrel, at, after),
    ensures
        winds_down(at, after),
{
    let (all, distances, shares, outs) = choose|
        all: Seq<(u64, Tile)>,
        distances: Seq<Scalar>,
        shares: Seq<(Scalar, Blow)>,
        outs: Seq<(Tile, bool)>,
    |
        {
            &&& lists::<Tile>(at.pieces, all)
            &&& measured(range, from, sites(all), distances)
            &&& #[trigger] tiles_taken(
                wear,
                source,
                all,
                distances,
                radius,
                barrel,
                from,
                shares,
                outs,
                all.len() as int,
            )
            &&& after == tiles_after(
                at,
                all,
                distances,
                radius,
                barrel,
                from,
                shares,
                outs,
                all.len() as int,
            )
        };
    lemma_tiles_wind_down(
        wear,
        source,
        at,
        all,
        distances,
        radius,
        barrel,
        from,
        shares,
        outs,
        all.len() as int,
    );
}

proof fn lemma_lit(fires: Seq<GroundFire>, f: Record, sparks: Seq<Spark>, n: int)
    requires
        0 <= n <= sparks.len(),
    ensures
        all_lit(fires, f, sparks, n).1.kills == f.kills,
        all_lit(fires, f, sparks, n).1.pending_blasts == f.pending_blasts,
    decreases n,
{
    if n > 0 {
        lemma_lit(fires, f, sparks, n - 1);
    }
}

proof fn lemma_cells_lit<S: Fn(Cell) -> Spark>(
    spark: S,
    cells: Seq<Cell>,
    before: (Seq<GroundFire>, Record),
    after: (Seq<GroundFire>, Record),
)
    requires
        cells_lit(spark, cells, before, after),
    ensures
        after.1.kills == before.1.kills,
        after.1.pending_blasts == before.1.pending_blasts,
{
    let sparks = choose|sparks: Seq<Spark>| #[trigger]
        sparked(spark, cells, sparks) && after == all_lit(
            before.0,
            before.1,
            sparks,
            sparks.len() as int,
        );
    lemma_lit(before.0, before.1, sparks, sparks.len() as int);
}

/// A dying tank's explosion brings the chain nearer its end: whatever it kills
/// no longer stands, and it sets no barrel off on the spot.
pub proof fn a_wreck_winds_down<
    R: Fn(Point, Point) -> Scalar,
    S: Fn(Source, Tank, Scalar) -> Tank,
    W: Fn(Source, Point, Tile, Scalar, bool) -> (Scalar, Blow),
>(
    range: R,
    strike: S,
    wear: W,
    kill: Kill,
    game: Game,
    record: Record,
    radius: Scalar,
    after: Scene,
    shoved: Seq<u64>,
)
    requires
        game.wf(),
        keeps_materials(wear),
        wreck_lands(
            range,
            strike,
            wear,
            kill,
            game.round.seats@,
            radius,
            Scene { pieces: game.field@, record },
            after,
            shoved,
        ),
    ensures
        winds_down(Scene { pieces: game.field@, record }, after),
{
    let at = Blasted {
        pieces: game.field@,
        record: wreck_told(record, kill),
        shoved: Seq::<u64>::empty(),
    };
    let tanks = choose|tanks: Blasted|
        {
            &&& #[trigger] tanks_share(
                range,
                strike,
                Source::Wreck,
                kill.at,
                game.round.seats@,
                Harm::Opponents(kill.victim),
                radius,
                at,
                tanks,
            )
            &&& shoved == tanks.shoved
            &&& tiles_share(
                range,
                wear,
                Source::Wreck,
                kill.at,
                radius,
                false,
                Scene { pieces: tanks.pieces, record: tanks.record },
                after,
            )
        };
    lemma_tanks_share(
        range,
        strike,
        Source::Wreck,
        kill.at,
        game,
        Harm::Opponents(kill.victim),
        radius,
        at,
        tanks,
    );
    lemma_tiles_share(
        range,
        wear,
        Source::Wreck,
        kill.at,
        radius,
        false,
        Scene { pieces: tanks.pieces, record: tanks.record },
        after,
    );
}

/// So does a barrel's blast.
pub proof fn a_blast_winds_down<
    R: Fn(Point, Point) -> Scalar,
    S: Fn(Source, Tank, Scalar) -> Tank,
    B: Fn(Source, Frog, Scalar) -> Frog,
    W: Fn(Source, Point, Tile, Scalar, bool) -> (Scalar, Blow),
    C: Fn(Point, Cell) -> Scalar,
    P: Fn(Cell) -> Spark,
    T: Fn(Cell) -> Spark,
    L: Fn(Mark) -> bool,
    K: Fn(Point, u32) -> Cookoff,
>(
    range: R,
    strike: S,
    bite: B,
    wear: W,
    cells: C,
    pools: P,
    trail: T,
    lying: L,
    pop: K,
    blast: PendingBlast,
    live: bool,
    rules: BlastRules,
    odds: Odds,
    before: (Game, Record),
    after: (Game, Record),
    out: BlastOutcome,
)
    requires
        before.0.wf(),
        keeps_materials(wear),
        blast_done(
            range,
            strike,
            bite,
            wear,
            cells,
            pools,
            trail,
            lying,
            pop,
            blast,
            live,
            rules,
            odds,
            before,
            after,
            out,
        ),
    ensures
        winds_down(
            Scene { pieces: before.0.field@, record: before.1 },
            Scene { pieces: after.0.field@, record: after.1 },
        ),
{
    if live {
        let source = source_of(blast.drum);
        let oil = before.0.ground.oil@;
        let at = Scorched {
            pieces: before.0.field@,
            fires: before.0.ground.fires@,
            record: before.1,
        };
        let (tanks, frogs, tiles, end) = choose|
            tanks: Blasted,
            frogs: Scene,
            tiles: Scene,
            end: Scorched,
        |
            {
                &&& #[trigger] blast_lands(
                    range,
                    strike,
                    bite,
                    wear,
                    cells,
                    pools,
                    trail,
                    rules,
                    source,
                    blast.center,
                    before.0.round.seats@,
                    oil,
                    out.pool,
                    at,
                    tanks,
                    frogs,
                    tiles,
                    end,
                )
                &&& out.shoved@ == tanks.shoved
                &&& after.0.field@ == end.pieces
                &&& after.0.ground.fires@ == end.fires
                &&& after.1 == blast_told(end.record, blast, rules.parts)
            };
        let start = Blasted { pieces: at.pieces, record: at.record, shoved: Seq::<u64>::empty() };
        lemma_tanks_share(
            range,
            strike,
            source,
            blast.center,
            before.0,
            Harm::Everyone,
            rules.radius,
            start,
            tanks,
        );
        lemma_frogs_share(
            range,
            bite,
            source,
            blast.center,
            Harm::Everyone,
            rules.radius,
            Scene { pieces: tanks.pieces, record: tanks.record },
            frogs,
        );
        lemma_tiles_share(
            range,
            wear,
            source,
            blast.center,
            rules.radius,
            true,
            frogs,
            tiles,
        );
        let (distances, near, mid) = choose|
            distances: Seq<Scalar>,
            near: Seq<bool>,
            mid: (Seq<GroundFire>, Record),
        |
            {
                &&& #[trigger] trail_near(
                    cells,
                    blast.center,
                    rules.radius,
                    oil,
                    distances,
                    near,
                )
                &&& if out.pool {
                    cells_lit(
                        pools,
                        pool(rules.cell, rules.reach as int),
                        (at.fires, tiles.record),
                        mid,
                    )
                } else {
                    mid == (at.fires, tiles.record)
                }
                &&& #[trigger] cells_lit(
                    trail,
                    near_trail(oil, near, oil.len() as int),
                    mid,
                    (end.fires, end.record),
                )
            };
        if out.pool {
            lemma_cells_lit(
                pools,
                pool(rules.cell, rules.reach as int),
                (at.fires, tiles.record),
                mid,
            );
        }
        lemma_cells_lit(
            trail,
            near_trail(oil, near, oil.len() as int),
            mid,
            (end.fires, end.record),
        );
    }
}

/// The host's part in an explosion, bundled.
pub struct Ordnance<Q, R, S, B, W, C, P, T, L, K> {
    /// What a barrel's blast is tuned to.
    pub plan: Q,
    /// How far a place lies from the centre.
    pub range: R,
    /// A tank as a share of the explosion leaves it.
    pub strike: S,
    /// A frog as its share leaves it.
    pub bite: B,
    /// How much reaches a tile, and the blow that comes to.
    pub wear: W,
    /// How far a cell of the oil trail lies from the centre.
    pub cells: C,
    /// How a cell of a pool of fire is lit, and how one of the trail is.
    pub pool: P,
    pub trail: T,
    /// Whether rubble has come to rest.
    pub lying: L,
    /// One of the pops that follow.
    pub pop: K,
    /// How often an oil drum leaves a pool of fire.
    pub odds: Odds,
}

/// The host's part can be asked for any explosion, leaves tanks and frogs
/// whose they were and tiles what they were made of, and plans no pool of fire
/// that leaves the grid.
pub open spec fn well_laid<
    Q: Fn(PendingBlast) -> BlastRules,
    R: Fn(Point, Point) -> Scalar,
    S: Fn(Source, Tank, Scalar) -> Tank,
    B: Fn(Source, Frog, Scalar) -> Frog,
    W: Fn(Source, Point, Tile, Scalar, bool) -> (Scalar, Blow),
    C: Fn(Point, Cell) -> Scalar,
    P: Fn(Cell) -> Spark,
    T: Fn(Cell) -> Spark,
    L: Fn(Mark) -> bool,
    K: Fn(Point, u32) -> Cookoff,
>(o: Ordnance<Q, R, S, B, W, C, P, T, L, K>) -> bool {
    &&& forall|b: PendingBlast| call_requires(o.plan, (b,))
    &&& forall|b: PendingBlast, rules: BlastRules| #[trigger]
        call_ensures(o.plan, (b,), rules) ==> (rules.reach > 0 ==> pool_fits(
            rules.cell,
            rules.reach as int,
        ))
    &&& shakes_well(o.range, o.strike, o.bite, o.wear)
    &&& keeps_materials(o.wear)
    &&& forall|p: Point, c: Cell| call_requires(o.cells, (p, c))
    &&& lights_well(o.pool)
    &&& lights_well(o.trail)
    &&& forall|m: Mark| call_requires(o.lying, (m,))
    &&& forall|c: Point, n: u32| call_requires(o.pop, (c, n))
}

/// One explosion worked off, and what it leaves the host to do.
#[derive(Debug)]
pub enum Aftermath {
    Wreck { kill: Kill, shoved: Vec<u64> },
    Blast { blast: PendingBlast, rules: BlastRules, outcome: BlastOutcome },
}

/// The game, the record and the queue, part of the way through a chain.
pub struct Stage {
    pub game: Game,
    pub record: Record,
    pub queue: ExplosionQueue,
}

impl ExplosionQueue {
    /// Only what is in the lists was worked off.
    pub open spec fn within(self, f: Record) -> bool {
        self.wrecks_done <= f.kills.len() && self.blasts_done <= f.pending_blasts.len()
    }
}

/// What is due at a stage: wrecks before barrels, each list in order.
pub open spec fn due(at: Stage) -> Option<Explosion> {
    if at.queue.wrecks_done < at.record.kills.len() {
        Some(Explosion::Wreck(at.queue.wrecks_done))
    } else if at.queue.blasts_done < at.record.pending_blasts.len() {
        Some(Explosion::Blast(at.queue.blasts_done))
    } else {
        None
    }
}

/// The explosion that was due was worked off.
pub open spec fn worked_off<
    Q: Fn(PendingBlast) -> BlastRules,
    R: Fn(Point, Point) -> Scalar,
    S: Fn(Source, Tank, Scalar) -> Tank,
    B: Fn(Source, Frog, Scalar) -> Frog,
    W: Fn(Source, Point, Tile, Scalar, bool) -> (Scalar, Blow),
    C: Fn(Point, Cell) -> Scalar,
    P: Fn(Cell) -> Spark,
    T: Fn(Cell) -> Spark,
    L: Fn(Mark) -> bool,
    K: Fn(Point, u32) -> Cookoff,
>(
    o: Ordnance<Q, R, S, B, W, C, P, T, L, K>,
    live: bool,
    wreck: WreckRules,
    radius: Scalar,
    at: Stage,
    after: Stage,
    left: Aftermath,
) -> bool {
    match left {
        Aftermath::Wreck { kill, shoved } => {
            &&& due(at) == Some(Explosion::Wreck(at.queue.wrecks_done))
            &&& kill == at.record.kills[at.queue.wrecks_done as int]
            &&& after.queue.wrecks_done == at.queue.wrecks_done + 1
            &&& after.queue.blasts_done == at.queue.blasts_done
            &&& wreck_shown(
                o.range,
                o.pop,
                kill.at,
                wreck,
                Game { field: after.game.field, ..at.game },
                after.game,
            )
            &&& wreck_lands(
                o.range,
                o.strike,
                o.wear,
                kill,
                at.game.round.seats@,
                radius,
                Scene { pieces: at.game.field@, record: at.record },
                Scene { pieces: after.game.field@, record: after.record },
                shoved@,
            )
        },
        Aftermath::Blast { blast, rules, outcome } => {
            &&& due(at) == Some(Explosion::Blast(at.queue.blasts_done))
            &&& blast == at.record.pending_blasts[at.queue.blasts_done as int]
            &&& after.queue.wrecks_done == at.queue.wrecks_done
            &&& after.queue.blasts_done == at.queue.blasts_done + 1
            &&& call_ensures(o.plan, (blast,), rules)
            &&& blast_done(
                o.range,
                o.strike,
                o.bite,
                o.wear,
                o.cells,
                o.pool,
                o.trail,
                o.lying,
                o.pop,
                blast,
                live,
                rules,
                o.odds,
                (at.game, at.record),
                (after.game, after.record),
                outcome,
            )
        },
    }
}

/// Everything that was due was worked off in turn, from stage to stage.
pub open spec fn chain_worked<
    Q: Fn(PendingBlast) -> BlastRules,
    R: Fn(Point, Point) -> Scalar,
    S: Fn(Source, Tank, Scalar) -> Tank,
    B: Fn(Source, Frog, Scalar) -> Frog,
    W: Fn(Source, Point, Tile, Scalar, bool) -> (Scalar, Blow),
    C: Fn(Point, Cell) -> Scalar,
    P: Fn(Cell) -> Spark,
    T: Fn(Cell) -> Spark,
    L: Fn(Mark) -> bool,
    K: Fn(Point, u32) -> Cookoff,
>(
    o: Ordnance<Q, R, S, B, W, C, P, T, L, K>,
    live: bool,
    wreck: WreckRules,
    radius: Scalar,
    stages: Seq<Stage>,
    left: Seq<Aftermath>,
) -> bool {
    stages.len() == left.len() + 1 && forall|k: int|
        0 <= k < left.len() ==> worked_off(
            o,
            live,
            wreck,
            radius,
            #[trigger] stages[k],
            stages[k + 1],
            left[k],
        )
}

proof fn lemma_chain_grows<
    Q: Fn(PendingBlast) -> BlastRules,
    R: Fn(Point, Point) -> Scalar,
    S: Fn(Source, Tank, Scalar) -> Tank,
    B: Fn(Source, Frog, Scalar) -> Frog,
    W: Fn(Source, Point, Tile, Scalar, bool) -> (Scalar, Blow),
    C: Fn(Point, Cell) -> Scalar,
    P: Fn(Cell) -> Spark,
    T: Fn(Cell) -> Spark,
    L: Fn(Mark) -> bool,
    K: Fn(Point, u32) -> Cookoff,
>(
    o: Ordnance<Q, R, S, B, W, C, P, T, L, K>,
    live: bool,
    wreck: WreckRules,
    radius: Scalar,
    stages: Seq<Stage>,
    left: Seq<Aftermath>,
    after: Stage,
    what: Aftermath,
)
    requires
        chain_worked(o, live, wreck, radius, stages, left),
        worked_off(o, live, wreck, radius, stages.last(), after, what),
    ensures
        chain_worked(o, live, wreck, radius, stages.push(after), left.push(what)),
{
    let grown = stages.push(after);
    assert forall|k: int| 0 <= k < left.len() + 1 implies worked_off(
        o,
        live,
        wreck,
        radius,
        #[trigger] grown[k],
        grown[k + 1],
        left.push(what)[k],
    ) by {
        if k < left.len() {
            assert(grown[k] == stages[k]);
        }
    }
}

/// The kills among the first `n` explosions, in the order they were worked off.
pub open spec fn wrecks_of(left: Seq<Aftermath>, n: int) -> Seq<Kill>
    decreases n,
{
    if n <= 0 {
        Seq::empty()
    } else {
        match left[n - 1] {
            Aftermath::Wreck { kill, .. } => wrecks_of(left, n - 1).push(kill),
            Aftermath::Blast { .. } => wrecks_of(left, n - 1),
        }
    }
}

/// The barrels among them.
pub open spec fn blasts_of(left: Seq<Aftermath>, n: int) -> Seq<PendingBlast>
    decreases n,
{
    if n <= 0 {
        Seq::empty()
    } else {
        match left[n - 1] {
            Aftermath::Wreck { .. } => blasts_of(left, n - 1),
            Aftermath::Blast { blast, .. } => blasts_of(left, n - 1).push(blast),
        }
    }
}

/// What was worked off is the head of each list, in order.
pub open spec fn tallied(left: Seq<Aftermath>, queue: ExplosionQueue, f: Record) -> bool {
    &&& queue.within(f)
    &&& wrecks_of(left, left.len() as int) == f.kills.take(queue.wrecks_done as int)
    &&& blasts_of(left, left.len() as int) == f.pending_blasts.take(queue.blasts_done as int)
}

proof fn lemma_of_same(a: Seq<Aftermath>, b: Seq<Aftermath>, n: int)
    requires
        0 <= n <= a.len(),
        n <= b.len(),
        forall|i: int| 0 <= i < n ==> a[i] == b[i],
    ensures
        wrecks_of(a, n) == wrecks_of(b, n),
        blasts_of(a, n) == blasts_of(b, n),
    decreases n,
{
    if n > 0 {
        lemma_of_same(a, b, n - 1);
    }
}

proof fn lemma_tally<
    Q: Fn(PendingBlast) -> BlastRules,
    R: Fn(Point, Point) -> Scalar,
    S: Fn(Source, Tank, Scalar) -> Tank,
    B: Fn(Source, Frog, Scalar) -> Frog,
    W: Fn(Source, Point, Tile, Scalar, bool) -> (Scalar, Blow),
    C: Fn(Point, Cell) -> Scalar,
    P: Fn(Cell) -> Spark,
    T: Fn(Cell) -> Spark,
    L: Fn(Mark) -> bool,
    K: Fn(Point, u32) -> Cookoff,
>(
    o: Ordnance<Q, R, S, B, W, C, P, T, L, K>,
    live: bool,
    wreck: WreckRules,
    radius: Scalar,
    at: Stage,
    after: Stage,
    left: Seq<Aftermath>,
    what: Aftermath,
)
    requires
        tallied(left, at.queue, at.record),
        worked_off(o, live, wreck, radius, at, after, what),
        winds_down(
            Scene { pieces: at.game.field@, record: at.record },
            Scene { pieces: after.game.field@, record: after.record },
        ),
        after.queue.within(after.record),
    ensures
        tallied(left.push(what), after.queue, after.record),
{
    let grown = left.push(what);
    let n = left.len() as int;
    lemma_of_same(left, grown, n);
    assert(grown[n] == what);
    let (kills, blasts) = (after.record.kills, after.record.pending_blasts);
    assert(kills.take(at.queue.wrecks_done as int) =~= at.record.kills.take(
        at.queue.wrecks_done as int,
    ));
    match what {
        Aftermath::Wreck { kill, .. } => {
            assert(kills[at.queue.wrecks_done as int] == kill);
            assert(kills.take(after.queue.wrecks_done as int) =~= kills.take(
                at.queue.wrecks_done as int,
            ).push(kill));
        },
        Aftermath::Blast { blast, .. } => {
            assert(blasts.take(after.queue.blasts_done as int) =~= blasts.take(
                at.queue.blasts_done as int,
            ).push(blast));
        },
    }
}

impl Game {
    /// One dying tank's explosion, show and all.
    fn blow_wreck<
        Q: Fn(PendingBlast) -> BlastRules,
        R: Fn(Point, Point) -> Scalar,
        S: Fn(Source, Tank, Scalar) -> Tank,
        B: Fn(Source, Frog, Scalar) -> Frog,
        W: Fn(Source, Point, Tile, Scalar, bool) -> (Scalar, Blow),
        C: Fn(Point, Cell) -> Scalar,
        P: Fn(Cell) -> Spark,
        T: Fn(Cell) -> Spark,
        L: Fn(Mark) -> bool,
        K: Fn(Point, u32) -> Cookoff,
    >(
        &mut self,
        f: &mut Frame,
        kill: &Kill,
        wreck: &WreckRules,
        radius: Scalar,
        one_shot: &Bernoulli,
        o: &Ordnance<Q, R, S, B, W, C, P, T, L, K>,
        rng: &mut SmallRng,
    ) -> (shoved: Vec<u64>)
        requires
            old(self).wf(),
            well_laid(*o),
        ensures
            final(self).wf(),
            wreck_shown(
                o.range,
                o.pop,
                kill.at,
                *wreck,
                Game { field: final(self).field, ..*old(self) },
                *final(self),
            ),
            wreck_lands(
                o.range,
                o.strike,
                o.wear,
                *kill,
                old(self).round.seats@,
                radius,
                Scene { pieces: old(self).field@, record: old(f)@ },
                Scene { pieces: final(self).field@, record: final(f)@ },
                shoved@,
            ),
    {
        self.wreck_fx(kill.at, wreck, &o.range, &o.pop);
        self.apply_explosion(f, kill, radius, &o.range, &o.strike, &o.wear, one_shot, rng)
    }

    /// Work off the explosion that is due, if one is.
    pub fn explode_next<
        Q: Fn(PendingBlast) -> BlastRules,
        R: Fn(Point, Point) -> Scalar,
        S: Fn(Source, Tank, Scalar) -> Tank,
        B: Fn(Source, Frog, Scalar) -> Frog,
        W: Fn(Source, Point, Tile, Scalar, bool) -> (Scalar, Blow),
        C: Fn(Point, Cell) -> Scalar,
        P: Fn(Cell) -> Spark,
        T: Fn(Cell) -> Spark,
        L: Fn(Mark) -> bool,
        K: Fn(Point, u32) -> Cookoff,
    >(
        &mut self,
        f: &mut Frame,
        queue: &mut ExplosionQueue,
        live: bool,
        wreck: &WreckRules,
        radius: Scalar,
        one_shot: &Bernoulli,
        o: &Ordnance<Q, R, S, B, W, C, P, T, L, K>,
        rng: &mut SmallRng,
    ) -> (left: Option<Aftermath>)
        requires
            old(self).wf(),
            fires_inside(old(self).ground.fires@),
            well_laid(*o),
        ensures
            final(self).wf(),
            fires_inside(final(self).ground.fires@),
            left is Some <==> due(
                Stage { game: *old(self), record: old(f)@, queue: *old(queue) },
            ) is Some,
            left is None ==> {
                &&& *final(self) == *old(self)
                &&& final(f)@ == old(f)@
                &&& *final(queue) == *old(queue)
                &&& *final(rng) == *old(rng)
            },
            left matches Some(what) ==> worked_off(
                *o,
                live,
                *wreck,
                radius,
                (Stage { game: *old(self), record: old(f)@, queue: *old(queue) }),
                (Stage { game: *final(self), record: final(f)@, queue: *final(queue) }),
                what,
            ),
            left is Some ==> final(queue).wrecks_done + final(queue).blasts_done
                == old(queue).wrecks_done + old(queue).blasts_done + 1,
            old(queue).within(old(f)@) ==> final(queue).within(final(f)@),
            winds_down(
                Scene { pieces: old(self).field@, record: old(f)@ },
                Scene { pieces: final(self).field@, record: final(f)@ },
            ),
    {
        let ghost at = Stage { game: *self, record: f@, queue: *queue };
        let step: Option<Explosion> = queue.next(f.kills.len(), f.pending_blasts.len());
        match step {
            None => None,
            Some(Explosion::Wreck(i)) => {
                let kill: Kill = f.kills[i];
                let shoved: Vec<u64> = self.blow_wreck(f, &kill, wreck, radius, one_shot, o, rng);
                proof {
                    a_wreck_winds_down(
                        o.range,
                        o.strike,
                        o.wear,
                        kill,
                        at.game,
                        at.record,
                        radius,
                        Scene { pieces: self.field@, record: f@ },
                        shoved@,
                    );
                }
                Some(Aftermath::Wreck { kill, shoved })
            },
            Some(Explosion::Blast(i)) => {
                let blast: PendingBlast = f.pending_blasts[i];
                let rules: BlastRules = (o.plan)(blast);
                let outcome: BlastOutcome = self.apply_blast(
                    f,
                    &blast,
                    live,
                    &rules,
                    &o.odds,
                    one_shot,
                    &o.range,
                    &o.strike,
                    &o.bite,
                    &o.wear,
                    &o.cells,
                    &o.pool,
                    &o.trail,
                    &o.lying,
                    &o.pop,
                    rng,
                );
                proof {
                    a_blast_winds_down(
                        o.range,
                        o.strike,
                        o.bite,
                        o.wear,
                        o.cells,
                        o.pool,
                        o.trail,
                        o.lying,
                        o.pop,
                        blast,
                        live,
                        rules,
                        o.odds,
                        (at.game, at.record),
                        (*self, f@),
                        outcome,
                    );
                }
                Some(Aftermath::Blast { blast, rules, outcome })
            },
        }
    }

    /// Work off every tank killed and every barrel set off this frame, wrecks
    /// first. What an explosion kills is worked off in its turn, until nothing
    /// is left: each kill and each barrel once, in the order they came. Returns
    /// what each explosion leaves the host to do.
    pub fn explosions<
        Q: Fn(PendingBlast) -> BlastRules,
        R: Fn(Point, Point) -> Scalar,
        S: Fn(Source, Tank, Scalar) -> Tank,
        B: Fn(Source, Frog, Scalar) -> Frog,
        W: Fn(Source, Point, Tile, Scalar, bool) -> (Scalar, Blow),
        C: Fn(Point, Cell) -> Scalar,
        P: Fn(Cell) -> Spark,
        T: Fn(Cell) -> Spark,
        L: Fn(Mark) -> bool,
        K: Fn(Point, u32) -> Cookoff,
    >(
        &mut self,
        f: &mut Frame,
        live: bool,
        wreck: &WreckRules,
        radius: Scalar,
        one_shot: &Bernoulli,
        o: &Ordnance<Q, R, S, B, W, C, P, T, L, K>,
        rng: &mut SmallRng,
    ) -> (left: Vec<Aftermath>)
        requires
            old(self).wf(),
            fires_inside(old(self).ground.fires@),
            well_laid(*o),
        ensures
            final(self).wf(),
            fires_inside(final(self).ground.fires@),
            exists|stages: Seq<Stage>|
                {
                    &&& #[trigger] chain_worked(*o, live, *wreck, radius, stages, left@)
                    &&& stages[0] == (Stage {
                        game: *old(self),
                        record: old(f)@,
                        queue: ExplosionQueue::start(),
                    })
                    &&& stages.last().game == *final(self)
                    &&& stages.last().record == final(f)@
                    &&& due(stages.last()) is None
                },
            final(f)@.pending_blasts == old(f)@.pending_blasts,
            wrecks_of(left@, left@.len() as int) == final(f)@.kills,
            blasts_of(left@, left@.len() as int) == final(f)@.pending_blasts,
    {
        let mut queue: ExplosionQueue = ExplosionQueue::start();
        let mut left: Vec<Aftermath> = Vec::new();
        let ghost mut stages: Seq<Stage> = seq![Stage { game: *self, record: f@, queue }];
        assert(tallied(left@, queue, f@)) by {
            assert(f@.kills.take(0) =~= Seq::<Kill>::empty());
            assert(f@.pending_blasts.take(0) =~= Seq::<PendingBlast>::empty());
        }
        loop
            invariant
                self.wf(),
                fires_inside(self.ground.fires@),
                well_laid(*o),
                chain_worked(*o, live, *wreck, radius, stages, left@),
                stages[0] == (Stage {
                    game: *old(self),
                    record: old(f)@,
                    queue: ExplosionQueue::start(),
                }),
                stages.last() == (Stage { game: *self, record: f@, queue }),
                tallied(left@, queue, f@),
                f@.pending_blasts == old(f)@.pending_blasts,
            ensures
                due(stages.last()) is None,
            decreases
                    standing(self.field@).len() + f@.kills.len() - queue.wrecks_done
                        + f@.pending_blasts.len() - queue.blasts_done,
        {
            let next: Option<Aftermath> = self.explode_next(
                f,
                &mut queue,
                live,
                wreck,
                radius,
                one_shot,
                o,
                rng,
            );
            match next {
                None => {
                    break;
                },
                Some(what) => {
                    proof {
                        let after = Stage { game: *self, record: f@, queue };
                        lemma_chain_grows(
                            *o,
                            live,
                            *wreck,
                            radius,
                            stages,
                            left@,
                            after,
                            what,
                        );
                        lemma_tally(
                            *o,
                            live,
                            *wreck,
                            radius,
                            stages.last(),
                            after,
                            left@,
                            what,
                        );
                        stages = stages.push(after);
                    }
                    left.push(what);
                },
            }
        }
        assert(f@.kills.take(queue.wrecks_done as int) =~= f@.kills);
        assert(f@.pending_blasts.take(queue.blasts_done as int) =~= f@.pending_blasts);
        left
    }
}

/// A missile that came down, and whom its burst shoves.
#[derive(Debug)]
pub struct Burst {
    pub missile: Missile,
    pub shoved: Vec<u64>,
}

/// The missiles burst in turn, from scene to scene.
pub open spec fn bursts_done<
    R: Fn(Point, Point) -> Scalar,
    S: Fn(Source, Tank, Scalar) -> Tank,
    B: Fn(Source, Frog, Scalar) -> Frog,
    W: Fn(Source, Point, Tile, Scalar, bool) -> (Scalar, Blow),
>(
    range: R,
    strike: S,
    bite: B,
    wear: W,
    live: bool,
    seats: Seq<Option<u64>>,
    radius: Scalar,
    down: Seq<(u64, Missile)>,
    stages: Seq<Scene>,
    bursts: Seq<Burst>,
    n: int,
) -> bool {
    &&& stages.len() == n + 1
    &&& bursts.len() == n
    &&& forall|k: int|
        0 <= k < n ==> {
            &&& bursts[k].missile == down[k].1
            &&& burst_lands(
                range,
                strike,
                bite,
                wear,
                down[k].1,
                live,
                seats,
                radius,
                #[trigger] stages[k],
                stages[k + 1],
                bursts[k].shoved@,
            )
        }
}

proof fn lemma_bursts_grow<
    R: Fn(Point, Point) -> Scalar,
    S: Fn(Source, Tank, Scalar) -> Tank,
    B: Fn(Source, Frog, Scalar) -> Frog,
    W: Fn(Source, Point, Tile, Scalar, bool) -> (Scalar, Blow),
>(
    range: R,
    strike: S,
    bite: B,
    wear: W,
    live: bool,
    seats: Seq<Option<u64>>,
    radius: Scalar,
    down: Seq<(u64, Missile)>,
    stages: Seq<Scene>,
    bursts: Seq<Burst>,
    n: int,
    after: Scene,
    burst: Burst,
)
    requires
        0 <= n < down.len(),
        bursts_done(
            range,
            strike,
            bite,
            wear,
            live,
            seats,
            radius,
            down,
            stages,
            bursts,
            n,
        ),
        burst.missile == down[n].1,
        burst_lands(
            range,
            strike,
            bite,
            wear,
            down[n].1,
            live,
            seats,
            radius,
            stages.last(),
            after,
            burst.shoved@,
        ),
    ensures
        bursts_done(
            range,
            strike,
            bite,
            wear,
            live,
            seats,
            radius,
            down,
            stages.push(after),
            bursts.push(burst),
            n + 1,
        ),
{
    let (longer, more) = (stages.push(after), bursts.push(burst));
    assert forall|k: int| 0 <= k < n + 1 implies (#[trigger] more[k]).missile == down[k].1 by {
        if k < n {
            assert(more[k] == bursts[k]);
            assert(longer[k] == stages[k]);
        }
    }
    assert forall|k: int| 0 <= k < n + 1 implies burst_lands(
        range,
        strike,
        bite,
        wear,
        down[k].1,
        live,
        seats,
        radius,
        #[trigger] longer[k],
        longer[k + 1],
        more[k].shoved@,
    ) by {
        if k < n {
            assert(longer[k] == stages[k] && longer[k + 1] == stages[k + 1]);
            assert(more[k] == bursts[k]);
        } else {
            assert(longer[k] == stages.last() && longer[k + 1] == after);
            assert(more[k] == burst);
        }
    }
    assert(longer.len() == n + 2 && more.len() == n + 1);
    assert(bursts_done(
        range,
        strike,
        bite,
        wear,
        live,
        seats,
        radius,
        down,
        longer,
        more,
        n + 1,
    ));
}

impl Game {
    /// Every missile that has reached the ground leaves the field and bursts
    /// where it is. Returns whom each burst shoves.
    #[verifier::spinoff_prover]
    #[verifier::rlimit(30)]
    pub fn resolve_missiles<
        R: Fn(Point, Point) -> Scalar,
        S: Fn(Source, Tank, Scalar) -> Tank,
        B: Fn(Source, Frog, Scalar) -> Frog,
        W: Fn(Source, Point, Tile, Scalar, bool) -> (Scalar, Blow),
    >(
        &mut self,
        f: &mut Frame,
        live: bool,
        radius: Scalar,
        range: &R,
        strike: &S,
        bite: &B,
        wear: &W,
        one_shot: &Bernoulli,
        rng: &mut SmallRng,
    ) -> (bursts: Vec<Burst>)
        requires
            old(self).wf(),
            shakes_well(*range, *strike, *bite, *wear),
        ensures
            final(self).wf(),
            exists|down: Seq<(u64, Missile)>, stages: Seq<Scene>|
                {
                    &&& selects::<Missile>(old(self).field@, landed(), down)
                    &&& #[trigger] bursts_done(
                        *range,
                        *strike,
                        *bite,
                        *wear,
                        live,
                        old(self).round.seats@,
                        radius,
                        down,
                        stages,
                        bursts@,
                        down.len() as int,
                    )
                    &&& stages[0] == (Scene {
                        pieces: without_landed(old(self).field@),
                        record: old(f)@,
                    })
                    &&& stages.last() == (Scene { pieces: final(self).field@, record: final(f)@ })
                },
            !live ==> *final(rng) == *old(rng),
            final(self).round == old(self).round,
            final(self).keeps_surroundings(old(self)),
            final(self).events == old(self).events,
    {
        let down: Vec<(u64, Missile)> = self.take_landed();
        let ghost start = Scene { pieces: self.field@, record: f@ };
        let ghost mut stages: Seq<Scene> = seq![start];
        let mut bursts: Vec<Burst> = Vec::new();
        let mut n: usize = 0;
        while n < down.len()
            invariant
                n <= down@.len(),
                self.wf(),
                shakes_well(*range, *strike, *bite, *wear),
                bursts_done(
                    *range,
                    *strike,
                    *bite,
                    *wear,
                    live,
                    old(self).round.seats@,
                    radius,
                    down@,
                    stages,
                    bursts@,
                    n as int,
                ),
                stages[0] == start,
                stages.last() == (Scene { pieces: self.field@, record: f@ }),
                !live ==> *rng == *old(rng),
                self.round == old(self).round,
                self.keeps_surroundings(old(self)),
                self.events == old(self).events,
            decreases down@.len() - n,
        {
            let missile: Missile = down[n].1;
            let ghost were = (stages, bursts@);
            let shoved: Vec<u64> = self.missile_blast(
                f,
                &missile,
                live,
                radius,
                range,
                strike,
                bite,
                wear,
                one_shot,
                rng,
            );
            bursts.push(Burst { missile, shoved });
            proof {
                let after = Scene { pieces: self.field@, record: f@ };
                assert(bursts@ == were.1.push(bursts@.last()));
                lemma_bursts_grow(
                    *range,
                    *strike,
                    *bite,
                    *wear,
                    live,
                    old(self).round.seats@,
                    radius,
                    down@,
                    were.0,
                    were.1,
                    n as int,
                    after,
                    bursts@.last(),
                );
                stages = stages.push(after);
            }
            n += 1;
        }
        bursts
    }
}

/// A kill that has not gone up yet is due before any barrel, the earliest kill
/// first; only with none left is a barrel due, the earliest first; and nothing
/// is due only when everything has gone up.
pub proof fn wrecks_go_up_before_barrels(at: Stage)
    ensures
        at.queue.wrecks_done < at.record.kills.len() ==> due(at) == Some(
            Explosion::Wreck(at.queue.wrecks_done),
        ),
        at.queue.wrecks_done >= at.record.kills.len() && at.queue.blasts_done
            < at.record.pending_blasts.len() ==> due(at) == Some(
            Explosion::Blast(at.queue.blasts_done),
        ),
        due(at) is None ==> at.queue.wrecks_done >= at.record.kills.len() && at.queue.blasts_done
            >= at.record.pending_blasts.len(),
{
}

} // verus!
