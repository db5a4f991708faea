//! A barrel, a missile or a dying tank going off: everyone in reach takes a
//! share, then the ground, then the show.
//!
//! The host measures distances from the centre and works out what a share
//! takes off; who gets one and in what order is decided here.

use rand::distr::Bernoulli;
use rand::rngs::SmallRng;
use vstd::prelude::*;

use crate::arms::is_walk;
use crate::blasts::{
    blasted, burst_told, cells_lit, drum_fireball, drum_shock, frog_deaths, frog_hit, frogs_blasted, frogs_struck,
    lights_well, may_take, near_trail, record_burst, record_wreck, struck,
    tile_blasted, wreck_told, Blasted, Harm,
};
use crate::combat::{cookoff_count, in_reach, pool_fits, pops_queued, rethrown, thrown_again};
use crate::dice::Odds;
use crate::effects::{scorch_tracks, scorched_mark, Cookoff, TrackMark};
use crate::field::{lists, thing, Kind};
use crate::event::Event;
use crate::frame::{BlastShape, FireballKind, Frame, Kill, PendingBlast, Record, Rubble, Scene, ShockKind};
use crate::game::{Game, Ground, Mark, Round, Show};
use crate::kinds::{Cell, Drum, Material};
use crate::pieces::{took_blow, Frog, Missile, Piece, Tank, Tile};
use crate::props::{fires_inside, Blow, DamageCause, GroundFire, Spark};
use crate::scalar::{Point, Scalar};

verus! {

/// What goes off.
#[derive(Clone, Copy, Debug, PartialEq, Eq, Structural)]
pub enum Source {
    /// A dying tank.
    Wreck,
    /// An oil drum.
    Oil,
    /// A fuel drum.
    Fuel,
    Missile,
}

/// What a barrel is.
#[verifier::allow_in_spec]
pub fn source_of(drum: Drum) -> Source
    returns
        (match drum {
            Drum::Oil => Source::Oil,
            Drum::Fuel => Source::Fuel,
        }),
{
    match drum {
        Drum::Oil => Source::Oil,
        Drum::Fuel => Source::Fuel,
    }
}

/// A hit is a blow, and nothing else happens to the tank.
pub open spec fn keeps_owners<S: Fn(Source, Tank, Scalar) -> Tank>(strike: S) -> bool {
    forall|w: Source, t: Tank, d: Scalar, after: Tank| #[trigger]
        call_ensures(strike, (w, t, d), after) ==> took_blow(t, after)
}

/// What a hit makes of a frog leaves it whose it was.
pub open spec fn keeps_sides<B: Fn(Source, Frog, Scalar) -> Frog>(bite: B) -> bool {
    forall|w: Source, g: Frog, d: Scalar, after: Frog| #[trigger]
        call_ensures(bite, (w, g, d), after) ==> after.side == g.side
}

/// What a hit makes of the tanks it strikes is what `strike` gives.
pub open spec fn tanks_struck<S: Fn(Source, Tank, Scalar) -> Tank>(
    strike: S,
    source: Source,
    pieces: Map<u64, Piece>,
    walk: Seq<u64>,
    distances: Seq<Scalar>,
    harm: Harm,
    radius: Scalar,
    outs: Seq<Tank>,
    n: int,
) -> bool {
    outs.len() == n && forall|k: int|
        0 <= k < n && in_reach(
            thing::<Tank>(pieces, #[trigger] walk[k])->0.wreck,
            distances[k],
            radius,
        ) && harm.hurts(thing::<Tank>(pieces, walk[k])->0.owner) ==> call_ensures(
            strike,
            (source, thing::<Tank>(pieces, walk[k])->0, distances[k]),
            outs[k],
        )
}

/// What a hit makes of the frogs it strikes is what `bite` gives.
pub open spec fn frogs_bitten<B: Fn(Source, Frog, Scalar) -> Frog>(
    bite: B,
    source: Source,
    frogs: Seq<(u64, Frog)>,
    distances: Seq<Scalar>,
    harm: Harm,
    radius: Scalar,
    outs: Seq<Frog>,
    n: int,
) -> bool {
    outs.len() == n && forall|k: int|
        0 <= k < n && frog_hit((#[trigger] frogs[k]).1, distances[k], harm, radius)
            ==> call_ensures(bite, (source, frogs[k].1, distances[k]), outs[k])
}

/// How far each place lies from the centre, as `range` has it.
pub open spec fn measured<R: Fn(Point, Point) -> Scalar>(
    range: R,
    from: Point,
    at: Seq<Point>,
    distances: Seq<Scalar>,
) -> bool {
    distances.len() == at.len() && forall|k: int|
        0 <= k < at.len() ==> call_ensures(range, (from, at[k]), #[trigger] distances[k])
}

fn measure<R: Fn(Point, Point) -> Scalar>(range: &R, from: Point, at: &Vec<Point>) -> (distances:
    Vec<Scalar>)
    requires
        forall|c: Point, p: Point| call_requires(*range, (c, p)),
    ensures
        measured(*range, from, at@, distances@),
{
    let mut distances: Vec<Scalar> = Vec::new();
    let mut n: usize = 0;
    while n < at.len()
        invariant
            n <= at@.len(),
            distances@.len() == n,
            forall|c: Point, p: Point| call_requires(*range, (c, p)),
            forall|k: int|
                0 <= k < n ==> call_ensures(*range, (from, at@[k]), #[trigger] distances@[k]),
        decreases at@.len() - n,
    {
        distances.push(range(from, at[n]));
        n += 1;
    }
    distances
}

/// Where the tanks of a walk stand.
pub open spec fn stands(pieces: Map<u64, Piece>, walk: Seq<u64>) -> Seq<Point> {
    Seq::new(walk.len(), |k: int| thing::<Tank>(pieces, walk[k])->0.position)
}

/// Where the frogs of a list sit.
pub open spec fn perches(frogs: Seq<(u64, Frog)>) -> Seq<Point> {
    Seq::new(frogs.len(), |k: int| frogs[k].1.position)
}

/// Where the tiles of a list lie.
pub open spec fn sites(all: Seq<(u64, Tile)>) -> Seq<Point> {
    Seq::new(all.len(), |k: int| all[k].1.position)
}

/// The tanks took their share, players in seat order before the enemies: by
/// way of a walk, the distances along it and what a hit made of each.
pub open spec fn tanks_share<R: Fn(Point, Point) -> Scalar, S: Fn(Source, Tank, Scalar) -> Tank>(
    range: R,
    strike: S,
    source: Source,
    from: Point,
    seats: Seq<Option<u64>>,
    harm: Harm,
    radius: Scalar,
    at: Blasted,
    after: Blasted,
) -> bool {
    exists|walk: Seq<u64>, distances: Seq<Scalar>, outs: Seq<Tank>|
        {
            &&& is_walk(seats, at.pieces, walk)
            &&& measured(range, from, stands(at.pieces, walk), distances)
            &&& #[trigger] tanks_struck(
                strike,
                source,
                at.pieces,
                walk,
                distances,
                harm,
                radius,
                outs,
                walk.len() as int,
            )
            &&& after == blasted(at, walk, distances, harm, radius, outs, walk.len() as int)
        }
}

/// The frogs took theirs.
pub open spec fn frogs_share<R: Fn(Point, Point) -> Scalar, B: Fn(Source, Frog, Scalar) -> Frog>(
    range: R,
    bite: B,
    source: Source,
    from: Point,
    harm: Harm,
    radius: Scalar,
    at: Scene,
    after: Scene,
) -> bool {
    exists|frogs: Seq<(u64, Frog)>, distances: Seq<Scalar>, outs: Seq<Frog>|
        {
            let n = frogs.len() as int;
            &&& lists::<Frog>(at.pieces, frogs)
            &&& measured(range, from, perches(frogs), distances)
            &&& #[trigger] frogs_bitten(
                bite,
                source,
                frogs,
                distances,
                harm,
                radius,
                outs,
                frogs.len() as int,
            )
            &&& after.pieces == frogs_blasted(at.pieces, frogs, distances, harm, radius, outs, n)
            &&& after.record == frog_deaths(at.record, frogs, distances, harm, radius, outs, n)
        }
}

/// A blast reaches the tile: it stands and is inside the radius. A barrel's
/// own blast passes over a tile whose fuse is lit already.
pub open spec fn reaches(tile: Tile, distance: Scalar, radius: Scalar, barrel: bool) -> bool {
    !tile.destroyed && !(barrel && tile.fuse is Some) && !radius.below(distance)
}

/// Damage is rolled for a tile, unless a barrel's blast finds another barrel:
/// that one goes off in any case.
pub open spec fn rolled(tile: Tile, barrel: bool) -> bool {
    !(barrel && tile.material.is_explosive())
}

/// What the host made of each tile in reach, and what the tile made of it.
pub open spec fn tiles_taken<W: Fn(Source, Point, Tile, Scalar, bool) -> (Scalar, Blow)>(
    wear: W,
    source: Source,
    all: Seq<(u64, Tile)>,
    distances: Seq<Scalar>,
    radius: Scalar,
    barrel: bool,
    from: Point,
    shares: Seq<(Scalar, Blow)>,
    outs: Seq<(Tile, bool)>,
    n: int,
) -> bool {
    &&& shares.len() == n
    &&& outs.len() == n
    &&& forall|k: int|
        0 <= k < n && reaches((#[trigger] all[k]).1, distances[k], radius, barrel) ==> {
            &&& call_ensures(
                wear,
                (source, from, all[k].1, distances[k], rolled(all[k].1, barrel)),
                shares[k],
            )
            &&& may_suffer(
                source,
                all[k].1,
                shares[k].1,
                DamageCause::Blast { falloff: shares[k].0, from },
                outs[k],
            )
        }
}

/// A tile as a blast blackens it: a wall keeps soot on the face that looked at
/// a barrel's or a missile's. A wreck's leaves none.
pub open spec fn darkened(source: Source, tile: Tile, face: u8) -> Tile {
    if tile.material.is_wall() && !(source is Wreck) {
        Tile { soot: tile.soot | face, ..tile }
    } else {
        tile
    }
}

/// A blow to a tile that keeps the soot it has.
pub open spec fn over_soot(b: Blow, tile: Tile) -> Blow {
    Blow { worn: Tile { soot: tile.soot, ..b.worn }, ..b }
}

/// What a blast makes of a tile: it blackens it, and damages it.
pub open spec fn may_suffer(
    source: Source,
    tile: Tile,
    b: Blow,
    cause: DamageCause,
    r: (Tile, bool),
) -> bool {
    let dark = darkened(source, tile, b.face);
    may_take(dark, over_soot(b, dark), cause, r)
}

/// A wall in reach of a barrel's or a missile's blast keeps soot on the face
/// that looked at it, on top of what it had, whatever else comes of it; and
/// nothing else of it changes by that.
pub proof fn a_blast_soots_the_face_that_looked_at_it(
    source: Source,
    tile: Tile,
    b: Blow,
    cause: DamageCause,
    r: (Tile, bool),
)
    requires
        may_suffer(source, tile, b, cause, r),
        tile.material.is_wall(),
        !(source is Wreck),
    ensures
        r.0.soot == tile.soot | b.face,
{
}

/// The first `n` tiles, those in reach as the blast leaves them.
pub open spec fn tiles_after(
    at: Scene,
    all: Seq<(u64, Tile)>,
    distances: Seq<Scalar>,
    radius: Scalar,
    barrel: bool,
    from: Point,
    shares: Seq<(Scalar, Blow)>,
    outs: Seq<(Tile, bool)>,
    n: int,
) -> Scene
    decreases n,
{
    if n <= 0 {
        at
    } else {
        let now = tiles_after(at, all, distances, radius, barrel, from, shares, outs, n - 1);
        if reaches(all[n - 1].1, distances[n - 1], radius, barrel) {
            Scene {
                pieces: now.pieces.insert(all[n - 1].0, outs[n - 1].0.as_piece()),
                record: tile_blasted(
                    now.record,
                    outs[n - 1],
                    DamageCause::Blast { falloff: shares[n - 1].0, from },
                ),
            }
        } else {
            now
        }
    }
}

/// The tiles took theirs.
pub open spec fn tiles_share<
    R: Fn(Point, Point) -> Scalar,
    W: Fn(Source, Point, Tile, Scalar, bool) -> (Scalar, Blow),
>(
    range: R,
    wear: W,
    source: Source,
    from: Point,
    radius: Scalar,
    barrel: bool,
    at: Scene,
    after: Scene,
) -> bool {
    exists|
        all: Seq<(u64, Tile)>,
        distances: Seq<Scalar>,
        shares: Seq<(Scalar, Blow)>,
        outs: Seq<(Tile, bool)>,
    |
        {
            &&& lists::<Tile>(at.pieces, all)
            &&& measured(range, from, sites(all), distances)
            &&& #[trigger] tiles_taken(
                wear,
                source,
                all,
                distances,
                radius,
                barrel,
                from,
                shares,
                outs,
                all.len() as int,
            )
            &&& after == tiles_after(
                at,
                all,
                distances,
                radius,
                barrel,
                from,
                shares,
                outs,
                all.len() as int,
            )
        }
}

proof fn lemma_tiles_same(
    at: Scene,
    all: Seq<(u64, Tile)>,
    distances: Seq<Scalar>,
    radius: Scalar,
    barrel: bool,
    from: Point,
    a: Seq<(Scalar, Blow)>,
    x: Seq<(Tile, bool)>,
    b: Seq<(Scalar, Blow)>,
    y: Seq<(Tile, bool)>,
    n: int,
)
    requires
        0 <= n <= a.len(),
        n <= b.len(),
        n <= x.len(),
        n <= y.len(),
        forall|i: int| 0 <= i < n ==> a[i] == b[i],
        forall|i: int| 0 <= i < n ==> x[i] == y[i],
    ensures
        tiles_after(at, all, distances, radius, barrel, from, a, x, n) == tiles_after(
            at,
            all,
            distances,
            radius,
            barrel,
            from,
            b,
            y,
            n,
        ),
    decreases n,
{
    if n > 0 {
        lemma_tiles_same(at, all, distances, radius, barrel, from, a, x, b, y, n - 1);
    }
}

impl Game {
    /// Every tank in the fight takes its share of an explosion. `strike` is
    /// called only for a tank that is hurt. Returns whom it shoves.
    pub fn shake_tanks<R: Fn(Point, Point) -> Scalar, S: Fn(Source, Tank, Scalar) -> Tank>(
        &mut self,
        f: &mut Frame,
        source: Source,
        from: Point,
        harm: Harm,
        radius: Scalar,
        range: &R,
        strike: &S,
    ) -> (shoved: Vec<u64>)
        requires
            old(self).wf(),
            forall|c: Point, p: Point| call_requires(*range, (c, p)),
            forall|w: Source, t: Tank, d: Scalar| call_requires(*strike, (w, t, d)),
            keeps_owners(*strike),
        ensures
            final(self).wf(),
            tanks_share(
                *range,
                *strike,
                source,
                from,
                old(self).round.seats@,
                harm,
                radius,
                Blasted { pieces: old(self).field@, record: old(f)@, shoved: Seq::empty() },
                Blasted { pieces: final(self).field@, record: final(f)@, shoved: shoved@ },
            ),
            final(self).round == old(self).round,
            final(self).keeps_surroundings(old(self)),
            final(self).events == old(self).events,
    {
        let walk: Vec<u64> = self.walk_order();
        proof {
            self.lemma_walk_there(walk@);
        }
        let mut at: Vec<Point> = Vec::new();
        let mut n: usize = 0;
        while n < walk.len()
            invariant
                n <= walk@.len(),
                at@ == stands(self.field@, walk@).take(n as int),
                forall|k: int|
                    0 <= k < walk@.len() ==> thing::<Tank>(self.field@, #[trigger] walk@[k])
                        is Some,
            decreases walk@.len() - n,
        {
            let found: Option<Tank> = self.field.get(walk[n]);
            assert(thing::<Tank>(self.field@, walk@[n as int]) is Some);
            if let Some(t) = found {
                at.push(t.position);
            }
            assert(at@ =~= stands(self.field@, walk@).take(n + 1));
            n += 1;
        }
        assert(at@ =~= stands(self.field@, walk@));
        let distances: Vec<Scalar> = measure(range, from, &at);
        let hit = |t: Tank, d: Scalar| -> (after: Tank)
            requires
                call_requires(strike, (source, t, d)),
            ensures
                call_ensures(strike, (source, t, d), after),
        { strike(source, t, d) };
        let ghost before = Blasted { pieces: self.field@, record: f@, shoved: Seq::empty() };
        let shoved: Vec<u64> = self.blast_tanks(f, &walk, &distances, harm, radius, &hit);
        proof {
            let after = Blasted { pieces: self.field@, record: f@, shoved: shoved@ };
            let outs = choose|outs: Seq<Tank>|
                {
                    &&& #[trigger] struck(
                        hit,
                        before.pieces,
                        walk@,
                        distances@,
                        harm,
                        radius,
                        outs,
                        walk@.len() as int,
                    )
                    &&& after == blasted(
                        before,
                        walk@,
                        distances@,
                        harm,
                        radius,
                        outs,
                        walk@.len() as int,
                    )
                };
            assert(tanks_struck(
                *strike,
                source,
                before.pieces,
                walk@,
                distances@,
                harm,
                radius,
                outs,
                walk@.len() as int,
            ));
        }
        shoved
    }

    /// Every frog of a side that is harmed takes its share. `bite` is called
    /// only for a frog that is hurt.
    pub fn shake_frogs<R: Fn(Point, Point) -> Scalar, B: Fn(Source, Frog, Scalar) -> Frog>(
        &mut self,
        f: &mut Frame,
        source: Source,
        from: Point,
        harm: Harm,
        radius: Scalar,
        range: &R,
        bite: &B,
    )
        requires
            old(self).wf(),
            forall|c: Point, p: Point| call_requires(*range, (c, p)),
            forall|w: Source, g: Frog, d: Scalar| call_requires(*bite, (w, g, d)),
            keeps_sides(*bite),
        ensures
            final(self).wf(),
            frogs_share(
                *range,
                *bite,
                source,
                from,
                harm,
                radius,
                Scene { pieces: old(self).field@, record: old(f)@ },
                Scene { pieces: final(self).field@, record: final(f)@ },
            ),
            final(self).round == old(self).round,
            final(self).keeps_surroundings(old(self)),
            final(self).events == old(self).events,
    {
        let frogs: Vec<(u64, Frog)> = self.frogs();
        let mut at: Vec<Point> = Vec::new();
        let mut n: usize = 0;
        while n < frogs.len()
            invariant
                n <= frogs@.len(),
                at@ == perches(frogs@).take(n as int),
            decreases frogs@.len() - n,
        {
            at.push(frogs[n].1.position);
            n += 1;
            assert(at@ =~= perches(frogs@).take(n as int));
        }
        assert(at@ =~= perches(frogs@));
        let distances: Vec<Scalar> = measure(range, from, &at);
        let hit = |g: Frog, d: Scalar| -> (after: Frog)
            requires
                call_requires(bite, (source, g, d)),
            ensures
                call_ensures(bite, (source, g, d), after),
        { bite(source, g, d) };
        let ghost before = Scene { pieces: self.field@, record: f@ };
        self.blast_frogs(f, &frogs, &distances, harm, radius, &hit);
        proof {
            let n = frogs@.len() as int;
            let after = Scene { pieces: self.field@, record: f@ };
            let outs = choose|outs: Seq<Frog>|
                {
                    &&& #[trigger] frogs_struck(
                        hit,
                        frogs@,
                        distances@,
                        harm,
                        radius,
                        outs,
                        frogs@.len() as int,
                    )
                    &&& after.pieces == frogs_blasted(
                        before.pieces,
                        frogs@,
                        distances@,
                        harm,
                        radius,
                        outs,
                        n,
                    )
                    &&& after.record == frog_deaths(
                        before.record,
                        frogs@,
                        distances@,
                        harm,
                        radius,
                        outs,
                        n,
                    )
                };
            assert(frogs_bitten(
                *bite,
                source,
                frogs@,
                distances@,
                harm,
                radius,
                outs,
                frogs@.len() as int,
            ));
        }
    }

    /// Every tile in reach takes its share. `wear` makes out how much of the
    /// blast reaches a tile and the blow it comes to; it is told whether the
    /// damage is rolled. A `barrel`'s own blast passes over lit fuses and
    /// rolls nothing for another barrel.
    pub fn shake_tiles<R: Fn(Point, Point) -> Scalar, W: Fn(Source, Point, Tile, Scalar, bool) -> (Scalar, Blow)>(
        &mut self,
        f: &mut Frame,
        source: Source,
        from: Point,
        radius: Scalar,
        barrel: bool,
        range: &R,
        wear: &W,
        one_shot: &Bernoulli,
        rng: &mut SmallRng,
    )
        requires
            old(self).wf(),
            forall|c: Point, p: Point| call_requires(*range, (c, p)),
            forall|w: Source, c: Point, t: Tile, d: Scalar, roll: bool|
                call_requires(*wear, (w, c, t, d, roll)),
        ensures
            final(self).wf(),
            tiles_share(
                *range,
                *wear,
                source,
                from,
                radius,
                barrel,
                Scene { pieces: old(self).field@, record: old(f)@ },
                Scene { pieces: final(self).field@, record: final(f)@ },
            ),
            final(self).round == old(self).round,
            final(self).keeps_surroundings(old(self)),
            final(self).events == old(self).events,
    {
        let ghost start = Scene { pieces: self.field@, record: f@ };
        let all: Vec<(u64, Tile)> = self.field.all();
        let mut at: Vec<Point> = Vec::new();
        let mut n: usize = 0;
        while n < all.len()
            invariant
                n <= all@.len(),
                at@ == sites(all@).take(n as int),
            decreases all@.len() - n,
        {
            at.push(all[n].1.position);
            n += 1;
            assert(at@ =~= sites(all@).take(n as int));
        }
        assert(at@ =~= sites(all@));
        let distances: Vec<Scalar> = measure(range, from, &at);
        let ghost mut shares: Seq<(Scalar, Blow)> = Seq::empty();
        let ghost mut outs: Seq<(Tile, bool)> = Seq::empty();
        let mut n: usize = 0;
        while n < all.len()
            invariant
                n <= all@.len() == distances@.len(),
                start == (Scene { pieces: old(self).field@, record: old(f)@ }),
                lists::<Tile>(start.pieces, all@),
                forall|w: Source, c: Point, t: Tile, d: Scalar, roll: bool|
                call_requires(*wear, (w, c, t, d, roll)),
                self.wf(),
                self.round == old(self).round,
                self.keeps_surroundings(old(self)),
                self.events == old(self).events,
                forall|k: int|
                    n <= k < all@.len() ==> thing::<Tile>(self.field@, (#[trigger] all@[k]).0)
                        == Some(all@[k].1),
                tiles_taken(
                    *wear,
                    source,
                    all@,
                    distances@,
                    radius,
                    barrel,
                    from,
                    shares,
                    outs,
                    n as int,
                ),
                (Scene { pieces: self.field@, record: f@ }) == tiles_after(
                    start,
                    all@,
                    distances@,
                    radius,
                    barrel,
                    from,
                    shares,
                    outs,
                    n as int,
                ),
            decreases all@.len() - n,
        {
            let (id, t) = all[n];
            let ghost were = (shares, outs);
            let ghost before = Scene { pieces: self.field@, record: f@ };
            assert(thing::<Tile>(self.field@, all@[n as int].0) == Some(t));
            let spared: bool = barrel && t.fuse.is_some();
            if !t.destroyed && !spared && !radius.lt(distances[n]) {
                let certain: bool = barrel && t.material.is_explosive();
                let (falloff, b): (Scalar, Blow) = wear(source, from, t, distances[n], !certain);
                let cause: DamageCause = DamageCause::Blast { falloff, from };
                let dark: Tile = if t.material.is_wall() && !matches!(source, Source::Wreck) {
                    Tile { soot: t.soot | b.face, ..t }
                } else {
                    t
                };
                let over: Blow = Blow { worn: Tile { soot: dark.soot, ..b.worn }, ..b };
                self.put_tile(id, dark);
                let ghost sooted = self.field@;
                let _ = self.damage_tile(f, id, &over, cause, one_shot, rng);
                proof {
                    let out = choose|r: (Tile, bool)|
                        {
                            &&& #[trigger] may_take(dark, over, cause, r)
                            &&& self.field@ == sooted.insert(id, r.0.as_piece())
                            &&& f@ == tile_blasted(before.record, r, cause)
                        };
                    assert(self.field@ =~= before.pieces.insert(id, out.0.as_piece()));
                    assert(may_suffer(source, t, b, cause, out));
                    shares = shares.push((falloff, b));
                    outs = outs.push(out);
                }
            } else {
                proof {
                    shares = shares.push((radius, arbitrary()));
                    outs = outs.push((t, false));
                }
            }
            proof {
                lemma_tiles_same(
                    start,
                    all@,
                    distances@,
                    radius,
                    barrel,
                    from,
                    were.0,
                    were.1,
                    shares,
                    outs,
                    n as int,
                );
                assert forall|k: int| n + 1 <= k < all@.len() implies thing::<Tile>(
                    self.field@,
                    (#[trigger] all@[k]).0,
                ) == Some(all@[k].1) by {
                    assert(all@[n as int].0 != all@[k].0);
                }
            }
            n += 1;
        }
    }
}

/// Tanks, frogs and tiles took their share in that order, by way of how things
/// stood in between.
pub open spec fn shaken<
    R: Fn(Point, Point) -> Scalar,
    S: Fn(Source, Tank, Scalar) -> Tank,
    B: Fn(Source, Frog, Scalar) -> Frog,
    W: Fn(Source, Point, Tile, Scalar, bool) -> (Scalar, Blow),
>(
    range: R,
    strike: S,
    bite: B,
    wear: W,
    source: Source,
    seats: Seq<Option<u64>>,
    harm: Harm,
    radius: Scalar,
    barrel: bool,
    from: Point,
    at: Scene,
    tanks: Blasted,
    frogs: Scene,
    after: Scene,
) -> bool {
    &&& tanks_share(
        range,
        strike,
        source,
        from,
        seats,
        harm,
        radius,
        Blasted { pieces: at.pieces, record: at.record, shoved: Seq::empty() },
        tanks,
    )
    &&& frogs_share(
        range,
        bite,
        source,
        from,
        harm,
        radius,
        Scene { pieces: tanks.pieces, record: tanks.record },
        frogs,
    )
    &&& tiles_share(range, wear, source, from, radius, barrel, frogs, after)
}

/// What a share makes of a tank or a frog leaves it whose it was, and a share
/// can be made out wherever one stands.
pub open spec fn shakes_well<
    R: Fn(Point, Point) -> Scalar,
    S: Fn(Source, Tank, Scalar) -> Tank,
    B: Fn(Source, Frog, Scalar) -> Frog,
    W: Fn(Source, Point, Tile, Scalar, bool) -> (Scalar, Blow),
>(range: R, strike: S, bite: B, wear: W) -> bool {
    &&& forall|c: Point, p: Point| call_requires(range, (c, p))
    &&& forall|w: Source, t: Tank, d: Scalar| call_requires(strike, (w, t, d))
    &&& forall|w: Source, g: Frog, d: Scalar| call_requires(bite, (w, g, d))
    &&& forall|w: Source, c: Point, t: Tile, d: Scalar, roll: bool| call_requires(wear, (w, c, t, d, roll))
    &&& keeps_owners(strike)
    &&& keeps_sides(bite)
}

/// A missile's burst landed: it was announced, its opponents and the tiles
/// took their share while the round was `live`, and it sent out its ripple.
pub open spec fn burst_lands<
    R: Fn(Point, Point) -> Scalar,
    S: Fn(Source, Tank, Scalar) -> Tank,
    B: Fn(Source, Frog, Scalar) -> Frog,
    W: Fn(Source, Point, Tile, Scalar, bool) -> (Scalar, Blow),
>(
    range: R,
    strike: S,
    bite: B,
    wear: W,
    m: Missile,
    live: bool,
    seats: Seq<Option<u64>>,
    radius: Scalar,
    at: Scene,
    after: Scene,
    shoved: Seq<u64>,
) -> bool {
    &&& !live ==> {
        &&& shoved == Seq::<u64>::empty()
        &&& after.pieces == at.pieces
        &&& after.record == burst_told(at.record, m).with_shock(
            m.position,
            ShockKind::Missile,
        ).with_blaze(m.position, FireballKind::Missile).with_scorch(m.position, None, true)
    }
    &&& live ==> exists|tanks: Blasted, frogs: Scene, tiles: Scene|
        {
            &&& #[trigger] shaken(
                range,
                strike,
                bite,
                wear,
                Source::Missile,
                seats,
                Harm::Opponents(m.owner),
                radius,
                false,
                m.position,
                Scene { pieces: at.pieces, record: burst_told(at.record, m) },
                tanks,
                frogs,
                tiles,
            )
            &&& shoved == tanks.shoved
            &&& after.pieces == tiles.pieces
            &&& after.record == tiles.record.with_shock(
                m.position,
                ShockKind::Missile,
            ).with_blaze(m.position, FireballKind::Missile).with_scorch(m.position, None, true)
        }
}

/// A dying tank's explosion landed: its death was announced, and then the side
/// opposing it and the tiles took their share.
pub open spec fn wreck_lands<
    R: Fn(Point, Point) -> Scalar,
    S: Fn(Source, Tank, Scalar) -> Tank,
    W: Fn(Source, Point, Tile, Scalar, bool) -> (Scalar, Blow),
>(
    range: R,
    strike: S,
    wear: W,
    kill: Kill,
    seats: Seq<Option<u64>>,
    radius: Scalar,
    at: Scene,
    after: Scene,
    shoved: Seq<u64>,
) -> bool {
    exists|tanks: Blasted|
        {
            &&& #[trigger] tanks_share(
                range,
                strike,
                Source::Wreck,
                kill.at,
                seats,
                Harm::Opponents(kill.victim),
                radius,
                Blasted {
                    pieces: at.pieces,
                    record: wreck_told(at.record, kill),
                    shoved: Seq::empty(),
                },
                tanks,
            )
            &&& shoved == tanks.shoved
            &&& tiles_share(
                range,
                wear,
                Source::Wreck,
                kill.at,
                radius,
                false,
                Scene { pieces: tanks.pieces, record: tanks.record },
                after,
            )
        }
}

impl Game {
    /// Everything in reach of an explosion takes its share: tanks, then frogs,
    /// then tiles. Returns whom it shoves.
    pub fn shake_all<
        R: Fn(Point, Point) -> Scalar,
        S: Fn(Source, Tank, Scalar) -> Tank,
        B: Fn(Source, Frog, Scalar) -> Frog,
        W: Fn(Source, Point, Tile, Scalar, bool) -> (Scalar, Blow),
    >(
        &mut self,
        f: &mut Frame,
        source: Source,
        from: Point,
        harm: Harm,
        radius: Scalar,
        barrel: bool,
        range: &R,
        strike: &S,
        bite: &B,
        wear: &W,
        one_shot: &Bernoulli,
        rng: &mut SmallRng,
    ) -> (shoved: Vec<u64>)
        requires
            old(self).wf(),
            shakes_well(*range, *strike, *bite, *wear),
        ensures
            final(self).wf(),
            exists|tanks: Blasted, frogs: Scene|
                {
                    &&& #[trigger] shaken(
                        *range,
                        *strike,
                        *bite,
                        *wear,
                        source,
                        old(self).round.seats@,
                        harm,
                        radius,
                        barrel,
                        from,
                        Scene { pieces: old(self).field@, record: old(f)@ },
                        tanks,
                        frogs,
                        Scene { pieces: final(self).field@, record: final(f)@ },
                    )
                    &&& shoved@ == tanks.shoved
                },
            final(self).round == old(self).round,
            final(self).keeps_surroundings(old(self)),
            final(self).events == old(self).events,
    {
        let ghost start = Scene { pieces: self.field@, record: f@ };
        let shoved: Vec<u64> = self.shake_tanks(
            f,
            source,
            from,
            harm,
            radius,
            range,
            strike,
        );
        let ghost tanks = Blasted { pieces: self.field@, record: f@, shoved: shoved@ };
        self.shake_frogs(f, source, from, harm, radius, range, bite);
        let ghost frogs = Scene { pieces: self.field@, record: f@ };
        self.shake_tiles(f, source, from, radius, barrel, range, wear, one_shot, rng);
        assert(shaken(
            *range,
            *strike,
            *bite,
            *wear,
            source,
            old(self).round.seats@,
            harm,
            radius,
            barrel,
            from,
            start,
            tanks,
            frogs,
            Scene { pieces: self.field@, record: f@ },
        ));
        shoved
    }

    /// A missile bursts: it is announced, its opponents and the tiles in reach
    /// take their share while the round is `live`, and it sends out its
    /// ripple. Returns whom it shoves.
    pub fn missile_blast<
        R: Fn(Point, Point) -> Scalar,
        S: Fn(Source, Tank, Scalar) -> Tank,
        B: Fn(Source, Frog, Scalar) -> Frog,
        W: Fn(Source, Point, Tile, Scalar, bool) -> (Scalar, Blow),
    >(
        &mut self,
        f: &mut Frame,
        m: &Missile,
        live: bool,
        radius: Scalar,
        range: &R,
        strike: &S,
        bite: &B,
        wear: &W,
        one_shot: &Bernoulli,
        rng: &mut SmallRng,
    ) -> (shoved: Vec<u64>)
        requires
            old(self).wf(),
            shakes_well(*range, *strike, *bite, *wear),
        ensures
            final(self).wf(),
            burst_lands(
                *range,
                *strike,
                *bite,
                *wear,
                *m,
                live,
                old(self).round.seats@,
                radius,
                Scene { pieces: old(self).field@, record: old(f)@ },
                Scene { pieces: final(self).field@, record: final(f)@ },
                shoved@,
            ),
            !live ==> *final(rng) == *old(rng),
            final(self).round == old(self).round,
            final(self).keeps_surroundings(old(self)),
            final(self).events == old(self).events,
    {
        let ghost at = Scene { pieces: self.field@, record: f@ };
        record_burst(f, m);
        let mut shoved: Vec<u64> = Vec::new();
        let ghost mut stages: (Blasted, Scene, Scene) = arbitrary();
        if live {
            shoved = self.shake_all(
                f,
                Source::Missile,
                m.position,
                Harm::Opponents(m.owner),
                radius,
                false,
                range,
                strike,
                bite,
                wear,
                one_shot,
                rng,
            );
            proof {
                let tiles = Scene { pieces: self.field@, record: f@ };
                let (tanks, frogs) = choose|tanks: Blasted, frogs: Scene|
                    {
                        &&& #[trigger] shaken(
                            *range,
                            *strike,
                            *bite,
                            *wear,
                            Source::Missile,
                            old(self).round.seats@,
                            Harm::Opponents(m.owner),
                            radius,
                            false,
                            m.position,
                            Scene { pieces: at.pieces, record: burst_told(at.record, *m) },
                            tanks,
                            frogs,
                            tiles,
                        )
                        &&& shoved@ == tanks.shoved
                    };
                stages = (tanks, frogs, tiles);
            }
        }
        f.shock(m.position, ShockKind::Missile);
        f.blaze(m.position, FireballKind::Missile);
        f.scorch(m.position, None, true);
        proof {
            if live {
                assert(shaken(
                    *range,
                    *strike,
                    *bite,
                    *wear,
                    Source::Missile,
                    old(self).round.seats@,
                    Harm::Opponents(m.owner),
                    radius,
                    false,
                    m.position,
                    Scene { pieces: at.pieces, record: burst_told(at.record, *m) },
                    stages.0,
                    stages.1,
                    stages.2,
                ));
            }
        }
        shoved
    }

    /// A dying tank's explosion: its death is announced with the hardest
    /// ripple, and then the side opposing it and the tiles in reach take their
    /// share. Returns whom it shoves.
    pub fn apply_explosion<
        R: Fn(Point, Point) -> Scalar,
        S: Fn(Source, Tank, Scalar) -> Tank,
        W: Fn(Source, Point, Tile, Scalar, bool) -> (Scalar, Blow),
    >(
        &mut self,
        f: &mut Frame,
        kill: &Kill,
        radius: Scalar,
        range: &R,
        strike: &S,
        wear: &W,
        one_shot: &Bernoulli,
        rng: &mut SmallRng,
    ) -> (shoved: Vec<u64>)
        requires
            old(self).wf(),
            forall|c: Point, p: Point| call_requires(*range, (c, p)),
            forall|w: Source, t: Tank, d: Scalar| call_requires(*strike, (w, t, d)),
            forall|w: Source, c: Point, t: Tile, d: Scalar, roll: bool|
                call_requires(*wear, (w, c, t, d, roll)),
            keeps_owners(*strike),
        ensures
            final(self).wf(),
            wreck_lands(
                *range,
                *strike,
                *wear,
                *kill,
                old(self).round.seats@,
                radius,
                Scene { pieces: old(self).field@, record: old(f)@ },
                Scene { pieces: final(self).field@, record: final(f)@ },
                shoved@,
            ),
            final(self).round == old(self).round,
            final(self).keeps_surroundings(old(self)),
            final(self).events == old(self).events,
    {
        record_wreck(f, kill);
        let shoved: Vec<u64> = self.shake_tanks(
            f,
            Source::Wreck,
            kill.at,
            Harm::Opponents(kill.victim),
            radius,
            range,
            strike,
        );
        self.shake_tiles(f, Source::Wreck, kill.at, radius, false, range, wear, one_shot, rng);
        shoved
    }
}

/// A barrel's blast, in the host's numbers.
#[derive(Clone, Copy, Debug, PartialEq, Eq, Structural)]
pub struct BlastRules {
    pub radius: Scalar,
    /// The cell it is in, and how far a pool of fire spreads from there.
    pub cell: Cell,
    pub reach: i32,
    /// How long the screen must have been dark before it flashes again.
    pub gap: Scalar,
    /// Parts the drum is thrown in; with none its rubble stays in place.
    pub parts: i32,
    /// How near a tread mark must lie to be burnt in, and how many are.
    pub track_reach: Scalar,
    pub track_marks: i32,
    /// How near rubble must lie to be thrown again, and how much of it is.
    pub rethrow_reach: Scalar,
    pub rethrow_max: i32,
    /// What the delayed pops are hashed from, and how many there can be.
    pub pop_hash: u32,
    pub pop_max: i32,
}

/// A dying tank's show, in the host's numbers.
#[derive(Clone, Copy, Debug, PartialEq, Eq, Structural)]
pub struct WreckRules {
    pub gap: Scalar,
    pub track_reach: Scalar,
    pub track_marks: i32,
    /// How many times its ammunition cooks off.
    pub pops: i32,
}

/// What is left for the host to draw.
#[derive(Debug)]
pub struct BlastShow {
    /// The way the scorch mark is drawn out.
    pub streak: Option<Point>,
    /// Parts to throw.
    pub parts: u32,
    /// The rubble to throw again, by position.
    pub rethrown: Vec<usize>,
}

/// The record once a barrel's blast has been shown: one ripple, one flash, one
/// fireball and one burn mark at its centre.
pub open spec fn blast_told(f: Record, blast: PendingBlast, parts: i32) -> Record {
    let f = f.with_shock(blast.center, drum_shock(blast.drum)).with_blaze(
        blast.center,
        drum_fireball(blast.drum),
    ).with_scorch(blast.center, streak_of(blast.shape), false);
    if parts <= 0 {
        Record {
            rubble: f.rubble.push(
                Rubble { material: Material::Barrel, at: blast.center, charred: false },
            ),
            ..f
        }
    } else {
        f
    }
}

/// The way a shot that set a barrel off was travelling.
pub open spec fn streak_of(shape: BlastShape) -> Option<Point> {
    match shape {
        BlastShape::Shot { dir } => Some(dir),
        _ => None,
    }
}

/// Where tread marks lie.
pub open spec fn treads(tracks: Seq<TrackMark>) -> Seq<Point> {
    Seq::new(tracks.len(), |k: int| tracks[k].at)
}

/// Where rubble lies.
pub open spec fn rests(decals: Seq<Mark>) -> Seq<Point> {
    Seq::new(decals.len(), |k: int| decals[k].at)
}

/// The tread marks once those near enough have been burnt in.
pub open spec fn tracks_burnt<R: Fn(Point, Point) -> Scalar>(
    range: R,
    from: Point,
    reach: Scalar,
    marks: i32,
    before: Seq<TrackMark>,
    distances: Seq<Scalar>,
    after: Seq<TrackMark>,
) -> bool {
    &&& measured(range, from, treads(before), distances)
    &&& after == Seq::new(
        before.len(),
        |i: int|
            scorched_mark(before, distances, reach, marks as int, i),
    )
}

/// The rubble that is thrown again.
pub open spec fn picked_up<R: Fn(Point, Point) -> Scalar, L: Fn(Mark) -> bool>(
    range: R,
    from: Point,
    lying: L,
    rules: BlastRules,
    decals: Seq<Mark>,
    distances: Seq<Scalar>,
    down: Seq<bool>,
    picked: Seq<usize>,
) -> bool {
    &&& measured(range, from, rests(decals), distances)
    &&& down.len() == decals.len()
    &&& forall|k: int|
        0 <= k < decals.len() ==> call_ensures(lying, (#[trigger] decals[k],), down[k])
    &&& picked.map_values(|i: usize| i as int) == thrown_again(
        down,
        distances,
        rules.rethrow_reach,
        rules.rethrow_max as int,
        decals.len() as int,
    )
}

/// The pops a blast queues, each as `pop` has it.
pub open spec fn pops_made<K: Fn(Point, u32) -> Cookoff>(
    pop: K,
    from: Point,
    pops: Seq<Cookoff>,
    n: int,
) -> bool {
    pops.len() == n && forall|k: int|
        0 <= k < n ==> call_ensures(pop, (from, k as u32), #[trigger] pops[k])
}

/// A tuned count, none where it is negative.
pub open spec fn at_least_none(n: i32) -> int {
    if n > 0 {
        n as int
    } else {
        0
    }
}

/// The show a dying tank puts on.
pub open spec fn wreck_shown<R: Fn(Point, Point) -> Scalar, K: Fn(Point, u32) -> Cookoff>(
    range: R,
    pop: K,
    from: Point,
    rules: WreckRules,
    before: Game,
    after: Game,
) -> bool {
    &&& after.round == (Round { flash: before.round.flash.flashed(rules.gap), ..before.round })
    &&& exists|distances: Seq<Scalar>| #[trigger]
        tracks_burnt(
            range,
            from,
            rules.track_reach,
            rules.track_marks,
            before.show.tracks@,
            distances,
            after.show.tracks@,
        )
    &&& exists|pops: Seq<Cookoff>|
        {
            &&& #[trigger] pops_made(pop, from, pops, at_least_none(rules.pops))
            &&& after.show.cookoffs@ == before.show.cookoffs@ + pops
        }
    &&& after == (Game {
        round: after.round,
        show: Show {
            tracks: after.show.tracks,
            cookoffs: after.show.cookoffs,
            ..before.show
        },
        ..before
    })
}

/// The show a barrel's blast puts on.
pub open spec fn blast_shown<
    R: Fn(Point, Point) -> Scalar,
    L: Fn(Mark) -> bool,
    K: Fn(Point, u32) -> Cookoff,
>(
    range: R,
    lying: L,
    pop: K,
    blast: PendingBlast,
    rules: BlastRules,
    before: Game,
    after: Game,
    show: BlastShow,
) -> bool {
    &&& after.round == (Round { flash: before.round.flash.flashed(rules.gap), ..before.round })
    &&& exists|distances: Seq<Scalar>| #[trigger]
        tracks_burnt(
            range,
            blast.center,
            rules.track_reach,
            rules.track_marks,
            before.show.tracks@,
            distances,
            after.show.tracks@,
        )
    &&& exists|distances: Seq<Scalar>, down: Seq<bool>| #[trigger]
        picked_up(
            range,
            blast.center,
            lying,
            rules,
            before.show.decals@,
            distances,
            down,
            show.rethrown@,
        )
    &&& exists|pops: Seq<Cookoff>|
        {
            &&& #[trigger] pops_made(
                pop,
                blast.center,
                pops,
                pops_queued(rules.pop_hash, rules.pop_max),
            )
            &&& after.show.cookoffs@ == before.show.cookoffs@ + pops
        }
    &&& after == (Game {
        round: after.round,
        show: Show {
            tracks: after.show.tracks,
            cookoffs: after.show.cookoffs,
            ..before.show
        },
        ..before
    })
    &&& show.streak == streak_of(blast.shape)
    &&& show.parts == at_least_none(rules.parts)
}

impl Game {
    /// Burn the last few tread marks near an explosion into the ground.
    fn burn_tracks<R: Fn(Point, Point) -> Scalar>(
        &mut self,
        from: Point,
        reach: Scalar,
        marks: i32,
        range: &R,
    )
        requires
            forall|c: Point, p: Point| call_requires(*range, (c, p)),
        ensures
            exists|distances: Seq<Scalar>| #[trigger]
                tracks_burnt(
                    *range,
                    from,
                    reach,
                    marks,
                    old(self).show.tracks@,
                    distances,
                    final(self).show.tracks@,
                ),
            *final(self) == (Game {
                show: Show { tracks: final(self).show.tracks, ..old(self).show },
                ..*old(self)
            }),
    {
        let ghost tracks = self.show.tracks@;
        let mut at: Vec<Point> = Vec::new();
        let mut n: usize = 0;
        while n < self.show.tracks.len()
            invariant
                n <= self.show.tracks@.len(),
                at@ == treads(self.show.tracks@).take(n as int),
            decreases self.show.tracks@.len() - n,
        {
            at.push(self.show.tracks[n].at);
            n += 1;
            assert(at@ =~= treads(self.show.tracks@).take(n as int));
        }
        assert(at@ =~= treads(tracks));
        let distances: Vec<Scalar> = measure(range, from, &at);
        scorch_tracks(&mut self.show.tracks, &distances, reach, marks);
        assert(tracks_burnt(*range, from, reach, marks, tracks, distances@, self.show.tracks@));
    }

    /// Queue delayed pops.
    fn queue_pops<K: Fn(Point, u32) -> Cookoff>(&mut self, from: Point, count: u32, pop: &K)
        requires
            forall|c: Point, n: u32| call_requires(*pop, (c, n)),
        ensures
            exists|pops: Seq<Cookoff>|
                {
                    &&& #[trigger] pops_made(*pop, from, pops, count as int)
                    &&& final(self).show.cookoffs@ == old(self).show.cookoffs@ + pops
                },
            *final(self) == (Game {
                show: Show { cookoffs: final(self).show.cookoffs, ..old(self).show },
                ..*old(self)
            }),
    {
        let ghost mut pops: Seq<Cookoff> = Seq::empty();
        let ghost queue = self.show.cookoffs@;
        let mut i: u32 = 0;
        assert(self.show.cookoffs@ =~= queue + pops);
        while i < count
            invariant
                i <= count,
                forall|c: Point, n: u32| call_requires(*pop, (c, n)),
                pops_made(*pop, from, pops, i as int),
                self.show.cookoffs@ == queue + pops,
                *self == (Game {
                    show: Show { cookoffs: self.show.cookoffs, ..old(self).show },
                    ..*old(self)
                }),
            decreases count - i,
        {
            let one: Cookoff = pop(from, i);
            self.show.cookoffs.push(one);
            proof {
                pops = pops.push(one);
                assert(self.show.cookoffs@ =~= queue + pops);
            }
            i += 1;
        }
    }

    /// Everything a dying tank throws off: the whole-screen flash, its tread
    /// marks burnt in and its ammunition queued to cook off. Draws no random
    /// numbers, so a spectacular death shifts nothing.
    pub fn wreck_fx<R: Fn(Point, Point) -> Scalar, K: Fn(Point, u32) -> Cookoff>(
        &mut self,
        from: Point,
        rules: &WreckRules,
        range: &R,
        pop: &K,
    )
        requires
            old(self).wf(),
            forall|c: Point, p: Point| call_requires(*range, (c, p)),
            forall|c: Point, n: u32| call_requires(*pop, (c, n)),
        ensures
            final(self).wf(),
            wreck_shown(*range, *pop, from, *rules, *old(self), *final(self)),
    {
        self.round.flash.flash_screen(rules.gap);
        self.burn_tracks(from, rules.track_reach, rules.track_marks, range);
        let count: u32 = if rules.pops > 0 {
            rules.pops as u32
        } else {
            0
        };
        assert(count as int == at_least_none(rules.pops));
        let ghost queue = self.show.cookoffs@;
        self.queue_pops(from, count, pop);
        proof {
            let pops = choose|pops: Seq<Cookoff>|
                {
                    &&& #[trigger] pops_made(*pop, from, pops, count as int)
                    &&& self.show.cookoffs@ == queue + pops
                };
            assert(pops_made(*pop, from, pops, at_least_none(rules.pops)));
        }
    }
}

impl Game {
    /// The show a barrel's blast puts on: a ripple, the whole-screen flash,
    /// tread marks burnt in, rubble thrown about and delayed pops queued.
    /// Draws no random numbers.
    pub fn show_blast<R: Fn(Point, Point) -> Scalar, L: Fn(Mark) -> bool, K: Fn(Point, u32) -> Cookoff>(
        &mut self,
        f: &mut Frame,
        blast: &PendingBlast,
        rules: &BlastRules,
        range: &R,
        lying: &L,
        pop: &K,
    ) -> (show: BlastShow)
        requires
            old(self).wf(),
            forall|c: Point, p: Point| call_requires(*range, (c, p)),
            forall|m: Mark| call_requires(*lying, (m,)),
            forall|c: Point, n: u32| call_requires(*pop, (c, n)),
        ensures
            final(self).wf(),
            final(f)@ == blast_told(old(f)@, *blast, rules.parts),
            blast_shown(
                *range,
                *lying,
                *pop,
                *blast,
                *rules,
                *old(self),
                *final(self),
                show,
            ),
    {
        let streak: Option<Point> = match blast.shape {
            BlastShape::Shot { dir } => Some(dir),
            _ => None,
        };
        f.shock(blast.center, drum_shock(blast.drum));
        f.blaze(blast.center, drum_fireball(blast.drum));
        f.scorch(blast.center, streak, false);
        self.round.flash.flash_screen(rules.gap);
        self.burn_tracks(blast.center, rules.track_reach, rules.track_marks, range);
        if rules.parts <= 0 {
            f.rubble.push(
                Rubble { material: Material::Barrel, at: blast.center, charred: false },
            );
        }
        let mut at: Vec<Point> = Vec::new();
        let mut down: Vec<bool> = Vec::new();
        let mut n: usize = 0;
        while n < self.show.decals.len()
            invariant
                n <= self.show.decals@.len(),
                at@ == rests(self.show.decals@).take(n as int),
                down@.len() == n,
                forall|m: Mark| call_requires(*lying, (m,)),
                forall|k: int|
                    0 <= k < n ==> call_ensures(
                        *lying,
                        (#[trigger] self.show.decals@[k],),
                        down@[k],
                    ),
            decreases self.show.decals@.len() - n,
        {
            at.push(self.show.decals[n].at);
            down.push(lying(self.show.decals[n]));
            n += 1;
            assert(at@ =~= rests(self.show.decals@).take(n as int));
        }
        assert(at@ =~= rests(self.show.decals@));
        let far: Vec<Scalar> = measure(range, blast.center, &at);
        let picked: Vec<usize> = rethrown(&down, &far, rules.rethrow_reach, rules.rethrow_max);
        let count: u32 = cookoff_count(rules.pop_hash, rules.pop_max);
        self.queue_pops(blast.center, count, pop);
        let parts: u32 = if rules.parts > 0 {
            rules.parts as u32
        } else {
            0
        };
        let out: BlastShow = BlastShow { streak, parts, rethrown: picked };
        assert(picked_up(
            *range,
            blast.center,
            *lying,
            *rules,
            old(self).show.decals@,
            far@,
            down@,
            out.rethrown@,
        ));
        out
    }
}

/// How far each trail cell lies, and whether that is within the blast.
pub open spec fn trail_near<C: Fn(Point, Cell) -> Scalar>(
    cells: C,
    from: Point,
    radius: Scalar,
    oil: Seq<Cell>,
    distances: Seq<Scalar>,
    near: Seq<bool>,
) -> bool {
    &&& distances.len() == oil.len()
    &&& near.len() == oil.len()
    &&& forall|k: int|
        0 <= k < oil.len() ==> call_ensures(cells, (from, #[trigger] oil[k]), distances[k])
            && near[k] == distances[k].at_most(radius)
}

fn near_cells<C: Fn(Point, Cell) -> Scalar>(
    oil: &Vec<Cell>,
    from: Point,
    radius: Scalar,
    cells: &C,
) -> (near: Vec<bool>)
    requires
        forall|p: Point, c: Cell| call_requires(*cells, (p, c)),
    ensures
        exists|distances: Seq<Scalar>| #[trigger]
            trail_near(*cells, from, radius, oil@, distances, near@),
{
    let mut near: Vec<bool> = Vec::new();
    let ghost mut distances: Seq<Scalar> = Seq::empty();
    let mut n: usize = 0;
    while n < oil.len()
        invariant
            n <= oil@.len(),
            near@.len() == n,
            distances.len() == n,
            forall|p: Point, c: Cell| call_requires(*cells, (p, c)),
            forall|k: int|
                0 <= k < n ==> call_ensures(*cells, (from, #[trigger] oil@[k]), distances[k]),
            forall|k: int| 0 <= k < n ==> #[trigger] near@[k] == distances[k].at_most(radius),
        decreases oil@.len() - n,
    {
        let d: Scalar = cells(from, oil[n]);
        near.push(d.le(radius));
        proof {
            distances = distances.push(d);
        }
        n += 1;
    }
    assert(trail_near(*cells, from, radius, oil@, distances, near@));
    near
}

/// What the blast left of the ground: an oil drum's pool of fire where it left
/// one, and the trail cells near it alight.
pub open spec fn ground_share<
    C: Fn(Point, Cell) -> Scalar,
    P: Fn(Cell) -> Spark,
    T: Fn(Cell) -> Spark,
>(
    cells: C,
    pool: P,
    trail: T,
    from: Point,
    rules: BlastRules,
    oil: Seq<Cell>,
    left: bool,
    at: (Seq<GroundFire>, Record),
    after: (Seq<GroundFire>, Record),
) -> bool {
    exists|distances: Seq<Scalar>, near: Seq<bool>, mid: (Seq<GroundFire>, Record)|
        {
            &&& #[trigger] trail_near(cells, from, rules.radius, oil, distances, near)
            &&& if left {
                cells_lit(pool, crate::combat::pool(rules.cell, rules.reach as int), at, mid)
            } else {
                mid == at
            }
            &&& #[trigger] cells_lit(trail, near_trail(oil, near, oil.len() as int), mid, after)
        }
}

/// What came of a barrel's blast.
#[derive(Debug)]
pub struct BlastOutcome {
    /// Whom it shoves.
    pub shoved: Vec<u64>,
    /// It left a pool of fire.
    pub pool: bool,
    pub show: BlastShow,
}

/// The field, the ground fires and the record, part of the way through.
#[verifier::ext_equal]
pub struct Scorched {
    pub pieces: Map<u64, Piece>,
    pub fires: Seq<GroundFire>,
    pub record: Record,
}

/// Everything in reach and then the ground took their share of a barrel's
/// blast, by way of how things stood in between.
pub open spec fn blast_lands<
    R: Fn(Point, Point) -> Scalar,
    S: Fn(Source, Tank, Scalar) -> Tank,
    B: Fn(Source, Frog, Scalar) -> Frog,
    W: Fn(Source, Point, Tile, Scalar, bool) -> (Scalar, Blow),
    C: Fn(Point, Cell) -> Scalar,
    P: Fn(Cell) -> Spark,
    T: Fn(Cell) -> Spark,
>(
    range: R,
    strike: S,
    bite: B,
    wear: W,
    cells: C,
    pool: P,
    trail: T,
    rules: BlastRules,
    source: Source,
    from: Point,
    seats: Seq<Option<u64>>,
    oil: Seq<Cell>,
    left: bool,
    at: Scorched,
    tanks: Blasted,
    frogs: Scene,
    tiles: Scene,
    after: Scorched,
) -> bool {
    &&& shaken(
        range,
        strike,
        bite,
        wear,
        source,
        seats,
        Harm::Everyone,
        rules.radius,
        true,
        from,
        Scene { pieces: at.pieces, record: at.record },
        tanks,
        frogs,
        tiles,
    )
    &&& ground_share(
        cells,
        pool,
        trail,
        from,
        rules,
        oil,
        left,
        (at.fires, tiles.record),
        (after.fires, after.record),
    )
    &&& after.pieces == tiles.pieces
}

/// A barrel's blast was worked off. On the end screen nobody is hurt and
/// nothing catches; the show plays either way. An oil drum with reach leaves a
/// pool of fire where that is certain, and none where it never does.
pub open spec fn blast_done<
    R: Fn(Point, Point) -> Scalar,
    S: Fn(Source, Tank, Scalar) -> Tank,
    B: Fn(Source, Frog, Scalar) -> Frog,
    W: Fn(Source, Point, Tile, Scalar, bool) -> (Scalar, Blow),
    C: Fn(Point, Cell) -> Scalar,
    P: Fn(Cell) -> Spark,
    T: Fn(Cell) -> Spark,
    L: Fn(Mark) -> bool,
    K: Fn(Point, u32) -> Cookoff,
>(
    range: R,
    strike: S,
    bite: B,
    wear: W,
    cells: C,
    pool: P,
    trail: T,
    lying: L,
    pop: K,
    blast: PendingBlast,
    live: bool,
    rules: BlastRules,
    odds: Odds,
    before: (Game, Record),
    after: (Game, Record),
    out: BlastOutcome,
) -> bool {
    &&& !live ==> {
        &&& out.shoved@ == Seq::<u64>::empty()
        &&& !out.pool
        &&& after.0.field == before.0.field
        &&& after.0.ground == before.0.ground
        &&& after.1 == blast_told(before.1, blast, rules.parts)
    }
    &&& live ==> exists|tanks: Blasted, frogs: Scene, tiles: Scene, end: Scorched|
        {
            &&& #[trigger] blast_lands(
                range,
                strike,
                bite,
                wear,
                cells,
                pool,
                trail,
                rules,
                source_of(blast.drum),
                blast.center,
                before.0.round.seats@,
                before.0.ground.oil@,
                out.pool,
                Scorched {
                    pieces: before.0.field@,
                    fires: before.0.ground.fires@,
                    record: before.1,
                },
                tanks,
                frogs,
                tiles,
                end,
            )
            &&& out.shoved@ == tanks.shoved
            &&& after.0.field@ == end.pieces
            &&& after.0.ground.fires@ == end.fires
            &&& after.1 == blast_told(end.record, blast, rules.parts)
        }
    &&& out.pool ==> blast.drum is Oil && rules.reach > 0 && !(odds is Never)
    &&& live && blast.drum is Oil && rules.reach > 0 && odds is Always ==> out.pool
    &&& after.0.ground == (Ground { fires: after.0.ground.fires, ..before.0.ground })
    &&& blast_shown(
        range,
        lying,
        pop,
        blast,
        rules,
        Game { field: after.0.field, ground: after.0.ground, ..before.0 },
        after.0,
        out.show,
    )
}

impl Game {
    /// A barrel's blast. While the round is `live` everyone in reach takes a
    /// share whoever they are, players first, then enemies, frogs and tiles,
    /// and the ground catches; on the end screen nobody is hurt. The show
    /// plays either way.
    pub fn apply_blast<
        R: Fn(Point, Point) -> Scalar,
        S: Fn(Source, Tank, Scalar) -> Tank,
        B: Fn(Source, Frog, Scalar) -> Frog,
        W: Fn(Source, Point, Tile, Scalar, bool) -> (Scalar, Blow),
        C: Fn(Point, Cell) -> Scalar,
        P: Fn(Cell) -> Spark,
        T: Fn(Cell) -> Spark,
        L: Fn(Mark) -> bool,
        K: Fn(Point, u32) -> Cookoff,
    >(
        &mut self,
        f: &mut Frame,
        blast: &PendingBlast,
        live: bool,
        rules: &BlastRules,
        pool_odds: &Odds,
        one_shot: &Bernoulli,
        range: &R,
        strike: &S,
        bite: &B,
        wear: &W,
        cells: &C,
        pool: &P,
        trail: &T,
        lying: &L,
        pop: &K,
        rng: &mut SmallRng,
    ) -> (out: BlastOutcome)
        requires
            old(self).wf(),
            fires_inside(old(self).ground.fires@),
            rules.reach > 0 ==> pool_fits(rules.cell, rules.reach as int),
            shakes_well(*range, *strike, *bite, *wear),
            forall|p: Point, c: Cell| call_requires(*cells, (p, c)),
            lights_well(*pool),
            lights_well(*trail),
            forall|m: Mark| call_requires(*lying, (m,)),
            forall|c: Point, n: u32| call_requires(*pop, (c, n)),
        ensures
            final(self).wf(),
            fires_inside(final(self).ground.fires@),
            blast_done(
                *range,
                *strike,
                *bite,
                *wear,
                *cells,
                *pool,
                *trail,
                *lying,
                *pop,
                *blast,
                live,
                *rules,
                *pool_odds,
                (*old(self), old(f)@),
                (*final(self), final(f)@),
                out,
            ),
            !live ==> *final(rng) == *old(rng),
    {
        let ghost start = Scorched {
            pieces: self.field@,
            fires: self.ground.fires@,
            record: f@,
        };
        let mut shoved: Vec<u64> = Vec::new();
        let mut left: bool = false;
        let ghost mut stages: (Blasted, Scene, Scene, Scorched) = arbitrary();
        if live {
            shoved = self.shake_all(
                f,
                source_of(blast.drum),
                blast.center,
                Harm::Everyone,
                rules.radius,
                true,
                range,
                strike,
                bite,
                wear,
                one_shot,
                rng,
            );
            let ghost tiles = Scene { pieces: self.field@, record: f@ };
            let ghost (tanks, frogs) = choose|tanks: Blasted, frogs: Scene|
                {
                    &&& #[trigger] shaken(
                        *range,
                        *strike,
                        *bite,
                        *wear,
                        source_of(blast.drum),
                        old(self).round.seats@,
                        Harm::Everyone,
                        rules.radius,
                        true,
                        blast.center,
                        Scene { pieces: start.pieces, record: start.record },
                        tanks,
                        frogs,
                        tiles,
                    )
                    &&& shoved@ == tanks.shoved
                };
            let near: Vec<bool> = near_cells(&self.ground.oil, blast.center, rules.radius, cells);
            left = self.blast_ground(
                f,
                blast.drum,
                rules.cell,
                rules.reach,
                pool_odds,
                &near,
                pool,
                trail,
                rng,
            );
            proof {
                let after = Scorched {
                    pieces: self.field@,
                    fires: self.ground.fires@,
                    record: f@,
                };
                assert(ground_share(
                    *cells,
                    *pool,
                    *trail,
                    blast.center,
                    *rules,
                    old(self).ground.oil@,
                    left,
                    (start.fires, tiles.record),
                    (after.fires, after.record),
                ));
                stages = (tanks, frogs, tiles, after);
            }
        }
        let show: BlastShow = self.show_blast(f, blast, rules, range, lying, pop);
        let out: BlastOutcome = BlastOutcome { shoved, pool: left, show };
        proof {
            if live {
                assert(blast_lands(
                    *range,
                    *strike,
                    *bite,
                    *wear,
                    *cells,
                    *pool,
                    *trail,
                    *rules,
                    source_of(blast.drum),
                    blast.center,
                    old(self).round.seats@,
                    old(self).ground.oil@,
                    out.pool,
                    start,
                    stages.0,
                    stages.1,
                    stages.2,
                    stages.3,
                ));
            }
        }
        out
    }
}

/// A running tank in the fight that stands inside the radius, and whom the
/// explosion hurts, is what the explosion makes of it at its distance; a wreck,
/// one outside and one of the spared side is left as it was.
pub proof fn a_tank_in_reach_takes_its_share<
    R: Fn(Point, Point) -> Scalar,
    S: Fn(Source, Tank, Scalar) -> Tank,
>(
    range: R,
    strike: S,
    source: Source,
    from: Point,
    seats: Seq<Option<u64>>,
    harm: Harm,
    radius: Scalar,
    at: Blasted,
    after: Blasted,
    id: u64,
)
    requires
        tanks_share(range, strike, source, from, seats, harm, radius, at, after),
        seats.len() == 8,
        at.pieces.contains_key(id),
        at.pieces[id] is Tank,
        at.pieces[id]->Tank_0.mind is Some || (exists|s: int|
            0 <= s < 8 && #[trigger] seats[s] == Some(id)),
    ensures
        ({
            let t = at.pieces[id]->Tank_0;
            let hurt = match harm {
                Harm::Everyone => true,
                Harm::Opponents(owner) => owner is Player != t.owner is Player,
            };
            &&& !t.wreck && hurt && (forall|d: Scalar| #[trigger]
                call_ensures(range, (from, t.position), d) ==> d.at_most(radius)) ==> {
                &&& after.pieces.contains_key(id) && after.pieces[id] is Tank
                &&& exists|d: Scalar|
                    call_ensures(range, (from, t.position), d) && #[trigger] call_ensures(
                        strike,
                        (source, t, d),
                        after.pieces[id]->Tank_0,
                    )
                &&& after.pieces[id]->Tank_0.wreck ==> exists|i: int|
                    0 <= i < after.record.kills.len() && (#[trigger] after.record.kills[i]).victim
                        == after.pieces[id]->Tank_0.owner
                &&& !after.pieces[id]->Tank_0.wreck ==> after.shoved.contains(id)
            }
            &&& t.wreck || !hurt || (forall|d: Scalar| #[trigger]
                call_ensures(range, (from, t.position), d) ==> radius.below(d)) ==> {
                &&& after.pieces.contains_key(id)
                &&& after.pieces[id] == at.pieces[id]
            }
        }),
{
    let t = at.pieces[id]->Tank_0;
    assert(thing::<Tank>(at.pieces, id) == Some(t));
    let (walk, distances, outs) = choose|walk: Seq<u64>, distances: Seq<Scalar>, outs: Seq<Tank>|
        {
            &&& is_walk(seats, at.pieces, walk)
            &&& measured(range, from, stands(at.pieces, walk), distances)
            &&& #[trigger] tanks_struck(
                strike,
                source,
                at.pieces,
                walk,
                distances,
                harm,
                radius,
                outs,
                walk.len() as int,
            )
            &&& after == blasted(at, walk, distances, harm, radius, outs, walk.len() as int)
        };
    crate::arms::a_walk_visits_everybody(seats, at.pieces, walk, id);
    let k = choose|k: int| 0 <= k < walk.len() && walk[k] == id;
    assert(stands(at.pieces, walk)[k] == t.position);
    assert(call_ensures(range, (from, stands(at.pieces, walk)[k]), distances[k]));
    let n = walk.len() as int;
    if !t.wreck && distances[k].at_most(radius) {
        crate::blasts::a_tank_in_the_blast_is_struck(
            at,
            walk,
            distances,
            harm,
            radius,
            outs,
            n,
            k,
        );
        if harm.hurts(t.owner) {
            assert(in_reach(thing::<Tank>(at.pieces, walk[k])->0.wreck, distances[k], radius));
            assert(call_ensures(strike, (source, t, distances[k]), outs[k]));
        }
    }
    if t.wreck || !harm.hurts(t.owner) || radius.below(distances[k]) {
        crate::blasts::a_spared_tank_is_untouched(
            at,
            walk,
            distances,
            harm,
            radius,
            outs,
            n,
            k,
        );
    }
}

/// A blast reaches a tile that stands inside its radius; a barrel's passes over
/// one that is on a fuse already. Damage is rolled for all but a barrel in
/// another barrel's blast.
pub proof fn a_blast_reaches_standing_tiles(
    tile: Tile,
    distance: Scalar,
    radius: Scalar,
    barrel: bool,
)
    ensures
        !tile.destroyed && distance.at_most(radius) && (!barrel || tile.fuse is None) ==> reaches(
            tile,
            distance,
            radius,
            barrel,
        ),
        tile.destroyed || radius.below(distance) || (barrel && tile.fuse is Some) ==> !reaches(
            tile,
            distance,
            radius,
            barrel,
        ),
        rolled(tile, barrel) <==> !(barrel && tile.material is Barrel),
{
}

proof fn lemma_tiles_elsewhere(
    at: Scene,
    all: Seq<(u64, Tile)>,
    distances: Seq<Scalar>,
    radius: Scalar,
    barrel: bool,
    from: Point,
    shares: Seq<(Scalar, Blow)>,
    outs: Seq<(Tile, bool)>,
    n: int,
    id: u64,
)
    requires
        0 <= n <= all.len(),
        forall|i: int| 0 <= i < n ==> (#[trigger] all[i]).0 != id,
    ensures
        ({
            let after = tiles_after(
                at,
                all,
                distances,
                radius,
                barrel,
                from,
                shares,
                outs,
                n,
            ).pieces;
            after.contains_key(id) == at.pieces.contains_key(id) && after[id] == at.pieces[id]
        }),
    decreases n,
{
    if n > 0 {
        assert(all[n - 1].0 != id);
        lemma_tiles_elsewhere(
            at,
            all,
            distances,
            radius,
            barrel,
            from,
            shares,
            outs,
            n - 1,
            id,
        );
    }
}

proof fn lemma_tile_after(
    at: Scene,
    all: Seq<(u64, Tile)>,
    distances: Seq<Scalar>,
    radius: Scalar,
    barrel: bool,
    from: Point,
    shares: Seq<(Scalar, Blow)>,
    outs: Seq<(Tile, bool)>,
    n: int,
    k: int,
)
    requires
        0 <= k < n <= all.len(),
        forall|i: int, j: int|
            0 <= i < j < all.len() ==> (#[trigger] all[i]).0 != (#[trigger] all[j]).0,
    ensures
        ({
            let after = tiles_after(
                at,
                all,
                distances,
                radius,
                barrel,
                from,
                shares,
                outs,
                n,
            ).pieces;
            let id = all[k].0;
            &&& reaches(all[k].1, distances[k], radius, barrel) ==> after.contains_key(id)
                && after[id] == Piece::Tile(outs[k].0)
            &&& !reaches(all[k].1, distances[k], radius, barrel) ==> after.contains_key(id)
                == at.pieces.contains_key(id) && after[id] == at.pieces[id]
        }),
    decreases n,
{
    if k < n - 1 {
        assert(all[k].0 != all[n - 1].0);
        lemma_tile_after(
            at,
            all,
            distances,
            radius,
            barrel,
            from,
            shares,
            outs,
            n - 1,
            k,
        );
    } else {
        assert forall|i: int| 0 <= i < k implies (#[trigger] all[i]).0 != all[k].0 by {
        }
        lemma_tiles_elsewhere(
            at,
            all,
            distances,
            radius,
            barrel,
            from,
            shares,
            outs,
            n - 1,
            all[k].0,
        );
    }
}

/// A standing barrel inside a blast's radius goes on a fuse and remembers where
/// the blast was; a fence there that was hit before is gone; and a tile outside
/// it stays as it was.
pub proof fn a_blast_works_on_the_tiles_in_reach<
    R: Fn(Point, Point) -> Scalar,
    W: Fn(Source, Point, Tile, Scalar, bool) -> (Scalar, Blow),
>(
    range: R,
    wear: W,
    source: Source,
    from: Point,
    radius: Scalar,
    barrel: bool,
    at: Scene,
    after: Scene,
    id: u64,
)
    requires
        tiles_share(range, wear, source, from, radius, barrel, at, after),
        at.pieces.contains_key(id),
        at.pieces[id] is Tile,
    ensures
        ({
            let t = at.pieces[id]->Tile_0;
            let a = after.pieces[id]->Tile_0;
            let inside = forall|d: Scalar| #[trigger]
                call_ensures(range, (from, t.position), d) ==> d.at_most(radius);
            let outside = forall|d: Scalar| #[trigger]
                call_ensures(range, (from, t.position), d) ==> radius.below(d);
            let standing = !t.destroyed && !t.burning && t.fuse is None;
            &&& after.pieces.contains_key(id) && after.pieces[id] is Tile
            &&& inside && standing && t.material is Barrel ==> {
                &&& a.fuse is Some && a.fuse->0.from == Some(from)
                &&& a.health.bits == 0 && !a.destroyed
            }
            &&& inside && standing && t.material is Fence && !t.max_health.at_most(t.health)
                ==> a.destroyed && a.health.bits == 0
            &&& t.destroyed || outside ==> a == t
        }),
{
    let t = at.pieces[id]->Tile_0;
    assert(thing::<Tile>(at.pieces, id) == Some(t));
    let (all, distances, shares, outs) = choose|
        all: Seq<(u64, Tile)>,
        distances: Seq<Scalar>,
        shares: Seq<(Scalar, Blow)>,
        outs: Seq<(Tile, bool)>,
    |
        {
            &&& lists::<Tile>(at.pieces, all)
            &&& measured(range, from, sites(all), distances)
            &&& #[trigger] tiles_taken(
                wear,
                source,
                all,
                distances,
                radius,
                barrel,
                from,
                shares,
                outs,
                all.len() as int,
            )
            &&& after == tiles_after(
                at,
                all,
                distances,
                radius,
                barrel,
                from,
                shares,
                outs,
                all.len() as int,
            )
        };
    let k = choose|k: int| 0 <= k < all.len() && (#[trigger] all[k]).0 == id;
    assert(thing::<Tile>(at.pieces, all[k].0) == Some(all[k].1));
    assert(sites(all)[k] == t.position);
    assert(call_ensures(range, (from, sites(all)[k]), distances[k]));
    lemma_tile_after(
        at,
        all,
        distances,
        radius,
        barrel,
        from,
        shares,
        outs,
        all.len() as int,
        k,
    );
    if reaches(t, distances[k], radius, barrel) {
        let cause = DamageCause::Blast { falloff: shares[k].0, from };
        assert(may_suffer(source, all[k].1, shares[k].1, cause, outs[k]));
        let dark = darkened(source, t, shares[k].1.face);
        let heads = choose|heads: bool|
            outs[k] == #[trigger] crate::props::blow(
                dark,
                over_soot(shares[k].1, dark),
                cause,
                heads,
            );
    }
}

/// Only a wall keeps soot, on the face that looked at the blast, and none from a
/// wreck; nothing else of a tile changes by it.
pub proof fn soot_is_for_walls(source: Source, tile: Tile, face: u8)
    ensures
        ({
            let after = darkened(source, tile, face);
            let wall = tile.material is Brick || tile.material is Iron || tile.material is Wood
                || tile.material is Glass;
            &&& wall && !(source is Wreck) ==> after.soot == tile.soot | face
            &&& !wall || source is Wreck ==> after == tile
            &&& after == (Tile { soot: after.soot, ..tile })
        }),
{
}

/// A missile's burst hurts only the side opposing whoever launched it, and only
/// while the round is live; it is told, and shakes and marks the ground, in any
/// case.
pub proof fn a_missiles_burst_is_for_its_opponents<
    R: Fn(Point, Point) -> Scalar,
    S: Fn(Source, Tank, Scalar) -> Tank,
    B: Fn(Source, Frog, Scalar) -> Frog,
    W: Fn(Source, Point, Tile, Scalar, bool) -> (Scalar, Blow),
>(
    range: R,
    strike: S,
    bite: B,
    wear: W,
    m: Missile,
    live: bool,
    seats: Seq<Option<u64>>,
    radius: Scalar,
    at: Scene,
    after: Scene,
    shoved: Seq<u64>,
)
    requires
        burst_lands(range, strike, bite, wear, m, live, seats, radius, at, after, shoved),
    ensures
        !live ==> after.pieces == at.pieces && shoved.len() == 0 && after.record.events
            == at.record.events.push(
            Event::MissileBlast { slot: m.owner.round_slot(), x: m.position.x, y: m.position.y },
        ),
        after.record.shocks.len() > 0 && after.record.shocks.last().at == m.position
            && after.record.shocks.last().kind is Missile,
        after.record.fireballs.len() > 0 && after.record.fireballs.last().at == m.position
            && after.record.fireballs.last().kind is Missile,
        after.record.scorches.len() > 0 && after.record.scorches.last().at == m.position,
        live ==> exists|tanks: Blasted| #[trigger]
            tanks_share(
                range,
                strike,
                Source::Missile,
                m.position,
                seats,
                Harm::Opponents(m.owner),
                radius,
                (Blasted {
                    pieces: at.pieces,
                    record: burst_told(at.record, m),
                    shoved: Seq::empty(),
                }),
                tanks,
            ) && shoved == tanks.shoved,
{
    if live {
        let (tanks, frogs, tiles) = choose|tanks: Blasted, frogs: Scene, tiles: Scene|
            {
                &&& #[trigger] shaken(
                    range,
                    strike,
                    bite,
                    wear,
                    Source::Missile,
                    seats,
                    Harm::Opponents(m.owner),
                    radius,
                    false,
                    m.position,
                    Scene { pieces: at.pieces, record: burst_told(at.record, m) },
                    tanks,
                    frogs,
                    tiles,
                )
                &&& shoved == tanks.shoved
                &&& after.pieces == tiles.pieces
                &&& after.record == tiles.record.with_shock(
                    m.position,
                    ShockKind::Missile,
                ).with_blaze(m.position, FireballKind::Missile).with_scorch(
                    m.position,
                    None,
                    true,
                )
            };
        assert(tanks_share(
            range,
            strike,
            Source::Missile,
            m.position,
            seats,
            Harm::Opponents(m.owner),
            radius,
            Blasted { pieces: at.pieces, record: burst_told(at.record, m), shoved: Seq::empty() },
            tanks,
        ));
    }
}

/// A barrel's blast shakes the ground and leaves a fireball and a burn mark at
/// its centre, drawn out along the shot that set it off; a drum that is not
/// thrown in parts leaves its rubble there.
pub proof fn a_barrels_blast_is_shown(f: Record, blast: PendingBlast, parts: i32)
    ensures
        ({
            let g = blast_told(f, blast, parts);
            &&& g.shocks.len() == f.shocks.len() + 1 && g.shocks.last().at == blast.center
            &&& blast.drum is Oil ==> g.shocks.last().kind is Barrel
            &&& blast.drum is Fuel ==> g.shocks.last().kind is Fuel
            &&& g.fireballs.len() == f.fireballs.len() + 1 && g.fireballs.last().at == blast.center
            &&& blast.drum is Oil ==> g.fireballs.last().kind is Oil
            &&& blast.drum is Fuel ==> g.fireballs.last().kind is Fuel
            &&& g.scorches.len() == f.scorches.len() + 1 && g.scorches.last().at == blast.center
            &&& blast.shape matches BlastShape::Shot { dir } ==> g.scorches.last().streak == Some(
                dir,
            )
            &&& !(blast.shape is Shot) ==> g.scorches.last().streak is None
            &&& parts > 0 ==> g.rubble == f.rubble
            &&& parts <= 0 ==> g.rubble.len() == f.rubble.len() + 1 && g.rubble.last().at
                == blast.center && g.rubble.last().material is Barrel
            &&& g.events == f.events && g.kills == f.kills
        }),
{
}

/// A dying tank's show: a flash unless one has just played, the pops it is
/// tuned to on top of those queued, the tread marks near it burnt in where they
/// lie, and nothing else touched.
pub proof fn a_dying_tank_puts_on_its_show<
    R: Fn(Point, Point) -> Scalar,
    K: Fn(Point, u32) -> Cookoff,
>(range: R, pop: K, from: Point, rules: WreckRules, before: Game, after: Game)
    requires
        wreck_shown(range, pop, from, rules, before, after),
    ensures
        before.round.flash.cooldown.at_most(Scalar::zero()) ==> after.round.flash.age == Some(
            Scalar::zero(),
        ) && after.round.flash.cooldown == rules.gap,
        Scalar::zero().below(before.round.flash.cooldown) ==> after.round.flash
            == before.round.flash,
        rules.pops <= 0 ==> after.show.cookoffs@ == before.show.cookoffs@,
        rules.pops > 0 ==> after.show.cookoffs@.len() == before.show.cookoffs@.len() + rules.pops,
        after.show.tracks@.len() == before.show.tracks@.len(),
        forall|k: int|
            0 <= k < before.show.tracks@.len() ==> (#[trigger] after.show.tracks@[k]).at
                == before.show.tracks@[k].at,
        after.field == before.field && after.ground == before.ground && after.pack == before.pack,
        after.show.decals == before.show.decals,
{
    let pops = choose|pops: Seq<Cookoff>|
        {
            &&& #[trigger] pops_made(pop, from, pops, at_least_none(rules.pops))
            &&& after.show.cookoffs@ == before.show.cookoffs@ + pops
        };
    assert(pops_made(pop, from, pops, at_least_none(rules.pops)));
    let distances = choose|distances: Seq<Scalar>| #[trigger]
        tracks_burnt(
            range,
            from,
            rules.track_reach,
            rules.track_marks,
            before.show.tracks@,
            distances,
            after.show.tracks@,
        );
    assert(tracks_burnt(
        range,
        from,
        rules.track_reach,
        rules.track_marks,
        before.show.tracks@,
        distances,
        after.show.tracks@,
    ));
}

/// On the end screen a barrel's blast hurts nobody, moves nobody and lights
/// nothing; a fuel drum never leaves a pool of fire, and an oil drum with reach
/// does while the round is live wherever it is certain.
pub proof fn a_blast_after_the_end_hurts_nobody<
    R: Fn(Point, Point) -> Scalar,
    S: Fn(Source, Tank, Scalar) -> Tank,
    B: Fn(Source, Frog, Scalar) -> Frog,
    W: Fn(Source, Point, Tile, Scalar, bool) -> (Scalar, Blow),
    C: Fn(Point, Cell) -> Scalar,
    P: Fn(Cell) -> Spark,
    T: Fn(Cell) -> Spark,
    L: Fn(Mark) -> bool,
    K: Fn(Point, u32) -> Cookoff,
>(
    range: R,
    strike: S,
    bite: B,
    wear: W,
    cells: C,
    pool: P,
    trail: T,
    lying: L,
    pop: K,
    blast: PendingBlast,
    live: bool,
    rules: BlastRules,
    odds: Odds,
    before: (Game, Record),
    after: (Game, Record),
    out: BlastOutcome,
)
    requires
        blast_done(
            range,
            strike,
            bite,
            wear,
            cells,
            pool,
            trail,
            lying,
            pop,
            blast,
            live,
            rules,
            odds,
            before,
            after,
            out,
        ),
    ensures
        !live ==> {
            &&& out.shoved@.len() == 0 && !out.pool
            &&& after.0.field@ == before.0.field@
            &&& after.0.ground.fires@ == before.0.ground.fires@
            &&& after.1.kills == before.1.kills
        },
        blast.drum is Fuel ==> !out.pool,
        rules.reach <= 0 ==> !out.pool,
        odds is Never ==> !out.pool,
        live && blast.drum is Oil && rules.reach > 0 && odds is Always ==> out.pool,
        after.0.ground.oil == before.0.ground.oil && after.0.ground.portals
            == before.0.ground.portals,
        after.0.show.cookoffs@.len() >= before.0.show.cookoffs@.len(),
        blast.shape matches BlastShape::Shot { dir } ==> out.show.streak == Some(dir),
        !(blast.shape is Shot) ==> out.show.streak is None,
{
}

} // verus!
