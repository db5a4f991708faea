//! A frame of fire on the ground: the trail spreads, hulls over it burn,
//! tiles beside it catch, and what has burnt out leaves its mark.
//!
//! The host measures: when a fire spreads again, whether a hull overlaps a
//! cell, what a frame in the fire takes off, how long a fuse burns.

use vstd::prelude::*;

use crate::arms::is_walk;
use crate::field::{lists, thing, Kind};
use crate::frame::{Frame, Record, Rubble, Scene};
use crate::game::Game;
use crate::kinds::{Cell, Material, Owner, MAX_SEATS};
use crate::pieces::{took_blow, Fuse, Piece, Tank, Tile};
use crate::props::{
    a_cell_never_burns_twice, alight, all_lit, burn_down, burn_out, burning_cells, burnt, catch_fire, caught, fire_source,
    fires_inside, is_alight, light_cells, lit, oil_left, one_fire_per_cell, sifted, source_of, spread,
    still_burning, GroundFire, Spark,
};
use crate::scalar::{Point, Scalar};

verus! {

/// A trail cell can be lit wherever it lies; one on the field has a neighbour
/// on every side, and what spreads is never a pool.
pub open spec fn sparks_well<S: Fn(Cell) -> Spark>(spark: S) -> bool {
    &&& forall|c: Cell| call_requires(spark, (c,))
    &&& forall|c: Cell, s: Spark| #[trigger]
        call_ensures(spark, (c,), s) ==> s.cell == c && !s.pool && (s.on_field ==> c.interior())
}

/// Each of the cells has its spark.
pub open spec fn sparked<S: Fn(Cell) -> Spark>(
    spark: S,
    cells: Seq<Cell>,
    sparks: Seq<Spark>,
) -> bool {
    sparks.len() == cells.len() && forall|k: int|
        0 <= k < cells.len() ==> call_ensures(spark, (cells[k],), #[trigger] sparks[k])
}

/// Every fire, burnt down to the time it has left.
pub open spec fn burnt_down(
    fires: Seq<GroundFire>,
    lefts: Seq<Scalar>,
    now: Scalar,
) -> Seq<GroundFire> {
    Seq::new(fires.len(), |i: int| burnt(fires[i], lefts[i], now))
}

/// The fires burnt down and the cells they spread to were lit.
pub open spec fn fires_spread<S: Fn(Cell) -> Spark>(
    spark: S,
    fires: Seq<GroundFire>,
    oil: Seq<Cell>,
    lefts: Seq<Scalar>,
    now: Scalar,
    f: Record,
    after: (Seq<GroundFire>, Record),
) -> bool {
    exists|sparks: Seq<Spark>|
        {
            &&& #[trigger] sparked(spark, spread(fires, oil, now, fires.len() as int), sparks)
            &&& after == all_lit(
                burnt_down(fires, lefts, now),
                f,
                sparks,
                sparks.len() as int,
            )
        }
}

pub(crate) proof fn lemma_lighting_keeps(fires: Seq<GroundFire>, f: Record, sparks: Seq<Spark>, n: int)
    requires
        0 <= n <= sparks.len(),
        fires_inside(fires),
        forall|k: int|
            0 <= k < n ==> ((#[trigger] sparks[k]).on_field ==> sparks[k].cell.interior()),
    ensures
        fires_inside(all_lit(fires, f, sparks, n).0),
    decreases n,
{
    if n > 0 {
        lemma_lighting_keeps(fires, f, sparks, n - 1);
        let now = all_lit(fires, f, sparks, n - 1);
        let next = lit(now.0, now.1, sparks[n - 1]).0;
        assert forall|i: int| 0 <= i < next.len() implies (#[trigger] next[i]).cell.interior() by {
            if i < now.0.len() {
                assert(next[i] == now.0[i]);
            }
        }
    }
}

impl Game {
    /// Burn every fire down, find where the ones that are due spread to and
    /// light those cells: the spread comes first, so a trail lit this frame
    /// does not spread this frame too. Returns the cells now burning.
    pub fn spread_fires<S: Fn(Cell) -> Spark>(
        &mut self,
        f: &mut Frame,
        lefts: &Vec<Scalar>,
        now: Scalar,
        spark: &S,
    ) -> (burning: Vec<Cell>)
        requires
            old(self).wf(),
            lefts@.len() == old(self).ground.fires@.len(),
            fires_inside(old(self).ground.fires@),
            sparks_well(*spark),
        ensures
            final(self).wf(),
            fires_spread(
                *spark,
                old(self).ground.fires@,
                old(self).ground.oil@,
                lefts@,
                now,
                old(f)@,
                (final(self).ground.fires@, final(f)@),
            ),
            fires_inside(final(self).ground.fires@),
            burning@ == still_burning(
                final(self).ground.fires@,
                final(self).ground.fires@.len() as int,
            ),
            final(self).ground == (crate::game::Ground {
                fires: final(self).ground.fires,
                ..old(self).ground
            }),
            final(self).round == old(self).round,
            final(self).field == old(self).field,
            final(self).pack == old(self).pack,
            final(self).show == old(self).show,
            final(self).events == old(self).events,
            final(self).debug_kills == old(self).debug_kills,
    {
        let ghost fires = self.ground.fires@;
        let to: Vec<Cell> = burn_down(&mut self.ground.fires, &self.ground.oil, lefts, now);
        assert(self.ground.fires@ =~= burnt_down(fires, lefts@, now));
        let ghost down = self.ground.fires@;
        let mut sparks: Vec<Spark> = Vec::new();
        let mut n: usize = 0;
        while n < to.len()
            invariant
                n <= to@.len(),
                sparks@.len() == n,
                sparks_well(*spark),
                forall|k: int|
                    0 <= k < n ==> call_ensures(*spark, (to@[k],), #[trigger] sparks@[k]),
            decreases to@.len() - n,
        {
            sparks.push(spark(to[n]));
            n += 1;
        }
        light_cells(&mut self.ground.fires, f, &sparks);
        proof {
            assert(sparked(*spark, to@, sparks@));
            lemma_lighting_keeps(down, old(f)@, sparks@, sparks@.len() as int);
        }
        burning_cells(&self.ground.fires)
    }
}

/// The first `n` tanks of a walk burn where they stand in the fire: `outs` is
/// what the frame makes of each.
pub open spec fn seared(
    at: Scene,
    walk: Seq<u64>,
    hits: Seq<bool>,
    outs: Seq<Tank>,
    n: int,
) -> Scene
    decreases n,
{
    if n <= 0 {
        at
    } else {
        let now = seared(at, walk, hits, outs, n - 1);
        if hits[n - 1] {
            let after = outs[n - 1];
            Scene {
                pieces: now.pieces.insert(walk[n - 1], after.as_piece()),
                record: if after.wreck {
                    now.record.with_kill(after.position, after.owner)
                } else {
                    now.record
                },
            }
        } else {
            now
        }
    }
}

/// Whether a hull stands in the fire: over some burning cell, or over none.
pub open spec fn stands_in<O: Fn(Tank, Cell) -> bool>(
    over: O,
    t: Tank,
    burning: Seq<Cell>,
    hit: bool,
) -> bool {
    if hit {
        exists|k: int|
            0 <= k < burning.len() && call_ensures(over, (t, #[trigger] burning[k]), true)
    } else {
        forall|k: int|
            0 <= k < burning.len() ==> call_ensures(over, (t, #[trigger] burning[k]), false)
    }
}

/// A tank of the walk burns if it is live and stands in the fire, and what
/// becomes of it is what `strike` gives.
pub open spec fn sears_one<O: Fn(Tank, Cell) -> bool, F: Fn(Tank) -> Tank>(
    over: O,
    strike: F,
    burning: Seq<Cell>,
    t: Tank,
    hit: bool,
    out: Tank,
) -> bool {
    &&& t.wreck ==> !hit
    &&& !t.wreck ==> stands_in(over, t, burning, hit)
    &&& hit ==> call_ensures(strike, (t,), out)
}

/// What becomes of each of the first `n` tanks of a walk.
pub open spec fn sears_each<O: Fn(Tank, Cell) -> bool, F: Fn(Tank) -> Tank>(
    over: O,
    strike: F,
    burning: Seq<Cell>,
    pieces: Map<u64, Piece>,
    walk: Seq<u64>,
    hits: Seq<bool>,
    outs: Seq<Tank>,
    n: int,
) -> bool {
    hits.len() == n && outs.len() == n && forall|k: int|
        0 <= k < n ==> sears_one(
            over,
            strike,
            burning,
            thing::<Tank>(pieces, #[trigger] walk[k])->0,
            hits[k],
            outs[k],
        )
}

/// Every tank in the fight took its share of the fire, players in seat order
/// before the enemies.
pub open spec fn sears<O: Fn(Tank, Cell) -> bool, F: Fn(Tank) -> Tank>(
    over: O,
    strike: F,
    burning: Seq<Cell>,
    seats: Seq<Option<u64>>,
    at: Scene,
    after: Scene,
) -> bool {
    exists|walk: Seq<u64>, hits: Seq<bool>, outs: Seq<Tank>|
        {
            &&& is_walk(seats, at.pieces, walk)
            &&& #[trigger] sears_each(
                over,
                strike,
                burning,
                at.pieces,
                walk,
                hits,
                outs,
                walk.len() as int,
            )
            &&& after == seared(at, walk, hits, outs, walk.len() as int)
        }
}

/// A frame in the fire is a blow, and nothing else happens to the tank.
pub open spec fn keeps_name<F: Fn(Tank) -> Tank>(strike: F) -> bool {
    &&& forall|t: Tank| call_requires(strike, (t,))
    &&& forall|t: Tank, after: Tank| #[trigger]
        call_ensures(strike, (t,), after) ==> took_blow(t, after)
}

pub(crate) proof fn lemma_seared_same(
    at: Scene,
    walk: Seq<u64>,
    hits: Seq<bool>,
    more_hits: Seq<bool>,
    outs: Seq<Tank>,
    more_outs: Seq<Tank>,
    n: int,
)
    requires
        0 <= n <= hits.len(),
        n <= more_hits.len(),
        n <= outs.len(),
        n <= more_outs.len(),
        forall|i: int| 0 <= i < n ==> hits[i] == more_hits[i],
        forall|i: int| 0 <= i < n ==> outs[i] == more_outs[i],
    ensures
        seared(at, walk, hits, outs, n) == seared(at, walk, more_hits, more_outs, n),
    decreases n,
{
    if n > 0 {
        lemma_seared_same(at, walk, hits, more_hits, outs, more_outs, n - 1);
    }
}

fn hull_in_fire<O: Fn(Tank, Cell) -> bool>(over: &O, t: Tank, burning: &Vec<Cell>) -> (hit: bool)
    requires
        forall|c: Cell| call_requires(*over, (t, c)),
    ensures
        stands_in(*over, t, burning@, hit),
{
    let mut k: usize = 0;
    while k < burning.len()
        invariant
            k <= burning@.len(),
            forall|c: Cell| call_requires(*over, (t, c)),
            forall|j: int|
                0 <= j < k ==> call_ensures(*over, (t, #[trigger] burning@[j]), false),
        decreases burning@.len() - k,
    {
        if over(t, burning[k]) {
            assert(call_ensures(*over, (t, burning@[k as int]), true));
            return true;
        }
        k += 1;
    }
    false
}

impl Game {
    /// A hull over a burning cell burns: players first, in seat order, and
    /// the enemies after them, like every other blast. The kills are recorded
    /// in that order.
    pub fn sear_tanks<O: Fn(Tank, Cell) -> bool, F: Fn(Tank) -> Tank>(
        &mut self,
        f: &mut Frame,
        burning: &Vec<Cell>,
        over: &O,
        strike: &F,
    )
        requires
            old(self).wf(),
            forall|t: Tank, c: Cell| call_requires(*over, (t, c)),
            keeps_name(*strike),
        ensures
            final(self).wf(),
            sears(
                *over,
                *strike,
                burning@,
                old(self).round.seats@,
                (Scene { pieces: old(self).field@, record: old(f)@ }),
                (Scene { pieces: final(self).field@, record: final(f)@ }),
            ),
            final(self).round == old(self).round,
            final(self).keeps_surroundings(old(self)),
            final(self).events == old(self).events,
    {
        let ghost start = Scene { pieces: self.field@, record: f@ };
        let ghost mut hits: Seq<bool> = Seq::empty();
        let ghost mut outs: Seq<Tank> = Seq::empty();
        let walk: Vec<u64> = self.walk_order();
        proof {
            self.lemma_walk_there(walk@);
        }
        let mut n: usize = 0;
        while n < walk.len()
            invariant
                n <= walk@.len(),
                walk@.no_duplicates(),
                is_walk(old(self).round.seats@, start.pieces, walk@),
                start == (Scene { pieces: old(self).field@, record: old(f)@ }),
                forall|k: int|
                    0 <= k < walk@.len() ==> thing::<Tank>(
                        start.pieces,
                        #[trigger] walk@[k],
                    ) is Some,
                forall|t: Tank, c: Cell| call_requires(*over, (t, c)),
                keeps_name(*strike),
                self.wf(),
                self.round == old(self).round,
                self.keeps_surroundings(old(self)),
                self.events == old(self).events,
                forall|k: int|
                    n <= k < walk@.len() ==> thing::<Tank>(self.field@, #[trigger] walk@[k])
                        == thing::<Tank>(start.pieces, walk@[k]),
                sears_each(
                    *over,
                    *strike,
                    burning@,
                    start.pieces,
                    walk@,
                    hits,
                    outs,
                    n as int,
                ),
                (Scene { pieces: self.field@, record: f@ }) == seared(
                    start,
                    walk@,
                    hits,
                    outs,
                    n as int,
                ),
            decreases walk@.len() - n,
        {
            let entity: u64 = walk[n];
            let ghost before = self.field@;
            let ghost (were_hit, were) = (hits, outs);
            assert(thing::<Tank>(self.field@, walk@[n as int]) == thing::<Tank>(
                start.pieces,
                walk@[n as int],
            ));
            assert(thing::<Tank>(start.pieces, walk@[n as int]) is Some);
            let found: Option<Tank> = self.field.get(entity);
            if let Some(t) = found {
                let hit: bool = !t.wreck && hull_in_fire(over, t, burning);
                let mut after: Tank = t;
                if hit {
                    after = strike(t);
                    self.field.put(entity, after);
                    if after.wreck {
                        f.kill(after.position, after.owner);
                    }
                }
                proof {
                    hits = hits.push(hit);
                    outs = outs.push(after);
                    lemma_seared_same(start, walk@, were_hit, hits, were, outs, n as int);
                    assert(sears_one(*over, *strike, burning@, t, hit, after));
                    let seats = self.round.seats@;
                    assert forall|i: int| #![trigger seats[i]] 0 <= i < MAX_SEATS implies (
                    seats[i] matches Some(e) ==> i < self.round.players.seated() && (thing::<Tank>(
                        self.field@,
                        e,
                    ) matches Some(t) && t.owner == Owner::Player(i as u8) && t.mind is None)) by {
                        assert(seats[i] == old(self).round.seats@[i]);
                        if let Some(e) = seats[i] {
                            assert(thing::<Tank>(before, e) is Some);
                        }
                    }
                    assert forall|k: int| n + 1 <= k < walk@.len() implies thing::<Tank>(
                        self.field@,
                        #[trigger] walk@[k],
                    ) == thing::<Tank>(start.pieces, walk@[k]) by {
                        assert(walk@[k] != walk@[n as int]);
                    }
                }
            }
            n += 1;
        }
    }
}

/// What a fire makes of a tile: the first burning cell under or beside it
/// lights a drum's fuse or sets a flammable tile alight.
pub open spec fn tile_after<U: Fn(Tile, Cell) -> Fuse>(
    fuse: U,
    burning: Seq<Cell>,
    t: Tile,
    after: Tile,
) -> bool {
    match source_of(burning, t.cell) {
        Some(source) => if !t.spent() && t.material.is_explosive() {
            exists|z: Fuse| #[trigger]
                call_ensures(fuse, (t, source), z) && after == caught(t, true, z)
        } else {
            forall|z: Fuse| after == #[trigger] caught(t, true, z)
        },
        None => after == t,
    }
}

/// The fire has had its way with every tile, and with nothing else.
pub open spec fn tiles_caught<U: Fn(Tile, Cell) -> Fuse>(
    fuse: U,
    burning: Seq<Cell>,
    before: Map<u64, Piece>,
    after: Map<u64, Piece>,
) -> bool {
    &&& after.dom() == before.dom()
    &&& forall|id: u64| #[trigger]
        before.contains_key(id) ==> match thing::<Tile>(before, id) {
            Some(t) => thing::<Tile>(after, id) matches Some(a) && tile_after(fuse, burning, t, a),
            None => after[id] == before[id],
        }
}

/// The first `n` tiles of a list have been seen to.
spec fn tiles_so_far<U: Fn(Tile, Cell) -> Fuse>(
    fuse: U,
    burning: Seq<Cell>,
    before: Map<u64, Piece>,
    after: Map<u64, Piece>,
    all: Seq<(u64, Tile)>,
    n: int,
) -> bool {
    &&& after.dom() == before.dom()
    &&& forall|i: int|
        0 <= i < n ==> (thing::<Tile>(after, (#[trigger] all[i]).0) matches Some(a) && tile_after(
            fuse,
            burning,
            all[i].1,
            a,
        ))
    &&& forall|i: int| n <= i < all.len() ==> after[(#[trigger] all[i]).0] == before[all[i].0]
    &&& forall|id: u64| #[trigger]
        before.contains_key(id) && thing::<Tile>(before, id) is None ==> after[id] == before[id]
}

impl Game {
    /// Flammable tiles under or beside the fire catch; drums there are put on
    /// a fuse, silently. `fuse` is called for a drum and the cell that lights
    /// it.
    pub fn catch_tiles<U: Fn(Tile, Cell) -> Fuse>(&mut self, burning: &Vec<Cell>, fuse: &U)
        requires
            old(self).wf(),
            forall|t: Tile, c: Cell| call_requires(*fuse, (t, c)),
        ensures
            final(self).wf(),
            tiles_caught(*fuse, burning@, old(self).field@, final(self).field@),
            final(self).round == old(self).round,
            final(self).keeps_surroundings(old(self)),
            final(self).events == old(self).events,
    {
        let ghost start = self.field@;
        let all: Vec<(u64, Tile)> = self.field.all();
        let mut n: usize = 0;
        while n < all.len()
            invariant
                n <= all@.len(),
                start == old(self).field@,
                lists::<Tile>(start, all@),
                forall|t: Tile, c: Cell| call_requires(*fuse, (t, c)),
                self.field.wf(),
                self.round == old(self).round,
                self.keeps_surroundings(old(self)),
                self.events == old(self).events,
                tiles_so_far(*fuse, burning@, start, self.field@, all@, n as int),
            decreases all@.len() - n,
        {
            let id: u64 = all[n].0;
            let t: Tile = all[n].1;
            let ghost before = self.field@;
            assert(thing::<Tile>(start, all@[n as int].0) == Some(t));
            assert(start.contains_key(id));
            match fire_source(burning, t.cell) {
                Some(source) => {
                    let drum: bool = !t.destroyed && !t.burning && t.fuse.is_none()
                        && t.material.is_explosive();
                    let z: Fuse = if drum {
                        fuse(t, source)
                    } else {
                        Fuse { left: Scalar::zero(), total: Scalar::zero(), from: None }
                    };
                    let after: Tile = catch_fire(t, true, z);
                    self.field.put(id, after);
                    assert(tile_after(*fuse, burning@, t, after));
                },
                None => {
                    assert(before[all@[n as int].0] == start[all@[n as int].0]);
                    assert(tile_after(*fuse, burning@, t, t));
                },
            }
            proof {
                assert(self.field@.dom() =~= start.dom());
                assert forall|i: int| 0 <= i < n + 1 implies (thing::<Tile>(
                    self.field@,
                    (#[trigger] all@[i]).0,
                ) matches Some(a) && tile_after(*fuse, burning@, all@[i].1, a)) by {
                    if i < n {
                        assert(all@[i].0 != all@[n as int].0);
                    }
                }
                assert forall|i: int| n + 1 <= i < all@.len() implies self.field@[(
                #[trigger] all@[i]).0] == start[all@[i].0] by {
                    assert(all@[i].0 != all@[n as int].0);
                }
            }
            n += 1;
        }
        proof {
            assert forall|id: u64| #[trigger] start.contains_key(id) implies match thing::<Tile>(
                start,
                id,
            ) {
                Some(t) => thing::<Tile>(self.field@, id) matches Some(a) && tile_after(
                    *fuse,
                    burning@,
                    t,
                    a,
                ),
                None => self.field@[id] == start[id],
            } by {
                if thing::<Tile>(start, id) is Some {
                    let i = choose|i: int| 0 <= i < all@.len() && (#[trigger] all@[i]).0 == id;
                    assert(all@[i].0 == id);
                }
            }
            let seats = self.round.seats@;
            assert forall|i: int| #![trigger seats[i]] 0 <= i < MAX_SEATS implies (
            seats[i] matches Some(e) ==> i < self.round.players.seated() && (thing::<Tank>(
                self.field@,
                e,
            ) matches Some(t) && t.owner == Owner::Player(i as u8) && t.mind is None)) by {
                assert(seats[i] == old(self).round.seats@[i]);
                if let Some(e) = seats[i] {
                    assert(thing::<Tank>(start, e) is Some);
                    assert(start.contains_key(e));
                }
            }
        }
    }
}

/// Each of the fires has the place it burnt at.
pub open spec fn placed<P: Fn(Cell) -> Point>(
    place: P,
    fires: Seq<GroundFire>,
    ats: Seq<Point>,
) -> bool {
    ats.len() == fires.len() && forall|k: int|
        0 <= k < fires.len() ==> call_ensures(place, (fires[k].cell,), #[trigger] ats[k])
}

/// What a burnt-out cell leaves: a charred patch.
pub open spec fn patch(at: Point) -> Rubble {
    Rubble { material: Material::Wood, at, charred: true }
}

/// The record with a charred patch at each of the places.
pub open spec fn charred(f: Record, ats: Seq<Point>) -> Record {
    Record { rubble: f.rubble + Seq::new(ats.len(), |i: int| patch(ats[i])), ..f }
}

/// The fires whose time was up went out, used up the trail under them and
/// left their mark.
pub open spec fn fires_ended<P: Fn(Cell) -> Point>(
    place: P,
    fires: Seq<GroundFire>,
    oil: Seq<Cell>,
    f: Record,
    fires_after: Seq<GroundFire>,
    oil_after: Seq<Cell>,
    done: Seq<GroundFire>,
    f_after: Record,
) -> bool {
    &&& fires_after == sifted(fires, true, fires.len() as int)
    &&& done == sifted(fires, false, fires.len() as int)
    &&& oil_after == oil_left(oil, done, oil.len() as int)
    &&& exists|ats: Seq<Point>| #[trigger] placed(place, done, ats) && f_after == charred(f, ats)
}

proof fn lemma_sifted(fires: Seq<GroundFire>, left: bool, n: int)
    requires
        0 <= n <= fires.len(),
    ensures
        forall|i: int|
            0 <= i < sifted(fires, left, n).len() ==> exists|j: int|
                0 <= j < n && fires[j] == #[trigger] sifted(fires, left, n)[i],
        one_fire_per_cell(fires) ==> one_fire_per_cell(sifted(fires, left, n)),
    decreases n,
{
    if n > 0 {
        lemma_sifted(fires, left, n - 1);
        let before = sifted(fires, left, n - 1);
        let now = sifted(fires, left, n);
        assert forall|i: int| 0 <= i < now.len() implies exists|j: int|
            0 <= j < n && fires[j] == #[trigger] now[i] by {
            if i < before.len() {
                assert(now[i] == before[i]);
                let j = choose|j: int| 0 <= j < n - 1 && fires[j] == before[i];
                assert(fires[j] == now[i]);
            } else {
                assert(fires[n - 1] == now[i]);
            }
        }
        if one_fire_per_cell(fires) {
            assert forall|i: int, j: int| 0 <= i < j < now.len() implies (#[trigger] now[i]).cell
                != (#[trigger] now[j]).cell by {
                assert(now[i] == before[i]);
                if j < before.len() {
                    assert(now[j] == before[j]);
                } else {
                    let k = choose|k: int| 0 <= k < n - 1 && fires[k] == before[i];
                    assert(fires[k].cell != fires[n - 1].cell);
                }
            }
        }
    }
}

impl Game {
    /// Put out the fires whose time is up: the trail under them is used up
    /// and a charred patch stays. Returns the ones that went out.
    pub fn end_fires<P: Fn(Cell) -> Point>(&mut self, f: &mut Frame, place: &P) -> (done: Vec<
        GroundFire,
    >)
        requires
            old(self).wf(),
            fires_inside(old(self).ground.fires@),
            forall|c: Cell| call_requires(*place, (c,)),
        ensures
            final(self).wf(),
            fires_inside(final(self).ground.fires@),
            fires_ended(
                *place,
                old(self).ground.fires@,
                old(self).ground.oil@,
                old(f)@,
                final(self).ground.fires@,
                final(self).ground.oil@,
                done@,
                final(f)@,
            ),
            final(self).ground == (crate::game::Ground {
                fires: final(self).ground.fires,
                oil: final(self).ground.oil,
                ..old(self).ground
            }),
            final(self).round == old(self).round,
            final(self).field == old(self).field,
            final(self).pack == old(self).pack,
            final(self).show == old(self).show,
            final(self).events == old(self).events,
            final(self).debug_kills == old(self).debug_kills,
    {
        let ghost fires = self.ground.fires@;
        let done: Vec<GroundFire> = burn_out(&mut self.ground.fires, &mut self.ground.oil);
        let ghost mut ats: Seq<Point> = Seq::empty();
        assert(charred(f@, ats) =~= f@);
        let mut n: usize = 0;
        while n < done.len()
            invariant
                n <= done@.len(),
                ats.len() == n,
                forall|c: Cell| call_requires(*place, (c,)),
                forall|k: int|
                    0 <= k < n ==> call_ensures(*place, (done@[k].cell,), #[trigger] ats[k]),
                f@ == charred(old(f)@, ats),
            decreases done@.len() - n,
        {
            let ghost were = ats;
            let at: Point = place(done[n].cell);
            f.rubble.push(Rubble { material: Material::Wood, at, charred: true });
            proof {
                ats = ats.push(at);
                assert(f@ =~= charred(old(f)@, ats));
            }
            n += 1;
        }
        proof {
            assert(placed(*place, done@, ats));
            lemma_sifted(fires, true, fires.len() as int);
            let going = self.ground.fires@;
            assert forall|i: int| 0 <= i < going.len() implies (
            #[trigger] going[i]).cell.interior() by {
                let j = choose|j: int| 0 <= j < fires.len() && fires[j] == going[i];
                assert(fires[j].cell.interior());
            }
        }
        done
    }
}

/// A frame of fire on burning ground, by way of the fires and the record once
/// the trail had spread and the field and the record once the tanks had burnt.
pub open spec fn fire_frame<
    S: Fn(Cell) -> Spark,
    O: Fn(Tank, Cell) -> bool,
    F: Fn(Tank) -> Tank,
    U: Fn(Tile, Cell) -> Fuse,
    P: Fn(Cell) -> Point,
>(
    spark: S,
    over: O,
    strike: F,
    fuse: U,
    place: P,
    before: Game,
    f: Record,
    lefts: Seq<Scalar>,
    now: Scalar,
    live: bool,
    burns: bool,
    lit: (Seq<GroundFire>, Record),
    hot: Scene,
    after: Game,
    f_after: Record,
    done: Seq<GroundFire>,
) -> bool {
    let burning = still_burning(lit.0, lit.0.len() as int);
    let at = Scene { pieces: before.field@, record: lit.1 };
    &&& fires_spread(spark, before.ground.fires@, before.ground.oil@, lefts, now, f, lit)
    &&& if live && burns {
        sears(over, strike, burning, before.round.seats@, at, hot)
    } else {
        hot == at
    }
    &&& if live {
        tiles_caught(fuse, burning, hot.pieces, after.field@)
    } else {
        after.field@ == hot.pieces
    }
    &&& fires_ended(
        place,
        lit.0,
        before.ground.oil@,
        hot.record,
        after.ground.fires@,
        after.ground.oil@,
        done,
        f_after,
    )
}

/// The first `n` cells of grass that no fire stands in.
pub open spec fn unburnt(grass: Seq<Cell>, fires: Seq<GroundFire>, n: int) -> Seq<Cell>
    decreases n,
{
    if n <= 0 {
        Seq::empty()
    } else if alight(fires, grass[n - 1]) {
        unburnt(grass, fires, n - 1)
    } else {
        unburnt(grass, fires, n - 1).push(grass[n - 1])
    }
}

/// Grass that burns is gone, for good, and no other: what stands afterwards
/// stood before, in a cell that is not alight.
pub proof fn burning_grass_is_gone(grass: Seq<Cell>, fires: Seq<GroundFire>, n: int)
    requires
        0 <= n <= grass.len(),
    ensures
        forall|c: Cell| #[trigger]
            unburnt(grass, fires, n).contains(c) <==> grass.take(n).contains(c) && !alight(
                fires,
                c,
            ),
    decreases n,
{
    if n > 0 {
        burning_grass_is_gone(grass, fires, n - 1);
        let was = unburnt(grass, fires, n - 1);
        let now = unburnt(grass, fires, n);
        let last = grass[n - 1];
        assert(grass.take(n) =~= grass.take(n - 1).push(last));
        assert forall|c: Cell| #[trigger] now.contains(c) <==> grass.take(n).contains(c) && !alight(
            fires,
            c,
        ) by {
            if now.contains(c) {
                let i = choose|i: int| 0 <= i < now.len() && now[i] == c;
                if i < was.len() {
                    assert(was[i] == c);
                    assert(was.contains(c));
                    let before = grass.take(n - 1);
                    let j = choose|j: int| 0 <= j < before.len() && before[j] == c;
                    assert(grass.take(n)[j] == c);
                } else {
                    assert(grass.take(n)[n - 1] == c);
                }
            }
            if grass.take(n).contains(c) && !alight(fires, c) {
                let upto = grass.take(n);
                let j = choose|j: int| 0 <= j < upto.len() && upto[j] == c;
                if j < n - 1 {
                    assert(grass.take(n - 1)[j] == c);
                    assert(was.contains(c));
                    let i = choose|i: int| 0 <= i < was.len() && was[i] == c;
                    assert(now[i] == c);
                } else {
                    assert(now[was.len() as int] == c);
                }
            }
        }
    }
}

impl Game {
    /// The grass in the fire burns away and hides nobody any more.
    fn char_grass(&mut self)
        ensures
            final(self).ground.grass@ == unburnt(
                old(self).ground.grass@,
                old(self).ground.fires@,
                old(self).ground.grass@.len() as int,
            ),
            *final(self) == (Game {
                ground: crate::game::Ground {
                    grass: final(self).ground.grass,
                    ..old(self).ground
                },
                ..*old(self)
            }),
    {
        let mut left: Vec<Cell> = Vec::new();
        let mut n: usize = 0;
        while n < self.ground.grass.len()
            invariant
                n <= self.ground.grass@.len(),
                *self == *old(self),
                left@ == unburnt(self.ground.grass@, self.ground.fires@, n as int),
            decreases self.ground.grass@.len() - n,
        {
            let c: Cell = self.ground.grass[n];
            if !is_alight(&self.ground.fires, c) {
                left.push(c);
            }
            n += 1;
        }
        self.ground.grass = left;
    }

    /// Whether tall grass stands in a cell.
    pub fn conceals(&self, cell: Cell) -> (r: bool)
        ensures
            r == self.ground.grass@.contains(cell),
    {
        let mut n: usize = 0;
        while n < self.ground.grass.len()
            invariant
                n <= self.ground.grass@.len(),
                forall|i: int| 0 <= i < n ==> self.ground.grass@[i] != cell,
            decreases self.ground.grass@.len() - n,
        {
            if self.ground.grass[n] == cell {
                assert(self.ground.grass@[n as int] == cell);
                return true;
            }
            n += 1;
        }
        false
    }

    /// A frame of fire. Nothing happens on ground that is not burning. The
    /// grass in the fire burns away. Only a
    /// live frame hurts anyone: tanks burn if the fire `burns` at all, and
    /// tiles catch. Returns the fires that went out, for the ground's colour.
    pub fn tick_fires<
        S: Fn(Cell) -> Spark,
        O: Fn(Tank, Cell) -> bool,
        F: Fn(Tank) -> Tank,
        U: Fn(Tile, Cell) -> Fuse,
        P: Fn(Cell) -> Point,
    >(
        &mut self,
        f: &mut Frame,
        lefts: &Vec<Scalar>,
        now: Scalar,
        live: bool,
        burns: bool,
        spark: &S,
        over: &O,
        strike: &F,
        fuse: &U,
        place: &P,
    ) -> (done: Vec<GroundFire>)
        requires
            old(self).wf(),
            lefts@.len() == old(self).ground.fires@.len(),
            fires_inside(old(self).ground.fires@),
            sparks_well(*spark),
            forall|t: Tank, c: Cell| call_requires(*over, (t, c)),
            keeps_name(*strike),
            forall|t: Tile, c: Cell| call_requires(*fuse, (t, c)),
            forall|c: Cell| call_requires(*place, (c,)),
        ensures
            final(self).wf(),
            fires_inside(final(self).ground.fires@),
            old(self).ground.fires@.len() == 0 ==> done@.len() == 0 && *final(self) == *old(self)
                && final(f)@ == old(f)@,
            old(self).ground.fires@.len() > 0 ==> exists|
                lit: (Seq<GroundFire>, Record),
                hot: Scene,
            | #[trigger]
                fire_frame(
                    *spark,
                    *over,
                    *strike,
                    *fuse,
                    *place,
                    *old(self),
                    old(f)@,
                    lefts@,
                    now,
                    live,
                    burns,
                    lit,
                    hot,
                    *final(self),
                    final(f)@,
                    done@,
                ),
            old(self).ground.fires@.len() > 0 ==> final(self).ground.grass@ == unburnt(
                old(self).ground.grass@,
                old(self).ground.fires@,
                old(self).ground.grass@.len() as int,
            ),
            final(self).ground == (crate::game::Ground {
                fires: final(self).ground.fires,
                oil: final(self).ground.oil,
                grass: final(self).ground.grass,
                ..old(self).ground
            }),
            final(self).round == old(self).round,
            final(self).pack == old(self).pack,
            final(self).show == old(self).show,
            final(self).events == old(self).events,
            final(self).debug_kills == old(self).debug_kills,
    {
        if self.ground.fires.len() == 0 {
            return Vec::new();
        }
        self.char_grass();
        let burning: Vec<Cell> = self.spread_fires(f, lefts, now, spark);
        let ghost lit = (self.ground.fires@, f@);
        if live && burns {
            self.sear_tanks(f, &burning, over, strike);
        }
        let ghost hot = Scene { pieces: self.field@, record: f@ };
        if live {
            self.catch_tiles(&burning, fuse);
        }
        let done: Vec<GroundFire> = self.end_fires(f, place);
        assert(fire_frame(
            *spark,
            *over,
            *strike,
            *fuse,
            *place,
            *old(self),
            old(f)@,
            lefts@,
            now,
            live,
            burns,
            lit,
            hot,
            *self,
            f@,
            done@,
        ));
        done
    }
}

/// However the fire spreads, no cell burns twice at once: neither the sparks
/// nor the burning out of the old fires can bring that about.
pub proof fn the_ground_never_burns_twice<S: Fn(Cell) -> Spark, P: Fn(Cell) -> Point>(
    spark: S,
    place: P,
    fires: Seq<GroundFire>,
    oil: Seq<Cell>,
    lefts: Seq<Scalar>,
    now: Scalar,
    f: Record,
    lit: (Seq<GroundFire>, Record),
    hot: Record,
    fires_after: Seq<GroundFire>,
    oil_after: Seq<Cell>,
    done: Seq<GroundFire>,
    f_after: Record,
)
    requires
        one_fire_per_cell(fires),
        fires_spread(spark, fires, oil, lefts, now, f, lit),
        fires_ended(place, lit.0, oil, hot, fires_after, oil_after, done, f_after),
    ensures
        one_fire_per_cell(fires_after),
{
    let sparks = choose|sparks: Seq<Spark>|
        {
            &&& #[trigger] sparked(spark, spread(fires, oil, now, fires.len() as int), sparks)
            &&& lit == all_lit(burnt_down(fires, lefts, now), f, sparks, sparks.len() as int)
        };
    let down = burnt_down(fires, lefts, now);
    assert forall|i: int, j: int| 0 <= i < j < down.len() implies (#[trigger] down[i]).cell != (
    #[trigger] down[j]).cell by {
        assert(fires[i].cell != fires[j].cell);
    }
    lemma_lit_once(down, f, sparks, sparks.len() as int);
    lemma_sifted(lit.0, true, lit.0.len() as int);
}

proof fn lemma_lit_once(fires: Seq<GroundFire>, f: Record, sparks: Seq<Spark>, n: int)
    requires
        one_fire_per_cell(fires),
    ensures
        one_fire_per_cell(all_lit(fires, f, sparks, n).0),
    decreases n,
{
    if n > 0 {
        lemma_lit_once(fires, f, sparks, n - 1);
        let now = all_lit(fires, f, sparks, n - 1);
        a_cell_never_burns_twice(now.0, now.1, sparks[n - 1]);
    }
}

proof fn lemma_stays_alight(fires: Seq<GroundFire>, f: Record, sparks: Seq<Spark>, n: int, c: Cell)
    requires
        0 <= n <= sparks.len(),
        alight(fires, c),
    ensures
        alight(all_lit(fires, f, sparks, n).0, c),
    decreases n,
{
    if n > 0 {
        lemma_stays_alight(fires, f, sparks, n - 1, c);
        let before = all_lit(fires, f, sparks, n - 1).0;
        let after = all_lit(fires, f, sparks, n).0;
        let i = choose|i: int| 0 <= i < before.len() && (#[trigger] before[i]).cell == c;
        assert(after[i] == before[i]);
    }
}

proof fn lemma_spark_lights(fires: Seq<GroundFire>, f: Record, sparks: Seq<Spark>, n: int, k: int)
    requires
        0 <= k < n <= sparks.len(),
        sparks[k].on_field,
        !sparks[k].wet,
    ensures
        alight(all_lit(fires, f, sparks, n).0, sparks[k].cell),
    decreases n,
{
    let before = all_lit(fires, f, sparks, n - 1).0;
    let after = all_lit(fires, f, sparks, n).0;
    let c = sparks[k].cell;
    if k < n - 1 {
        lemma_spark_lights(fires, f, sparks, n - 1, k);
    }
    if alight(before, c) {
        let i = choose|i: int| 0 <= i < before.len() && (#[trigger] before[i]).cell == c;
        assert(after[i] == before[i]);
    } else {
        assert(after.last().cell == c);
    }
}

/// A fire that is due sets the oil beside it alight, in every one of the four
/// directions, wherever the ground takes fire; and what burns goes on burning.
pub proof fn a_trail_burns_on<S: Fn(Cell) -> Spark>(
    spark: S,
    fires: Seq<GroundFire>,
    oil: Seq<Cell>,
    lefts: Seq<Scalar>,
    now: Scalar,
    f: Record,
    after: (Seq<GroundFire>, Record),
    i: int,
    c: Cell,
)
    requires
        sparks_well(spark),
        fires_inside(fires),
        lefts.len() == fires.len(),
        fires_spread(spark, fires, oil, lefts, now, f, after),
        0 <= i < fires.len(),
        fires[i].spread_at matches Some(at) && at.at_most(now),
        oil.contains(c),
        (c.row == fires[i].cell.row && (c.col - fires[i].cell.col == 1 || fires[i].cell.col - c.col
            == 1)) || (c.col == fires[i].cell.col && (c.row - fires[i].cell.row == 1
            || fires[i].cell.row - c.row == 1)),
        forall|s: Spark| #[trigger] call_ensures(spark, (c,), s) ==> s.on_field && !s.wet,
    ensures
        exists|k: int| 0 <= k < after.0.len() && (#[trigger] after.0[k]).cell == c,
        exists|k: int| 0 <= k < after.0.len() && (#[trigger] after.0[k]).cell == fires[i].cell,
{
    let to = spread(fires, oil, now, fires.len() as int);
    let sparks = choose|sparks: Seq<Spark>|
        {
            &&& #[trigger] sparked(spark, to, sparks)
            &&& after == all_lit(burnt_down(fires, lefts, now), f, sparks, sparks.len() as int)
        };
    crate::props::a_due_fire_spreads_along_its_trail(fires, oil, now, c);
    assert(crate::props::spreads_to(fires[i], oil, now, c));
    assert(to.contains(c));
    let k = choose|k: int| 0 <= k < to.len() && to[k] == c;
    assert(call_ensures(spark, (to[k],), sparks[k]));
    let down = burnt_down(fires, lefts, now);
    lemma_spark_lights(down, f, sparks, sparks.len() as int, k);
    assert(alight(after.0, c));
    assert(down[i].cell == fires[i].cell);
    lemma_stays_alight(down, f, sparks, sparks.len() as int, fires[i].cell);
    assert(alight(after.0, fires[i].cell));
}

pub(crate) proof fn lemma_seared(
    at: Scene,
    walk: Seq<u64>,
    hits: Seq<bool>,
    outs: Seq<Tank>,
    n: int,
    id: u64,
)
    requires
        0 <= n <= walk.len(),
        walk.no_duplicates(),
    ensures
        (forall|k: int| 0 <= k < n && hits[k] ==> #[trigger] walk[k] != id) ==> {
            &&& seared(at, walk, hits, outs, n).pieces.contains_key(id)
                == at.pieces.contains_key(id)
            &&& seared(at, walk, hits, outs, n).pieces[id] == at.pieces[id]
        },
        forall|k: int|
            0 <= k < n && hits[k] && #[trigger] walk[k] == id ==> {
                &&& seared(at, walk, hits, outs, n).pieces.contains_key(id)
                &&& seared(at, walk, hits, outs, n).pieces[id] == Piece::Tank(outs[k])
                &&& outs[k].wreck ==> exists|j: int|
                    0 <= j < seared(at, walk, hits, outs, n).record.kills.len() && (
                    #[trigger] seared(at, walk, hits, outs, n).record.kills[j]).victim
                        == outs[k].owner
            },
    decreases n,
{
    if n > 0 {
        lemma_seared(at, walk, hits, outs, n - 1, id);
        let before = seared(at, walk, hits, outs, n - 1);
        let now = seared(at, walk, hits, outs, n);
        assert forall|k: int| 0 <= k < n && hits[k] && #[trigger] walk[k] == id implies {
            &&& now.pieces.contains_key(id)
            &&& now.pieces[id] == Piece::Tank(outs[k])
            &&& outs[k].wreck ==> exists|j: int|
                0 <= j < now.record.kills.len() && (#[trigger] now.record.kills[j]).victim
                    == outs[k].owner
        } by {
            if k == n - 1 {
                if outs[k].wreck {
                    assert(now.record.kills.last().victim == outs[k].owner);
                }
            } else {
                assert(walk[k] != walk[n - 1]);
                if outs[k].wreck {
                    let j = choose|j: int|
                        0 <= j < before.record.kills.len() && (
                        #[trigger] before.record.kills[j]).victim == outs[k].owner;
                    assert(now.record.kills[j] == before.record.kills[j]);
                }
            }
        }
    }
}

/// A live tank over a burning cell burns: it is what the fire makes of it, and
/// its death is recorded. A wreck, and a tank clear of the fire, is left alone.
pub proof fn a_hull_over_the_fire_burns<O: Fn(Tank, Cell) -> bool, F: Fn(Tank) -> Tank>(
    over: O,
    strike: F,
    burning: Seq<Cell>,
    seats: Seq<Option<u64>>,
    at: Scene,
    after: Scene,
    id: u64,
)
    requires
        sears(over, strike, burning, seats, at, after),
        at.pieces.contains_key(id),
        at.pieces[id] is Tank,
        at.pieces[id]->Tank_0.mind is Some || (exists|s: int|
            0 <= s < 8 && #[trigger] seats[s] == Some(id)),
        seats.len() == 8,
    ensures
        ({
            let t = at.pieces[id]->Tank_0;
            &&& t.wreck ==> after.pieces.contains_key(id) && after.pieces[id] == at.pieces[id]
            &&& !t.wreck && (forall|k: int|
                0 <= k < burning.len() ==> !call_ensures(over, (t, #[trigger] burning[k]), true))
                ==> after.pieces.contains_key(id) && after.pieces[id] == at.pieces[id]
            &&& !t.wreck && (exists|k: int|
                0 <= k < burning.len() && !call_ensures(over, (t, #[trigger] burning[k]), false))
                ==> {
                &&& after.pieces.contains_key(id)
                &&& after.pieces[id] is Tank
                &&& call_ensures(strike, (t,), after.pieces[id]->Tank_0)
                &&& after.pieces[id]->Tank_0.wreck ==> exists|j: int|
                    0 <= j < after.record.kills.len() && (#[trigger] after.record.kills[j]).victim
                        == after.pieces[id]->Tank_0.owner
            }
        }),
{
    let t = at.pieces[id]->Tank_0;
    let (walk, hits, outs) = choose|walk: Seq<u64>, hits: Seq<bool>, outs: Seq<Tank>|
        {
            &&& is_walk(seats, at.pieces, walk)
            &&& #[trigger] sears_each(
                over,
                strike,
                burning,
                at.pieces,
                walk,
                hits,
                outs,
                walk.len() as int,
            )
            &&& after == seared(at, walk, hits, outs, walk.len() as int)
        };
    assert(thing::<Tank>(at.pieces, id) == Some(t));
    if t.mind is None {
        let s = choose|s: int| 0 <= s < 8 && #[trigger] seats[s] == Some(id);
        crate::flame::a_seated_tank_is_listed(seats, 8, s);
        let players = crate::flame::seated(seats, 8);
        let p = choose|p: int| 0 <= p < players.len() && players[p] == id;
        assert(walk.take(players.len() as int)[p] == id);
        assert(walk[p] == id);
    }
    assert(walk.contains(id));
    let k = choose|k: int| 0 <= k < walk.len() && walk[k] == id;
    lemma_seared(at, walk, hits, outs, walk.len() as int, id);
    assert(sears_one(over, strike, burning, thing::<Tank>(at.pieces, walk[k])->0, hits[k], outs[k]));
    if !hits[k] {
        assert forall|m: int| 0 <= m < walk.len() && hits[m] implies #[trigger] walk[m] != id by {
        }
    }
}

/// A tile within one step of a burning cell catches if it can burn, and a barrel
/// there goes on a fuse; a tile the fire does not reach stays as it was.
pub proof fn a_tile_beside_the_fire_catches<U: Fn(Tile, Cell) -> Fuse>(
    fuse: U,
    burning: Seq<Cell>,
    before: Map<u64, Piece>,
    after: Map<u64, Piece>,
    id: u64,
)
    requires
        tiles_caught(fuse, burning, before, after),
        before.contains_key(id),
        before[id] is Tile,
    ensures
        ({
            let t = before[id]->Tile_0;
            let a = after[id]->Tile_0;
            let reached = exists|k: int|
                0 <= k < burning.len() && ({
                    let b = #[trigger] burning[k];
                    ||| b == t.cell
                    ||| b.row == t.cell.row && (b.col - t.cell.col == 1 || t.cell.col - b.col == 1)
                    ||| b.col == t.cell.col && (b.row - t.cell.row == 1 || t.cell.row - b.row == 1)
                });
            let stands = !t.destroyed && !t.burning && t.fuse is None;
            &&& after.contains_key(id) && after[id] is Tile
            &&& reached && stands && t.material != Material::Barrel && t.flammable ==> a == (Tile {
                health: Scalar { bits: 0 },
                burning: true,
                ..t
            })
            &&& reached && stands && t.material == Material::Barrel ==> a.fuse is Some && a
                == (Tile { health: Scalar { bits: 0 }, fuse: a.fuse, ..t })
            &&& !reached || !stands || (t.material != Material::Barrel && !t.flammable) ==> a == t
        }),
{
    let t = before[id]->Tile_0;
    assert(thing::<Tile>(before, id) == Some(t));
    let a = thing::<Tile>(after, id)->0;
    assert(tile_after(fuse, burning, t, a));
    crate::props::a_fire_beside_a_tile_is_found(burning, t.cell);
    match source_of(burning, t.cell) {
        Some(source) => {
            let k = choose|k: int| 0 <= k < burning.len() && burning[k] == source;
            assert(burning[k] == source);
            if t.spent() || !t.material.is_explosive() {
                let z = crate::pieces::Fuse {
                    left: Scalar::zero(),
                    total: Scalar::zero(),
                    from: None,
                };
                assert(a == caught(t, true, z));
            }
        },
        None => {
            assert forall|k: int| 0 <= k < burning.len() implies !crate::props::touches(
                #[trigger] burning[k],
                t.cell,
            ) by {
            }
        },
    }
}

/// A frame that is not live hurts nobody: what stands on the field stays as it
/// was, though the fires burn on.
pub proof fn a_frame_that_is_not_live_hurts_nobody<
    S: Fn(Cell) -> Spark,
    O: Fn(Tank, Cell) -> bool,
    F: Fn(Tank) -> Tank,
    U: Fn(Tile, Cell) -> Fuse,
    P: Fn(Cell) -> Point,
>(
    spark: S,
    over: O,
    strike: F,
    fuse: U,
    place: P,
    before: Game,
    f: Record,
    lefts: Seq<Scalar>,
    now: Scalar,
    live: bool,
    burns: bool,
    lit: (Seq<GroundFire>, Record),
    hot: Scene,
    after: Game,
    f_after: Record,
    done: Seq<GroundFire>,
)
    requires
        fire_frame(
            spark,
            over,
            strike,
            fuse,
            place,
            before,
            f,
            lefts,
            now,
            live,
            burns,
            lit,
            hot,
            after,
            f_after,
            done,
        ),
    ensures
        !live ==> after.field@ == before.field@,
        live ==> tiles_caught(
            fuse,
            still_burning(lit.0, lit.0.len() as int),
            hot.pieces,
            after.field@,
        ),
        live && burns ==> sears(
            over,
            strike,
            still_burning(lit.0, lit.0.len() as int),
            before.round.seats@,
            Scene { pieces: before.field@, record: lit.1 },
            hot,
        ),
        live && !burns ==> hot.pieces == before.field@,
        fires_spread(spark, before.ground.fires@, before.ground.oil@, lefts, now, f, lit),
        after.ground.fires@ == sifted(lit.0, true, lit.0.len() as int),
        done == sifted(lit.0, false, lit.0.len() as int),
{
}

/// What has burnt out leaves a charred patch each.
pub proof fn each_burnt_out_cell_leaves_a_patch(f: Record, ats: Seq<Point>)
    ensures
        charred(f, ats).rubble.len() == f.rubble.len() + ats.len(),
        charred(f, ats).events == f.events,
        forall|i: int|
            0 <= i < ats.len() ==> {
                let left = #[trigger] charred(f, ats).rubble[f.rubble.len() + i];
                left.at == ats[i] && left.charred
            },
        forall|i: int|
            0 <= i < f.rubble.len() ==> #[trigger] charred(f, ats).rubble[i] == f.rubble[i],
{
}

} // verus!
