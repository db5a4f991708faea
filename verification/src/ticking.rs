//! What a frame's passing does to everything on the field: timers run down,
//! fuses and fires burn, spent shots go.
//!
//! The host ages things; what follows from it is decided here.

use rand::rngs::SmallRng;
use vstd::prelude::*;

use crate::chassis::roll_wreck_col;
use crate::event::Event;
use crate::field::{lists, selects, thing, Kind};
use crate::frame::{BlastShape, Frame, Record, Scene};
use crate::game::{keeps_identities, lemma_identities, Game};
use crate::kinds::Cell;
use crate::pieces::{Frog, Fuse, Piece, Shot, ShotState, Tank, Tile};
use crate::portals::cooldown_runs;
use crate::dice::Odds;
use crate::props::{
    fuse_burnt, fuse_spent, landing, may_launch, mourned, obstacle_died, pop_fuse, pops, DeadTile, FlyingDrum,
    Landing,
};
use crate::scalar::{Point, Scalar};
use crate::streams::covers;

verus! {

/// Finished.
pub open spec fn shot_done() -> spec_fn(Shot) -> bool {
    |s: Shot| s.state == ShotState::Done
}

/// The field without the shots that are finished.
pub open spec fn without_done(pieces: Map<u64, Piece>) -> Map<u64, Piece> {
    pieces.restrict(
        Set::new(
            |id: u64|
                pieces.contains_key(id) && !(pieces[id] matches Piece::Shot(s) && s.state
                    == ShotState::Done),
        ),
    )
}

impl Game {
    /// Take every finished shot off the field.
    pub fn despawn_done(&mut self)
        requires
            old(self).wf(),
        ensures
            final(self).wf(),
            final(self).field@ == without_done(old(self).field@),
            final(self).round == old(self).round,
            final(self).keeps_surroundings(old(self)),
            final(self).events == old(self).events,
    {
        let test = |s: Shot| -> (b: bool)
            ensures
                b == (s.state == ShotState::Done),
        { s.state == ShotState::Done };
        let done = self.field.select(Ghost(shot_done()), test);
        let ghost before = self.field@;
        let mut n: usize = 0;
        while n < done.len()
            invariant
                n <= done@.len(),
                selects::<Shot>(before, shot_done(), done@),
                before == old(self).field@,
                self.field.wf(),
                self.round == old(self).round,
                self.keeps_surroundings(old(self)),
                self.events == old(self).events,
                forall|id: u64| #[trigger]
                    self.field@.contains_key(id) <==> before.contains_key(id) && !(exists|k: int|
                        0 <= k < n && (#[trigger] done@[k]).0 == id),
                forall|id: u64| #[trigger]
                    self.field@.contains_key(id) ==> self.field@[id] == before[id],
            decreases done@.len() - n,
        {
            let entity: u64 = done[n].0;
            let ghost mid = self.field@;
            self.field.despawn(entity);
            proof {
                assert forall|id: u64| #[trigger] self.field@.contains_key(id) <==> (
                before.contains_key(id) && !(exists|k: int|
                    0 <= k < n + 1 && (#[trigger] done@[k]).0 == id)) by {
                    if id == entity {
                        assert(done@[n as int].0 == id);
                    } else {
                        assert(self.field@.contains_key(id) == mid.contains_key(id));
                        if exists|k: int| 0 <= k < n && (#[trigger] done@[k]).0 == id {
                            let k = choose|k: int| 0 <= k < n && (#[trigger] done@[k]).0 == id;
                            assert(done@[k].0 == id);
                        }
                        if exists|k: int| 0 <= k < n + 1 && (#[trigger] done@[k]).0 == id {
                            let k = choose|k: int| 0 <= k < n + 1 && (#[trigger] done@[k]).0 == id;
                            assert(k < n);
                        }
                    }
                }
            }
            n += 1;
        }
        proof {
            assert forall|id: u64| self.field@.contains_key(id) == without_done(
                before,
            ).contains_key(id) by {
                if before.contains_key(id) {
                    if let Piece::Shot(s) = before[id] {
                        assert(thing::<Shot>(before, id) == Some(s));
                        if s.state == ShotState::Done {
                            assert(shot_done()(s));
                            let k = choose|k: int|
                                0 <= k < done@.len() && (#[trigger] done@[k]).0 == id;
                            assert(done@[k].0 == id);
                        }
                    }
                    if exists|k: int| 0 <= k < n && (#[trigger] done@[k]).0 == id {
                        let k = choose|k: int| 0 <= k < n && (#[trigger] done@[k]).0 == id;
                        assert(thing::<Shot>(before, done@[k].0) == Some(done@[k].1));
                        assert(shot_done()(done@[k].1));
                    }
                }
            }
            assert(self.field@ =~= without_done(before));
            lemma_identities(self.round, before, self.field@);
        }
    }
}

/// The distances from a tank to every portal.
pub open spec fn portal_distances<D: Fn(Point, Point) -> Scalar>(
    dist: D,
    portals: Seq<Point>,
    at: Point,
    distances: Seq<Scalar>,
) -> bool {
    distances.len() == portals.len() && forall|i: int|
        0 <= i < portals.len() ==> call_ensures(dist, (portals[i], at), #[trigger] distances[i])
}

/// The portal cooldown runs: only while the tank is off every portal.
pub open spec fn runs(cooldown: Scalar, distances: Seq<Scalar>, radius: Scalar) -> bool {
    Scalar::zero().below(cooldown) && !(distances.len() >= 2 && exists|i: int|
        0 <= i < distances.len() && (#[trigger] distances[i]).at_most(radius))
}

/// A tank a frame older. A hull that has just become a wreck is given its
/// sprite column, one of those there are.
pub open spec fn aged<D: Fn(Point, Point) -> Scalar, A: Fn(Tank, bool) -> Tank>(
    dist: D,
    age: A,
    portals: Seq<Point>,
    radius: Scalar,
    cols: Seq<i32>,
    t: Tank,
    fresh: bool,
    out: Tank,
) -> bool {
    exists|distances: Seq<Scalar>, older: Tank|
        {
            &&& #[trigger] portal_distances(dist, portals, t.position, distances)
            &&& #[trigger] call_ensures(
                age,
                (t, runs(t.portal_cooldown, distances, radius)),
                older,
            )
            &&& fresh == (older.wreck && older.wreck_col is None)
            &&& if fresh {
                (out.wreck_col matches Some(col) && cols.contains(col)) && out == (Tank {
                    wreck_col: out.wreck_col,
                    ..older
                })
            } else {
                out == older
            }
        }
}

/// What becomes of each of the first `n` tanks of a list.
pub open spec fn ages<D: Fn(Point, Point) -> Scalar, A: Fn(Tank, bool) -> Tank>(
    dist: D,
    age: A,
    portals: Seq<Point>,
    radius: Scalar,
    cols: Seq<i32>,
    all: Seq<(u64, Tank)>,
    fresh: Seq<bool>,
    outs: Seq<Tank>,
    n: int,
) -> bool {
    fresh.len() == n && outs.len() == n && forall|k: int|
        0 <= k < n ==> aged(
            dist,
            age,
            portals,
            radius,
            cols,
            (#[trigger] all[k]).1,
            fresh[k],
            outs[k],
        )
}

/// The field with the first `n` tanks replaced.
pub open spec fn replaced(
    pieces: Map<u64, Piece>,
    all: Seq<(u64, Tank)>,
    outs: Seq<Tank>,
    n: int,
) -> Map<u64, Piece>
    decreases n,
{
    if n <= 0 {
        pieces
    } else {
        replaced(pieces, all, outs, n - 1).insert(all[n - 1].0, outs[n - 1].as_piece())
    }
}

/// Those of the first `n` tanks that have just become wrecks.
pub open spec fn wrecked(all: Seq<(u64, Tank)>, fresh: Seq<bool>, n: int) -> Seq<u64>
    decreases n,
{
    if n <= 0 {
        Seq::empty()
    } else if fresh[n - 1] {
        wrecked(all, fresh, n - 1).push(all[n - 1].0)
    } else {
        wrecked(all, fresh, n - 1)
    }
}

/// A frame's ageing leaves a tank whose it was, and its portal cooldown alone
/// where that is told not to run.
pub open spec fn ages_well<A: Fn(Tank, bool) -> Tank>(age: A) -> bool {
    &&& forall|t: Tank, r: bool| call_requires(age, (t, r))
    &&& forall|t: Tank, r: bool, out: Tank| #[trigger]
        call_ensures(age, (t, r), out) ==> out.owner == t.owner && out.mind == t.mind && (!r
            ==> out.portal_cooldown == t.portal_cooldown)
}

proof fn lemma_replaced_same(
    pieces: Map<u64, Piece>,
    all: Seq<(u64, Tank)>,
    a: Seq<Tank>,
    b: Seq<Tank>,
    n: int,
)
    requires
        0 <= n <= a.len(),
        n <= b.len(),
        forall|i: int| 0 <= i < n ==> a[i] == b[i],
    ensures
        replaced(pieces, all, a, n) == replaced(pieces, all, b, n),
    decreases n,
{
    if n > 0 {
        lemma_replaced_same(pieces, all, a, b, n - 1);
    }
}

proof fn lemma_wrecked_same(all: Seq<(u64, Tank)>, a: Seq<bool>, b: Seq<bool>, n: int)
    requires
        0 <= n <= a.len(),
        n <= b.len(),
        forall|i: int| 0 <= i < n ==> a[i] == b[i],
    ensures
        wrecked(all, a, n) == wrecked(all, b, n),
    decreases n,
{
    if n > 0 {
        lemma_wrecked_same(all, a, b, n - 1);
    }
}

fn to_portals<D: Fn(Point, Point) -> Scalar>(dist: &D, portals: &Vec<Point>, at: Point) -> (
    distances: Vec<Scalar>)
    requires
        forall|a: Point, b: Point| call_requires(*dist, (a, b)),
    ensures
        portal_distances(*dist, portals@, at, distances@),
{
    let mut distances: Vec<Scalar> = Vec::new();
    let mut n: usize = 0;
    while n < portals.len()
        invariant
            n <= portals@.len(),
            distances@.len() == n,
            forall|a: Point, b: Point| call_requires(*dist, (a, b)),
            forall|i: int|
                0 <= i < n ==> call_ensures(
                    *dist,
                    (portals@[i], at),
                    #[trigger] distances@[i],
                ),
        decreases portals@.len() - n,
    {
        distances.push(dist(portals[n], at));
        n += 1;
    }
    distances
}

impl Game {
    /// Age every tank by a frame. `age` takes this frame's time off a tank's
    /// timers, its portal cooldown only when told that it runs. Returns the
    /// hulls that have just become wrecks: each has its sprite column, and its
    /// body is to be settled.
    pub fn tick_timers<D: Fn(Point, Point) -> Scalar, A: Fn(Tank, bool) -> Tank>(
        &mut self,
        radius: Scalar,
        cols: &Vec<i32>,
        dist: &D,
        age: &A,
        rng: &mut SmallRng,
    ) -> (settle: Vec<u64>)
        requires
            old(self).wf(),
            cols@.len() > 0,
            forall|a: Point, b: Point| call_requires(*dist, (a, b)),
            ages_well(*age),
        ensures
            final(self).wf(),
            exists|all: Seq<(u64, Tank)>, fresh: Seq<bool>, outs: Seq<Tank>|
                {
                    &&& lists::<Tank>(old(self).field@, all)
                    &&& #[trigger] ages(
                        *dist,
                        *age,
                        old(self).ground.portals@,
                        radius,
                        cols@,
                        all,
                        fresh,
                        outs,
                        all.len() as int,
                    )
                    &&& final(self).field@ == replaced(
                        old(self).field@,
                        all,
                        outs,
                        all.len() as int,
                    )
                    &&& settle@ == wrecked(all, fresh, all.len() as int)
                },
            final(self).round == old(self).round,
            final(self).keeps_surroundings(old(self)),
            final(self).events == old(self).events,
    {
        let ghost start = self.field@;
        let ghost mut fresh: Seq<bool> = Seq::empty();
        let ghost mut outs: Seq<Tank> = Seq::empty();
        let all: Vec<(u64, Tank)> = self.field.all();
        let mut settle: Vec<u64> = Vec::new();
        let mut n: usize = 0;
        while n < all.len()
            invariant
                n <= all@.len(),
                start == old(self).field@,
                lists::<Tank>(start, all@),
                cols@.len() > 0,
                forall|a: Point, b: Point| call_requires(*dist, (a, b)),
                ages_well(*age),
                self.field.wf(),
                self.round == old(self).round,
                self.keeps_surroundings(old(self)),
                self.events == old(self).events,
                self.field@.dom() == start.dom(),
                keeps_identities(start, self.field@),
                ages(
                    *dist,
                    *age,
                    old(self).ground.portals@,
                    radius,
                    cols@,
                    all@,
                    fresh,
                    outs,
                    n as int,
                ),
                self.field@ == replaced(start, all@, outs, n as int),
                settle@ == wrecked(all@, fresh, n as int),
            decreases all@.len() - n,
        {
            let id: u64 = all[n].0;
            let t: Tank = all[n].1;
            let ghost (were_fresh, were) = (fresh, outs);
            assert(thing::<Tank>(start, all@[n as int].0) == Some(t));
            assert(start.contains_key(id));
            let distances: Vec<Scalar> = to_portals(dist, &self.ground.portals, t.position);
            let running: bool = cooldown_runs(t.portal_cooldown, &distances, radius);
            let older: Tank = age(t, running);
            let mut out: Tank = older;
            let rolled: bool = roll_wreck_col(&mut out, cols, rng);
            self.field.put(id, out);
            if rolled {
                settle.push(id);
            }
            proof {
                fresh = fresh.push(rolled);
                outs = outs.push(out);
                lemma_replaced_same(start, all@, were, outs, n as int);
                lemma_wrecked_same(all@, were_fresh, fresh, n as int);
                assert(running == runs(t.portal_cooldown, distances@, radius));
                assert(portal_distances(
                    *dist,
                    old(self).ground.portals@,
                    t.position,
                    distances@,
                ));
                assert(call_ensures(
                    *age,
                    (t, runs(t.portal_cooldown, distances@, radius)),
                    older,
                ));
                assert(aged(
                    *dist,
                    *age,
                    old(self).ground.portals@,
                    radius,
                    cols@,
                    t,
                    rolled,
                    out,
                ));
                assert(self.field@.dom() =~= start.dom());
            }
            n += 1;
        }
        proof {
            lemma_identities(self.round, start, self.field@);
        }
        settle
    }
}

/// Each of the first `n` fuses as it reads once this frame's time has passed;
/// a tile without one reads anything.
pub open spec fn fuses_read<B: Fn(Fuse) -> Scalar>(
    burn: B,
    all: Seq<(u64, Tile)>,
    lefts: Seq<Scalar>,
    n: int,
) -> bool {
    lefts.len() == n && forall|k: int|
        0 <= k < n ==> ((#[trigger] all[k]).1.fuse matches Some(fuse) ==> call_ensures(
            burn,
            (fuse,),
            lefts[k],
        ))
}

/// The field with the first `n` fuses burnt down.
pub open spec fn fuses_down(
    pieces: Map<u64, Piece>,
    all: Seq<(u64, Tile)>,
    lefts: Seq<Scalar>,
    n: int,
) -> Map<u64, Piece>
    decreases n,
{
    if n <= 0 {
        pieces
    } else {
        fuses_down(pieces, all, lefts, n - 1).insert(
            all[n - 1].0,
            fuse_burnt(all[n - 1].1, lefts[n - 1]).as_piece(),
        )
    }
}

/// Those of the first `n` tiles whose fuse has run out.
pub open spec fn popping(all: Seq<(u64, Tile)>, lefts: Seq<Scalar>, n: int) -> Seq<(u64, Tile)>
    decreases n,
{
    if n <= 0 {
        Seq::empty()
    } else if pops(all[n - 1].1, lefts[n - 1]) {
        popping(all, lefts, n - 1).push((all[n - 1].0, fuse_burnt(all[n - 1].1, lefts[n - 1])))
    } else {
        popping(all, lefts, n - 1)
    }
}

/// The field, the record and the drums in the air, part of the way through the
/// spent fuses.
#[verifier::ext_equal]
pub struct Popped {
    pub pieces: Map<u64, Piece>,
    pub record: Record,
    pub drums: Seq<FlyingDrum>,
}

/// Where a spent fuse may send its drum.
pub open spec fn may_send(
    odds: &Odds,
    tile: Tile,
    ways: Seq<Landing>,
    solid: Seq<Cell>,
    to: Option<Point>,
) -> bool {
    let far = landing(ways, tile.cell, solid);
    if !may_launch(tile) || odds is Never {
        to is None
    } else if odds is Always {
        to == far
    } else {
        to is None || to == far
    }
}

/// One spent fuse: where the drum went, if anywhere, and what that left.
pub open spec fn pop_to(
    at: Popped,
    id: u64,
    tile: Tile,
    to: Option<Point>,
    smoulder: Scalar,
) -> Popped {
    let (record, gone, drum) = fuse_spent(at.record, tile, to, smoulder);
    Popped {
        pieces: at.pieces.insert(id, gone.as_piece()),
        record,
        drums: match drum {
            Some(drum) => at.drums.push(drum),
            None => at.drums,
        },
    }
}

/// One spent fuse was resolved.
pub open spec fn pop_step<W: Fn(Tile) -> Vec<Landing>, S: Fn(Fuse) -> Scalar>(
    ways: W,
    smoulder: S,
    odds: &Odds,
    id: u64,
    tile: Tile,
    at: Popped,
    after: Popped,
) -> bool {
    exists|ws: Vec<Landing>, solid: Seq<Cell>, to: Option<Point>, burnt: Scalar|
        {
            &&& call_ensures(ways, (tile,), ws)
            &&& (tile.fuse matches Some(fuse) ==> call_ensures(smoulder, (fuse,), burnt))
            &&& covers(at.pieces, solid)
            &&& #[trigger] may_send(odds, tile, ws@, solid, to)
            &&& after == #[trigger] pop_to(at, id, tile, to, burnt)
        }
}

/// The first `n` spent fuses were resolved in turn.
pub open spec fn pop_steps<W: Fn(Tile) -> Vec<Landing>, S: Fn(Fuse) -> Scalar>(
    ways: W,
    smoulder: S,
    odds: &Odds,
    spent: Seq<(u64, Tile)>,
    stages: Seq<Popped>,
    n: int,
) -> bool {
    stages.len() == n + 1 && forall|k: int|
        0 <= k < n ==> pop_step(
            ways,
            smoulder,
            odds,
            (#[trigger] spent[k]).0,
            spent[k].1,
            stages[k],
            stages[k + 1],
        )
}

/// A frame of fuses, by way of what each tile's reads and how things stood
/// after each that ran out.
pub open spec fn fuse_frame<
    B: Fn(Fuse) -> Scalar,
    W: Fn(Tile) -> Vec<Landing>,
    S: Fn(Fuse) -> Scalar,
>(
    burn: B,
    ways: W,
    smoulder: S,
    odds: &Odds,
    all: Seq<(u64, Tile)>,
    lefts: Seq<Scalar>,
    stages: Seq<Popped>,
    at: Popped,
    after: Popped,
) -> bool {
    let n = all.len() as int;
    let spent = popping(all, lefts, n);
    &&& lists::<Tile>(at.pieces, all)
    &&& fuses_read(burn, all, lefts, n)
    &&& pop_steps(ways, smoulder, odds, spent, stages, spent.len() as int)
    &&& stages[0] == (Popped { pieces: fuses_down(at.pieces, all, lefts, n), ..at })
    &&& stages[spent.len() as int] == after
}

proof fn lemma_down_same(
    pieces: Map<u64, Piece>,
    all: Seq<(u64, Tile)>,
    a: Seq<Scalar>,
    b: Seq<Scalar>,
    n: int,
)
    requires
        0 <= n <= a.len(),
        n <= b.len(),
        forall|i: int| 0 <= i < n ==> a[i] == b[i],
    ensures
        fuses_down(pieces, all, a, n) == fuses_down(pieces, all, b, n),
        popping(all, a, n) == popping(all, b, n),
    decreases n,
{
    if n > 0 {
        lemma_down_same(pieces, all, a, b, n - 1);
    }
}

impl Game {
    /// Count every lit fuse down and resolve the ones that run out: a fuel
    /// drum that another blast lit may launch, and everything else goes off
    /// where it stands. `ways` lists where a drum could come down, furthest
    /// first.
    pub fn tick_fuses<
        B: Fn(Fuse) -> Scalar,
        W: Fn(Tile) -> Vec<Landing>,
        S: Fn(Fuse) -> Scalar,
    >(
        &mut self,
        f: &mut Frame,
        odds: &Odds,
        burn: &B,
        ways: &W,
        smoulder: &S,
        rng: &mut SmallRng,
    )
        requires
            old(self).wf(),
            forall|z: Fuse| call_requires(*burn, (z,)),
            forall|t: Tile| call_requires(*ways, (t,)),
            forall|z: Fuse| call_requires(*smoulder, (z,)),
        ensures
            final(self).wf(),
            exists|all: Seq<(u64, Tile)>, lefts: Seq<Scalar>, stages: Seq<Popped>| #[trigger]
                fuse_frame(
                    *burn,
                    *ways,
                    *smoulder,
                    odds,
                    all,
                    lefts,
                    stages,
                    (Popped {
                        pieces: old(self).field@,
                        record: old(f)@,
                        drums: old(self).ground.drums@,
                    }),
                    (Popped {
                        pieces: final(self).field@,
                        record: final(f)@,
                        drums: final(self).ground.drums@,
                    }),
                ),
            final(self).ground == (crate::game::Ground {
                drums: final(self).ground.drums,
                ..old(self).ground
            }),
            final(self).round == old(self).round,
            final(self).pack == old(self).pack,
            final(self).show == old(self).show,
            final(self).events == old(self).events,
            final(self).debug_kills == old(self).debug_kills,
    {
        let ghost start = self.field@;
        let ghost mut lefts: Seq<Scalar> = Seq::empty();
        let all: Vec<(u64, Tile)> = self.field.all();
        let mut spent: Vec<(u64, Tile)> = Vec::new();
        let mut n: usize = 0;
        while n < all.len()
            invariant
                n <= all@.len(),
                start == old(self).field@,
                lists::<Tile>(start, all@),
                forall|z: Fuse| call_requires(*burn, (z,)),
                self.field.wf(),
                self.round == old(self).round,
                self.keeps_surroundings(old(self)),
                self.events == old(self).events,
                self.field@.dom() == start.dom(),
                keeps_identities(start, self.field@),
                fuses_read(*burn, all@, lefts, n as int),
                self.field@ == fuses_down(start, all@, lefts, n as int),
                spent@ == popping(all@, lefts, n as int),
                forall|k: int|
                    0 <= k < spent@.len() ==> thing::<Tile>(start, (#[trigger] spent@[k]).0)
                        is Some,
            decreases all@.len() - n,
        {
            let id: u64 = all[n].0;
            let t: Tile = all[n].1;
            let ghost were = lefts;
            assert(thing::<Tile>(start, all@[n as int].0) == Some(t));
            assert(start.contains_key(id));
            let mut left: Scalar = Scalar::zero();
            let mut after: Tile = t;
            if let Some(fuse) = t.fuse {
                left = burn(fuse);
                after.fuse = Some(Fuse { left, ..fuse });
            }
            self.field.put(id, after);
            if t.fuse.is_some() && left.le(Scalar::zero()) && !t.destroyed {
                spent.push((id, after));
            }
            proof {
                lefts = lefts.push(left);
                lemma_down_same(start, all@, were, lefts, n as int);
                assert(self.field@.dom() =~= start.dom());
            }
            n += 1;
        }
        let ghost mut stages: Seq<Popped> = seq![
            Popped { pieces: self.field@, record: f@, drums: self.ground.drums@ },
        ];
        let mut k: usize = 0;
        while k < spent.len()
            invariant
                k <= spent@.len(),
                start == old(self).field@,
                forall|t: Tile| call_requires(*ways, (t,)),
                forall|z: Fuse| call_requires(*smoulder, (z,)),
                self.field.wf(),
                self.round == old(self).round,
                self.pack == old(self).pack,
                self.show == old(self).show,
                self.debug_kills == old(self).debug_kills,
                self.ground == (crate::game::Ground {
                    drums: self.ground.drums,
                    ..old(self).ground
                }),
                self.events == old(self).events,
                self.field@.dom() == start.dom(),
                keeps_identities(start, self.field@),
                forall|k: int|
                    0 <= k < spent@.len() ==> thing::<Tile>(start, (#[trigger] spent@[k]).0)
                        is Some,
                pop_steps(*ways, *smoulder, odds, spent@, stages, k as int),
                stages[0] == (Popped {
                    pieces: fuses_down(start, all@, lefts, all@.len() as int),
                    record: old(f)@,
                    drums: old(self).ground.drums@,
                }),
                stages[k as int] == (Popped {
                    pieces: self.field@,
                    record: f@,
                    drums: self.ground.drums@,
                }),
            decreases spent@.len() - k,
        {
            let ghost were = stages;
            let id: u64 = spent[k].0;
            let t: Tile = spent[k].1;
            assert(thing::<Tile>(start, spent@[k as int].0) is Some);
            assert(start.contains_key(id));
            let ghost before = Popped {
                pieces: self.field@,
                record: f@,
                drums: self.ground.drums@,
            };
            let solid: Vec<Cell> = self.standing_cells();
            let ws: Vec<Landing> = ways(t);
            let burnt: Scalar = match t.fuse {
                Some(fuse) => smoulder(fuse),
                None => Scalar::zero(),
            };
            let (gone, drum): (Tile, Option<FlyingDrum>) = pop_fuse(
                f,
                t,
                odds,
                &ws,
                &solid,
                burnt,
                rng,
            );
            self.field.put(id, gone);
            if let Some(drum) = drum {
                self.ground.drums.push(drum);
            }
            proof {
                let next = Popped {
                    pieces: self.field@,
                    record: f@,
                    drums: self.ground.drums@,
                };
                stages = stages.push(next);
                let far = landing(ws@, t.cell, solid@);
                if (f@, gone, drum) == fuse_spent(before.record, t, None, burnt) && (!(
                odds is Always) || !may_launch(t)) {
                    assert(may_send(odds, t, ws@, solid@, None));
                    assert(next == pop_to(before, id, t, None, burnt));
                } else {
                    assert(may_send(odds, t, ws@, solid@, far));
                    assert(next == pop_to(before, id, t, far, burnt));
                }
                assert(pop_step(*ways, *smoulder, odds, id, t, before, next));
                assert forall|j: int| 0 <= j < k + 1 implies pop_step(
                    *ways,
                    *smoulder,
                    odds,
                    (#[trigger] spent@[j]).0,
                    spent@[j].1,
                    stages[j],
                    stages[j + 1],
                ) by {
                    if j < k {
                        assert(stages[j] == were[j]);
                        assert(stages[j + 1] == were[j + 1]);
                    }
                }
                assert(self.field@.dom() =~= start.dom());
                assert forall|e: u64| (#[trigger] thing::<Tank>(start, e)) is Some implies thing::<
                    Tank,
                >(self.field@, e) is Some && thing::<Tank>(self.field@, e)->0.owner == thing::<
                    Tank,
                >(start, e)->0.owner && (thing::<Tank>(start, e)->0.mind is None ==> thing::<Tank>(
                    self.field@,
                    e,
                )->0.mind is None) by {
                    assert(thing::<Tank>(before.pieces, e) is Some);
                    assert(e != id);
                }
                assert forall|e: u64| (#[trigger] thing::<Frog>(start, e)) is Some implies thing::<
                    Frog,
                >(self.field@, e) is Some && thing::<Frog>(self.field@, e)->0.side == thing::<
                    Frog,
                >(start, e)->0.side by {
                    assert(thing::<Frog>(before.pieces, e) is Some);
                    assert(e != id);
                }
            }
            k += 1;
        }
        proof {
            lemma_identities(self.round, start, self.field@);
            assert(fuse_frame(
                *burn,
                *ways,
                *smoulder,
                odds,
                all@,
                lefts,
                stages,
                Popped { pieces: start, record: old(f)@, drums: old(self).ground.drums@ },
                Popped { pieces: self.field@, record: f@, drums: self.ground.drums@ },
            ));
        }
    }
}

/// The tile burnt out this frame.
pub open spec fn burns_out(before: Tile, after: Tile) -> bool {
    after.destroyed && !before.destroyed
}

/// What a frame's burning makes of each of the first `n` tiles.
pub open spec fn burns_each<B: Fn(Tile) -> Tile>(
    burn: B,
    all: Seq<(u64, Tile)>,
    outs: Seq<Tile>,
    n: int,
) -> bool {
    outs.len() == n && forall|k: int|
        0 <= k < n ==> call_ensures(burn, ((#[trigger] all[k]).1,), outs[k])
}

/// The first `n` tiles, a frame further burnt; those that burn out leave charred
/// rubble.
pub open spec fn burnt_tiles(at: Scene, all: Seq<(u64, Tile)>, outs: Seq<Tile>, n: int) -> Scene
    decreases n,
{
    if n <= 0 {
        at
    } else {
        let now = burnt_tiles(at, all, outs, n - 1);
        let after = outs[n - 1];
        Scene {
            pieces: now.pieces.insert(all[n - 1].0, after.as_piece()),
            record: if burns_out(all[n - 1].1, after) {
                mourned(
                    now.record,
                    DeadTile {
                        material: after.material,
                        drum: after.drum,
                        position: after.position,
                        chained: false,
                        charred: true,
                        shape: BlastShape::Plain,
                    },
                )
            } else {
                now.record
            },
        }
    }
}

proof fn lemma_burnt_same(at: Scene, all: Seq<(u64, Tile)>, a: Seq<Tile>, b: Seq<Tile>, n: int)
    requires
        0 <= n <= a.len(),
        n <= b.len(),
        forall|i: int| 0 <= i < n ==> a[i] == b[i],
    ensures
        burnt_tiles(at, all, a, n) == burnt_tiles(at, all, b, n),
    decreases n,
{
    if n > 0 {
        lemma_burnt_same(at, all, a, b, n - 1);
    }
}

impl Game {
    /// Burn every burning tile a frame further. `burn` ages one tile; one that
    /// burns out is gone and leaves charred rubble.
    pub fn tick_burns<B: Fn(Tile) -> Tile>(&mut self, f: &mut Frame, burn: &B)
        requires
            old(self).wf(),
            forall|t: Tile| call_requires(*burn, (t,)),
        ensures
            final(self).wf(),
            exists|all: Seq<(u64, Tile)>, outs: Seq<Tile>|
                {
                    &&& lists::<Tile>(old(self).field@, all)
                    &&& #[trigger] burns_each(*burn, all, outs, all.len() as int)
                    &&& (Scene { pieces: final(self).field@, record: final(f)@ }) == burnt_tiles(
                        Scene { pieces: old(self).field@, record: old(f)@ },
                        all,
                        outs,
                        all.len() as int,
                    )
                },
            final(self).round == old(self).round,
            final(self).keeps_surroundings(old(self)),
            final(self).events == old(self).events,
    {
        let ghost start = Scene { pieces: self.field@, record: f@ };
        let ghost mut outs: Seq<Tile> = Seq::empty();
        let all: Vec<(u64, Tile)> = self.field.all();
        let mut n: usize = 0;
        while n < all.len()
            invariant
                n <= all@.len(),
                start == (Scene { pieces: old(self).field@, record: old(f)@ }),
                lists::<Tile>(start.pieces, all@),
                forall|t: Tile| call_requires(*burn, (t,)),
                self.field.wf(),
                self.round == old(self).round,
                self.keeps_surroundings(old(self)),
                self.events == old(self).events,
                self.field@.dom() == start.pieces.dom(),
                keeps_identities(start.pieces, self.field@),
                burns_each(*burn, all@, outs, n as int),
                (Scene { pieces: self.field@, record: f@ }) == burnt_tiles(
                    start,
                    all@,
                    outs,
                    n as int,
                ),
            decreases all@.len() - n,
        {
            let id: u64 = all[n].0;
            let t: Tile = all[n].1;
            let ghost were = outs;
            assert(thing::<Tile>(start.pieces, all@[n as int].0) == Some(t));
            assert(start.pieces.contains_key(id));
            let after: Tile = burn(t);
            self.field.put(id, after);
            if after.destroyed && !t.destroyed {
                obstacle_died(
                    f,
                    DeadTile {
                        material: after.material,
                        drum: after.drum,
                        position: after.position,
                        chained: false,
                        charred: true,
                        shape: BlastShape::Plain,
                    },
                );
            }
            proof {
                outs = outs.push(after);
                lemma_burnt_same(start, all@, were, outs, n as int);
                assert(self.field@.dom() =~= start.pieces.dom());
            }
            n += 1;
        }
        proof {
            lemma_identities(self.round, start.pieces, self.field@);
        }
    }
}

/// A shot leaves the field exactly when it is finished; everything else stays as
/// it is.
pub proof fn only_finished_shots_leave(pieces: Map<u64, Piece>, id: u64)
    ensures
        without_done(pieces).contains_key(id) <==> pieces.contains_key(id) && !(pieces[id] is Shot
            && pieces[id]->Shot_0.state is Done),
        without_done(pieces).contains_key(id) ==> without_done(pieces)[id] == pieces[id],
{
}

/// A portal cooldown that is not over runs while the tank is off every portal,
/// and stands still on one; on a map with fewer than two it always runs.
pub proof fn a_portal_cooldown_runs_off_the_portals(
    cooldown: Scalar,
    distances: Seq<Scalar>,
    radius: Scalar,
)
    ensures
        !Scalar::zero().below(cooldown) ==> !runs(cooldown, distances, radius),
        Scalar::zero().below(cooldown) && distances.len() < 2 ==> runs(cooldown, distances, radius),
        Scalar::zero().below(cooldown) && (forall|i: int|
            0 <= i < distances.len() ==> !(#[trigger] distances[i]).at_most(radius)) ==> runs(
            cooldown,
            distances,
            radius,
        ),
        forall|i: int|
            0 <= i < distances.len() && distances.len() >= 2 && (#[trigger] distances[i]).at_most(
                radius,
            ) ==> !runs(cooldown, distances, radius),
{
}

/// A hull that has just become a wreck is given a sprite column, once; any other
/// tank is as a frame left it.
pub proof fn a_fresh_wreck_is_given_its_column<
    D: Fn(Point, Point) -> Scalar,
    A: Fn(Tank, bool) -> Tank,
>(
    dist: D,
    age: A,
    portals: Seq<Point>,
    radius: Scalar,
    cols: Seq<i32>,
    t: Tank,
    fresh: bool,
    out: Tank,
)
    requires
        aged(dist, age, portals, radius, cols, t, fresh, out),
    ensures
        out.wreck && out.wreck_col is Some && fresh ==> cols.contains(out.wreck_col->0),
        out.wreck ==> out.wreck_col is Some,
        fresh ==> out.wreck,
        !fresh ==> exists|r: bool| #[trigger] call_ensures(age, (t, r), out),
{
    let (distances, older) = choose|distances: Seq<Scalar>, older: Tank|
        {
            &&& #[trigger] portal_distances(dist, portals, t.position, distances)
            &&& #[trigger] call_ensures(
                age,
                (t, runs(t.portal_cooldown, distances, radius)),
                older,
            )
            &&& fresh == (older.wreck && older.wreck_col is None)
            &&& if fresh {
                (out.wreck_col matches Some(col) && cols.contains(col)) && out == (Tank {
                    wreck_col: out.wreck_col,
                    ..older
                })
            } else {
                out == older
            }
        };
    let r = runs(t.portal_cooldown, distances, radius);
    assert(call_ensures(age, (t, r), older));
}

proof fn lemma_wrecked(all: Seq<(u64, Tank)>, fresh: Seq<bool>, n: int, id: u64)
    requires
        0 <= n <= all.len() == fresh.len(),
    ensures
        wrecked(all, fresh, n).contains(id) <==> exists|k: int|
            0 <= k < n && (#[trigger] all[k]).0 == id && fresh[k],
    decreases n,
{
    if n > 0 {
        lemma_wrecked(all, fresh, n - 1, id);
        let (now, before) = (wrecked(all, fresh, n), wrecked(all, fresh, n - 1));
        if before.contains(id) {
            let i = choose|i: int| 0 <= i < before.len() && before[i] == id;
            assert(now[i] == id);
        }
        if fresh[n - 1] {
            assert(now[before.len() as int] == all[n - 1].0);
            if now.contains(id) {
                let i = choose|i: int| 0 <= i < now.len() && now[i] == id;
                if i < before.len() {
                    assert(before[i] == id);
                }
            }
        }
    }
}

/// Every hull that has just become a wreck is settled, and no other.
pub proof fn every_fresh_wreck_is_settled(all: Seq<(u64, Tank)>, fresh: Seq<bool>, id: u64)
    requires
        all.len() == fresh.len(),
    ensures
        wrecked(all, fresh, all.len() as int).contains(id) <==> exists|k: int|
            0 <= k < all.len() && (#[trigger] all[k]).0 == id && fresh[k],
{
    lemma_wrecked(all, fresh, all.len() as int, id);
}

proof fn lemma_popping(
    all: Seq<(u64, Tile)>,
    lefts: Seq<Scalar>,
    n: int,
    k: int,
)
    requires
        0 <= k < n <= all.len() == lefts.len(),
        pops(all[k].1, lefts[k]),
    ensures
        popping(all, lefts, n).contains((all[k].0, fuse_burnt(all[k].1, lefts[k]))),
    decreases n,
{
    let now = popping(all, lefts, n);
    let before = popping(all, lefts, n - 1);
    let x = (all[k].0, fuse_burnt(all[k].1, lefts[k]));
    if k == n - 1 {
        assert(now.last() == x);
    } else {
        lemma_popping(all, lefts, n - 1, k);
        let i = choose|i: int| 0 <= i < before.len() && before[i] == x;
        assert(now[i] == x);
    }
}

proof fn lemma_popping_only(all: Seq<(u64, Tile)>, lefts: Seq<Scalar>, n: int, i: int)
    requires
        0 <= n <= all.len() == lefts.len(),
        0 <= i < popping(all, lefts, n).len(),
    ensures
        exists|k: int|
            0 <= k < n && (#[trigger] all[k]).0 == popping(all, lefts, n)[i].0 && pops(
                all[k].1,
                lefts[k],
            ),
    decreases n,
{
    let before = popping(all, lefts, n - 1);
    if i < before.len() {
        lemma_popping_only(all, lefts, n - 1, i);
    } else {
        assert(all[n - 1].0 == popping(all, lefts, n)[i].0);
    }
}

/// A standing tile goes off exactly when its fuse has no time left.
pub proof fn a_tile_goes_off_when_its_fuse_is_out(
    all: Seq<(u64, Tile)>,
    lefts: Seq<Scalar>,
    k: int,
)
    requires
        0 <= k < all.len() == lefts.len(),
        forall|i: int, j: int|
            0 <= i < j < all.len() ==> (#[trigger] all[i]).0 != (#[trigger] all[j]).0,
    ensures
        (exists|i: int|
            0 <= i < popping(all, lefts, all.len() as int).len() && (#[trigger] popping(
                all,
                lefts,
                all.len() as int,
            )[i]).0 == all[k].0) <==> all[k].1.fuse is Some && !all[k].1.destroyed
            && lefts[k].at_most(Scalar::zero()),
{
    let out = popping(all, lefts, all.len() as int);
    if pops(all[k].1, lefts[k]) {
        lemma_popping(all, lefts, all.len() as int, k);
        let x = (all[k].0, fuse_burnt(all[k].1, lefts[k]));
        let i = choose|i: int| 0 <= i < out.len() && out[i] == x;
        assert(out[i].0 == all[k].0);
    }
    if exists|i: int| 0 <= i < out.len() && (#[trigger] out[i]).0 == all[k].0 {
        let i = choose|i: int| 0 <= i < out.len() && (#[trigger] out[i]).0 == all[k].0;
        lemma_popping_only(all, lefts, all.len() as int, i);
        let m = choose|m: int|
            0 <= m < all.len() && (#[trigger] all[m]).0 == out[i].0 && pops(all[m].1, lefts[m]);
        if m < k {
            assert(all[m].0 != all[k].0);
        } else if k < m {
            assert(all[k].0 != all[m].0);
        }
    }
}

/// A fuel drum that a blast lit is sent to the furthest free cell when its
/// launch is certain and nowhere when it is out of the question; nothing else is
/// ever sent anywhere.
pub proof fn only_a_fuel_drum_lit_by_a_blast_is_sent(
    odds: &Odds,
    tile: Tile,
    ways: Seq<Landing>,
    solid: Seq<Cell>,
    to: Option<Point>,
)
    requires
        may_send(odds, tile, ways, solid, to),
    ensures
        ({
            let may = tile.material is Barrel && tile.drum is Fuel && (tile.fuse matches Some(
                fuse,
            ) && fuse.from is Some);
            &&& !may || odds is Never ==> to is None
            &&& may && odds is Always ==> to == landing(ways, tile.cell, solid)
            &&& to is Some ==> to == landing(ways, tile.cell, solid)
        }),
{
}

/// A tile that burns out is told once and leaves charred rubble, or a barrel its
/// blast.
pub proof fn a_burnt_out_tile_is_told(at: Scene, all: Seq<(u64, Tile)>, outs: Seq<Tile>, n: int)
    requires
        0 < n <= all.len(),
    ensures
        ({
            let before = burnt_tiles(at, all, outs, n - 1);
            let after = burnt_tiles(at, all, outs, n);
            let (was, is_now) = (all[n - 1].1, outs[n - 1]);
            let gone = is_now.destroyed && !was.destroyed;
            &&& after.pieces == before.pieces.insert(all[n - 1].0, Piece::Tile(is_now))
            &&& !gone ==> after.record == before.record
            &&& gone ==> after.record.events.len() > before.record.events.len()
                && after.record.events[before.record.events.len() as int] == (
            Event::ObstacleDestroyed {
                material: is_now.material,
                x: is_now.position.x,
                y: is_now.position.y,
            })
            &&& gone && !(is_now.material is Barrel) && !(is_now.material is Iron)
                ==> after.record.rubble.len() == before.record.rubble.len() + 1
                && after.record.rubble.last().charred && after.record.rubble.last().at
                == is_now.position
        }),
{
}

} // verus!
