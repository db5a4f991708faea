//! Tanks pushing into what stands on the field: props that collapse, trees
//! that go over, barrels that are worn down.

use rand::distr::Bernoulli;
use rand::rngs::SmallRng;
use vstd::prelude::*;

use crate::blasts::{may_take, tile_blasted};
use crate::field::{lists, thing, Kind};
use crate::frame::{Frame, Scene};
use crate::game::{keeps_identities, lemma_identities, Game};
use crate::pieces::{Piece, Tile};
use crate::props::{push_clock, ram_props, shoved, Blow, DamageCause, Push};

verus! {

/// One entity took a blow that `work` makes out for the tile it is; anything
/// that is no tile is left alone.
pub open spec fn tile_struck<B: Fn(Tile) -> Blow>(
    work: B,
    cause: DamageCause,
    id: u64,
    before: Scene,
    after: Scene,
) -> bool {
    match thing::<Tile>(before.pieces, id) {
        Some(t) => exists|b: Blow, r: (Tile, bool)|
            {
                &&& call_ensures(work, (t,), b)
                &&& #[trigger] may_take(t, b, cause, r)
                &&& after == (Scene {
                    pieces: before.pieces.insert(id, r.0.as_piece()),
                    record: tile_blasted(before.record, r, cause),
                })
            },
        None => after == before,
    }
}

/// The entities took their blows in turn, by way of how things stood after
/// each.
pub open spec fn strikes<B: Fn(Tile) -> Blow>(
    work: B,
    cause: DamageCause,
    ids: Seq<u64>,
    stages: Seq<Scene>,
    at: Scene,
    after: Scene,
) -> bool {
    &&& stages.len() == ids.len() + 1
    &&& stages[0] == at
    &&& stages[ids.len() as int] == after
    &&& forall|k: int|
        0 <= k < ids.len() ==> tile_struck(
            work,
            cause,
            #[trigger] ids[k],
            stages[k],
            stages[k + 1],
        )
}

/// The field once the push clock of each of the first `n` tiles has run.
pub open spec fn clocks_run(
    pieces: Map<u64, Piece>,
    all: Seq<(u64, Tile)>,
    pushes: Seq<Push>,
    n: int,
) -> Map<u64, Piece>
    decreases n,
{
    if n <= 0 {
        pieces
    } else {
        clocks_run(pieces, all, pushes, n - 1).insert(
            all[n - 1].0,
            push_clock(all[n - 1].1, pushes[n - 1]).as_piece(),
        )
    }
}

/// What the host says of each tile.
pub open spec fn pushes_read<P: Fn(u64, Tile) -> Push>(
    push: P,
    all: Seq<(u64, Tile)>,
    pushes: Seq<Push>,
) -> bool {
    pushes.len() == all.len() && forall|k: int|
        0 <= k < all.len() ==> call_ensures(push, (all[k].0, all[k].1), #[trigger] pushes[k])
}

/// A frame of pushing: every clock runs, the tiles whose time is up take
/// their blow, and the rammed barrels take theirs after them.
pub open spec fn shove_frame<
    P: Fn(u64, Tile) -> Push,
    C: Fn(Tile) -> Blow,
    W: Fn(Tile) -> Blow,
>(
    push: P,
    collapse: C,
    wear: W,
    all: Seq<(u64, Tile)>,
    pushes: Seq<Push>,
    falls: Seq<Scene>,
    dents: Seq<Scene>,
    at: Scene,
    after: Scene,
) -> bool {
    let n = all.len() as int;
    let down = shoved(all, pushes, false, n);
    let rammed = shoved(all, pushes, true, n);
    &&& lists::<Tile>(at.pieces, all)
    &&& pushes_read(push, all, pushes)
    &&& strikes(
        collapse,
        DamageCause::Ram,
        down,
        falls,
        Scene { pieces: clocks_run(at.pieces, all, pushes, n), ..at },
        falls[down.len() as int],
    )
    &&& strikes(wear, DamageCause::Ram, rammed, dents, falls[down.len() as int], after)
}

impl Game {
    /// Strike tiles in turn, each with the blow that `work` makes out for it.
    pub fn strike_tiles<B: Fn(Tile) -> Blow>(
        &mut self,
        f: &mut Frame,
        ids: &Vec<u64>,
        work: &B,
        cause: DamageCause,
        one_shot: &Bernoulli,
        rng: &mut SmallRng,
    )
        requires
            old(self).wf(),
            forall|t: Tile| call_requires(*work, (t,)),
        ensures
            final(self).wf(),
            exists|stages: Seq<Scene>| #[trigger]
                strikes(
                    *work,
                    cause,
                    ids@,
                    stages,
                    Scene { pieces: old(self).field@, record: old(f)@ },
                    Scene { pieces: final(self).field@, record: final(f)@ },
                ),
            ids@.len() == 0 ==> *final(rng) == *old(rng),
            final(self).round == old(self).round,
            final(self).keeps_surroundings(old(self)),
            final(self).events == old(self).events,
    {
        let ghost mut stages: Seq<Scene> = seq![Scene { pieces: self.field@, record: f@ }];
        let mut n: usize = 0;
        while n < ids.len()
            invariant
                n <= ids@.len(),
                forall|t: Tile| call_requires(*work, (t,)),
                self.wf(),
                self.round == old(self).round,
                self.keeps_surroundings(old(self)),
                self.events == old(self).events,
                n == 0 ==> *rng == *old(rng),
                stages.len() == n + 1,
                stages[0] == (Scene { pieces: old(self).field@, record: old(f)@ }),
                stages[n as int] == (Scene { pieces: self.field@, record: f@ }),
                forall|k: int|
                    0 <= k < n ==> tile_struck(
                        *work,
                        cause,
                        #[trigger] ids@[k],
                        stages[k],
                        stages[k + 1],
                    ),
            decreases ids@.len() - n,
        {
            let id: u64 = ids[n];
            let ghost before = Scene { pieces: self.field@, record: f@ };
            let found: Option<Tile> = self.field.get(id);
            if let Some(t) = found {
                let b: Blow = work(t);
                let _ = self.damage_tile(f, id, &b, cause, one_shot, rng);
            }
            proof {
                stages = stages.push(Scene { pieces: self.field@, record: f@ });
                assert(tile_struck(*work, cause, ids@[n as int], before, stages[n + 1]));
            }
            n += 1;
        }
        assert(strikes(
            *work,
            cause,
            ids@,
            stages,
            Scene { pieces: old(self).field@, record: old(f)@ },
            Scene { pieces: self.field@, record: f@ },
        ));
    }

    /// Tanks pushing into props, trees and barrels. `push` says how a tile is
    /// being pushed, `collapse` makes out the blow that fells one whose time
    /// is up, and `wear` the one a rammed barrel takes in a frame.
    pub fn ram_props<P: Fn(u64, Tile) -> Push, C: Fn(Tile) -> Blow, W: Fn(Tile) -> Blow>(
        &mut self,
        f: &mut Frame,
        push: &P,
        collapse: &C,
        wear: &W,
        one_shot: &Bernoulli,
        rng: &mut SmallRng,
    )
        requires
            old(self).wf(),
            forall|id: u64, t: Tile| call_requires(*push, (id, t)),
            forall|t: Tile| call_requires(*collapse, (t,)),
            forall|t: Tile| call_requires(*wear, (t,)),
        ensures
            final(self).wf(),
            exists|
                all: Seq<(u64, Tile)>,
                pushes: Seq<Push>,
                falls: Seq<Scene>,
                dents: Seq<Scene>,
            | #[trigger]
                shove_frame(
                    *push,
                    *collapse,
                    *wear,
                    all,
                    pushes,
                    falls,
                    dents,
                    Scene { pieces: old(self).field@, record: old(f)@ },
                    Scene { pieces: final(self).field@, record: final(f)@ },
                ),
            final(self).round == old(self).round,
            final(self).keeps_surroundings(old(self)),
            final(self).events == old(self).events,
    {
        let ghost start = self.field@;
        let mut tiles: Vec<(u64, Tile)> = self.field.all();
        let ghost all = tiles@;
        let mut pushes: Vec<Push> = Vec::new();
        let mut n: usize = 0;
        while n < tiles.len()
            invariant
                n <= tiles@.len(),
                tiles@ == all,
                pushes@.len() == n,
                forall|id: u64, t: Tile| call_requires(*push, (id, t)),
                forall|k: int|
                    0 <= k < n ==> call_ensures(
                        *push,
                        (all[k].0, all[k].1),
                        #[trigger] pushes@[k],
                    ),
            decreases tiles@.len() - n,
        {
            pushes.push(push(tiles[n].0, tiles[n].1));
            n += 1;
        }
        let (down, rammed): (Vec<u64>, Vec<u64>) = ram_props(&mut tiles, &pushes);
        let mut k: usize = 0;
        while k < tiles.len()
            invariant
                k <= tiles@.len() == all.len() == pushes@.len(),
                start == old(self).field@,
                lists::<Tile>(start, all),
                tiles@ == Seq::new(all.len(), |i: int| (all[i].0, push_clock(all[i].1, pushes@[i]))),
                self.field.wf(),
                self.round == old(self).round,
                self.keeps_surroundings(old(self)),
                self.events == old(self).events,
                self.field@.dom() == start.dom(),
                keeps_identities(start, self.field@),
                self.field@ == clocks_run(start, all, pushes@, k as int),
            decreases tiles@.len() - k,
        {
            assert(thing::<Tile>(start, all[k as int].0) == Some(all[k as int].1));
            assert(start.contains_key(all[k as int].0));
            self.field.put(tiles[k].0, tiles[k].1);
            assert(self.field@.dom() =~= start.dom());
            k += 1;
        }
        proof {
            lemma_identities(self.round, start, self.field@);
        }
        let ghost run = Scene { pieces: self.field@, record: f@ };
        self.strike_tiles(f, &down, collapse, DamageCause::Ram, one_shot, rng);
        let ghost fallen = Scene { pieces: self.field@, record: f@ };
        let ghost falls = choose|stages: Seq<Scene>| #[trigger]
            strikes(*collapse, DamageCause::Ram, down@, stages, run, fallen);
        self.strike_tiles(f, &rammed, wear, DamageCause::Ram, one_shot, rng);
        proof {
            let after = Scene { pieces: self.field@, record: f@ };
            let dents = choose|stages: Seq<Scene>| #[trigger]
                strikes(*wear, DamageCause::Ram, rammed@, stages, fallen, after);
            assert(pushes_read(*push, all, pushes@));
            assert(shove_frame(
                *push,
                *collapse,
                *wear,
                all,
                pushes@,
                falls,
                dents,
                Scene { pieces: start, record: old(f)@ },
                after,
            ));
        }
    }
}

/// Every tile's push clock has run once the frame is over, and nothing that is
/// no tile was touched by it.
pub proof fn every_push_clock_runs(
    pieces: Map<u64, Piece>,
    all: Seq<(u64, Tile)>,
    pushes: Seq<Push>,
    n: int,
    k: int,
)
    requires
        0 <= k < n <= all.len(),
        forall|i: int, j: int|
            0 <= i < j < all.len() ==> (#[trigger] all[i]).0 != (#[trigger] all[j]).0,
    ensures
        clocks_run(pieces, all, pushes, n).contains_key(all[k].0),
        clocks_run(pieces, all, pushes, n)[all[k].0] == Piece::Tile(
            push_clock(all[k].1, pushes[k]),
        ),
        forall|e: u64|
            (forall|i: int| 0 <= i < n ==> (#[trigger] all[i]).0 != e) ==> (
            #[trigger] clocks_run(pieces, all, pushes, n).contains_key(e) <==> pieces.contains_key(
                e,
            )) && clocks_run(pieces, all, pushes, n)[e] == pieces[e],
    decreases n,
{
    if n > 1 {
        every_push_clock_runs(pieces, all, pushes, n - 1, if k < n - 1 {
            k
        } else {
            0
        });
    } else {
        assert(clocks_run(pieces, all, pushes, 0) == pieces);
    }
    let before = clocks_run(pieces, all, pushes, n - 1);
    let now = clocks_run(pieces, all, pushes, n);
    assert forall|e: u64|
        (forall|i: int| 0 <= i < n ==> (#[trigger] all[i]).0 != e) implies (
    #[trigger] now.contains_key(e) <==> pieces.contains_key(e)) && now[e] == pieces[e] by {
        assert(all[n - 1].0 != e);
        assert(before.contains_key(e) <==> pieces.contains_key(e));
    }
}

/// A blow falls on a tile and on nothing else: one worked out for what is no
/// tile changes nothing, and nothing but the tile struck is changed.
pub proof fn a_blow_falls_on_its_tile<B: Fn(Tile) -> Blow>(
    work: B,
    cause: DamageCause,
    id: u64,
    before: Scene,
    after: Scene,
)
    requires
        tile_struck(work, cause, id, before, after),
    ensures
        !before.pieces.contains_key(id) || !(before.pieces[id] is Tile) ==> after == before,
        before.pieces.contains_key(id) && before.pieces[id] is Tile ==> after.pieces.contains_key(id)
            && after.pieces[id] is Tile,
        forall|e: u64|
            e != id ==> (#[trigger] after.pieces.contains_key(e) <==> before.pieces.contains_key(e))
                && after.pieces[e] == before.pieces[e],
{
}

} // verus!
