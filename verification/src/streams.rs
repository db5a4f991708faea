//! A frame of flamethrowers: who and what the streams are on, what that does
//! to them, and who goes on burning without one.
//!
//! The host works out each cone and says who stands in it, what a frame of
//! the stream takes off, and how warm things are getting.

use rand::distr::Bernoulli;
use rand::rngs::SmallRng;
use vstd::prelude::*;

use crate::arms::is_walk;
use crate::burning::{keeps_name, lemma_seared_same, seared};
use crate::event::Event;
use crate::field::{lists, thing, Kind};
use crate::flame::{
    afterburns, expose_ground, exposed, flame_frog, flame_tank, flame_tile, flared,
    frog_wash_told, ignite_cells, stream_takes, tile_flamed, wash_told, washed, Flare, FlameLimits,
    Hot, Scorched, TileFlame,
};
use crate::frame::{Frame, Record, Scene};
use crate::game::Game;
use crate::kinds::{Cell, Owner, MAX_SEATS};
use crate::pieces::{took_blow, Frog, Piece, Tank, Tile};
use crate::props::{
    blow, damage_obstacle, fires_inside, mourned, obstacle_died, shape_of, Blow, DamageCause,
    DeadTile,
};
use crate::scalar::Scalar;

verus! {

/// The field, the record and whom the streams have touched, part of the way
/// through.
#[verifier::ext_equal]
pub struct Streamed {
    pub pieces: Map<u64, Piece>,
    pub record: Record,
    pub touched: Seq<u64>,
}

/// The first `n` tanks of a list, those the stream takes washed over.
pub open spec fn tanks_washed(
    at: Streamed,
    all: Seq<(u64, Tank)>,
    takes: Seq<bool>,
    outs: Seq<Tank>,
    contacts: Seq<u64>,
    afterburn: Scalar,
    n: int,
) -> Streamed
    decreases n,
{
    if n <= 0 {
        at
    } else {
        let now = tanks_washed(at, all, takes, outs, contacts, afterburn, n - 1);
        if takes[n - 1] {
            let id = all[n - 1].0;
            Streamed {
                pieces: now.pieces.insert(id, washed(outs[n - 1], afterburn).as_piece()),
                record: wash_told(now.record, id, contacts, outs[n - 1]),
                touched: now.touched.push(id),
            }
        } else {
            now
        }
    }
}

/// Whether a jet takes a tank, and what a frame of it makes of the hull: not
/// the shooter's own tank, no wreck, on the field, and in the cone.
pub open spec fn jet_takes<K: Fn(usize, Tank) -> bool, F: Fn(usize, Tank) -> Tank>(
    cone: K,
    strike: F,
    jet: usize,
    shooter: u64,
    entity: u64,
    t: Tank,
    take: bool,
    out: Tank,
) -> bool {
    &&& if entity != shooter && !t.wreck && t.has_body {
        call_ensures(cone, (jet, t), take)
    } else {
        !take
    }
    &&& take ==> call_ensures(strike, (jet, t), out)
}

/// What a jet does to each of the first `n` tanks of a list.
pub open spec fn jet_each<K: Fn(usize, Tank) -> bool, F: Fn(usize, Tank) -> Tank>(
    cone: K,
    strike: F,
    jet: usize,
    shooter: u64,
    all: Seq<(u64, Tank)>,
    takes: Seq<bool>,
    outs: Seq<Tank>,
    n: int,
) -> bool {
    takes.len() == n && outs.len() == n && forall|k: int|
        0 <= k < n ==> jet_takes(
            cone,
            strike,
            jet,
            shooter,
            (#[trigger] all[k]).0,
            all[k].1,
            takes[k],
            outs[k],
        )
}

/// One jet has washed over every tank it takes.
pub open spec fn tanks_by_jet<K: Fn(usize, Tank) -> bool, F: Fn(usize, Tank) -> Tank>(
    cone: K,
    strike: F,
    jet: usize,
    shooter: u64,
    contacts: Seq<u64>,
    afterburn: Scalar,
    at: Streamed,
    after: Streamed,
) -> bool {
    exists|all: Seq<(u64, Tank)>, takes: Seq<bool>, outs: Seq<Tank>|
        {
            &&& lists::<Tank>(at.pieces, all)
            &&& #[trigger] jet_each(
                cone,
                strike,
                jet,
                shooter,
                all,
                takes,
                outs,
                all.len() as int,
            )
            &&& after == tanks_washed(
                at,
                all,
                takes,
                outs,
                contacts,
                afterburn,
                all.len() as int,
            )
        }
}

/// The first `n` frogs of a list, those the stream takes washed over.
pub open spec fn frogs_washed(
    at: Streamed,
    all: Seq<(u64, Frog)>,
    takes: Seq<bool>,
    outs: Seq<Frog>,
    contacts: Seq<u64>,
    n: int,
) -> Streamed
    decreases n,
{
    if n <= 0 {
        at
    } else {
        let now = frogs_washed(at, all, takes, outs, contacts, n - 1);
        if takes[n - 1] {
            let id = all[n - 1].0;
            Streamed {
                pieces: now.pieces.insert(id, outs[n - 1].as_piece()),
                record: frog_wash_told(now.record, id, contacts, outs[n - 1]),
                touched: now.touched.push(id),
            }
        } else {
            now
        }
    }
}

/// What a jet does to each of the first `n` frogs of a list: a live one in
/// the cone is hurt, whoever's it is.
pub open spec fn jet_frogs<K: Fn(usize, Frog) -> bool, F: Fn(Frog) -> Frog>(
    cone: K,
    hurt: F,
    jet: usize,
    all: Seq<(u64, Frog)>,
    takes: Seq<bool>,
    outs: Seq<Frog>,
    n: int,
) -> bool {
    takes.len() == n && outs.len() == n && forall|k: int|
        0 <= k < n ==> {
            let g = (#[trigger] all[k]).1;
            &&& if g.dead {
                !takes[k]
            } else {
                call_ensures(cone, (jet, g), takes[k])
            }
            &&& takes[k] ==> call_ensures(hurt, (g,), outs[k])
        }
}

/// One jet has washed over every frog it takes.
pub open spec fn frogs_by_jet<K: Fn(usize, Frog) -> bool, F: Fn(Frog) -> Frog>(
    cone: K,
    hurt: F,
    jet: usize,
    contacts: Seq<u64>,
    at: Streamed,
    after: Streamed,
) -> bool {
    exists|all: Seq<(u64, Frog)>, takes: Seq<bool>, outs: Seq<Frog>|
        {
            &&& lists::<Frog>(at.pieces, all)
            &&& #[trigger] jet_frogs(cone, hurt, jet, all, takes, outs, all.len() as int)
            &&& after == frogs_washed(at, all, takes, outs, contacts, all.len() as int)
        }
}

/// A frame of the stream is a blow, and nothing else happens to the tank.
pub open spec fn strikes_well<F: Fn(usize, Tank) -> Tank>(strike: F) -> bool {
    &&& forall|j: usize, t: Tank| call_requires(strike, (j, t))
    &&& forall|j: usize, t: Tank, after: Tank| #[trigger]
        call_ensures(strike, (j, t), after) ==> took_blow(t, after)
}

/// A frame of the stream leaves a frog on its side.
pub open spec fn stays_frog<F: Fn(Frog) -> Frog>(hurt: F) -> bool {
    &&& forall|g: Frog| call_requires(hurt, (g,))
    &&& forall|g: Frog, after: Frog| #[trigger]
        call_ensures(hurt, (g,), after) ==> after.side == g.side
}

proof fn lemma_tanks_washed_same(
    at: Streamed,
    all: Seq<(u64, Tank)>,
    takes: Seq<bool>,
    more_takes: Seq<bool>,
    outs: Seq<Tank>,
    more_outs: Seq<Tank>,
    contacts: Seq<u64>,
    afterburn: Scalar,
    n: int,
)
    requires
        0 <= n <= takes.len(),
        n <= more_takes.len(),
        n <= outs.len(),
        n <= more_outs.len(),
        forall|i: int| 0 <= i < n ==> takes[i] == more_takes[i],
        forall|i: int| 0 <= i < n ==> outs[i] == more_outs[i],
    ensures
        tanks_washed(at, all, takes, outs, contacts, afterburn, n) == tanks_washed(
            at,
            all,
            more_takes,
            more_outs,
            contacts,
            afterburn,
            n,
        ),
    decreases n,
{
    if n > 0 {
        lemma_tanks_washed_same(
            at,
            all,
            takes,
            more_takes,
            outs,
            more_outs,
            contacts,
            afterburn,
            n - 1,
        );
    }
}

proof fn lemma_frogs_washed_same(
    at: Streamed,
    all: Seq<(u64, Frog)>,
    takes: Seq<bool>,
    more_takes: Seq<bool>,
    outs: Seq<Frog>,
    more_outs: Seq<Frog>,
    contacts: Seq<u64>,
    n: int,
)
    requires
        0 <= n <= takes.len(),
        n <= more_takes.len(),
        n <= outs.len(),
        n <= more_outs.len(),
        forall|i: int| 0 <= i < n ==> takes[i] == more_takes[i],
        forall|i: int| 0 <= i < n ==> outs[i] == more_outs[i],
    ensures
        frogs_washed(at, all, takes, outs, contacts, n) == frogs_washed(
            at,
            all,
            more_takes,
            more_outs,
            contacts,
            n,
        ),
    decreases n,
{
    if n > 0 {
        lemma_frogs_washed_same(at, all, takes, more_takes, outs, more_outs, contacts, n - 1);
    }
}

impl Game {
    /// One jet washes over the tanks in its cone. They join `touched`.
    pub fn stream_tanks<K: Fn(usize, Tank) -> bool, F: Fn(usize, Tank) -> Tank>(
        &mut self,
        f: &mut Frame,
        jet: usize,
        shooter: u64,
        afterburn: Scalar,
        touched: &mut Vec<u64>,
        cone: &K,
        strike: &F,
    )
        requires
            old(self).wf(),
            forall|j: usize, t: Tank| call_requires(*cone, (j, t)),
            strikes_well(*strike),
        ensures
            final(self).wf(),
            tanks_by_jet(
                *cone,
                *strike,
                jet,
                shooter,
                old(self).ground.flame_contacts@,
                afterburn,
                (Streamed {
                    pieces: old(self).field@,
                    record: old(f)@,
                    touched: old(touched)@,
                }),
                (Streamed {
                    pieces: final(self).field@,
                    record: final(f)@,
                    touched: final(touched)@,
                }),
            ),
            final(self).round == old(self).round,
            final(self).keeps_surroundings(old(self)),
            final(self).events == old(self).events,
    {
        let ghost start = Streamed { pieces: self.field@, record: f@, touched: touched@ };
        let ghost contacts = self.ground.flame_contacts@;
        let ghost mut takes: Seq<bool> = Seq::empty();
        let ghost mut outs: Seq<Tank> = Seq::empty();
        let all: Vec<(u64, Tank)> = self.field.all();
        let mut n: usize = 0;
        while n < all.len()
            invariant
                n <= all@.len(),
                start == (Streamed {
                    pieces: old(self).field@,
                    record: old(f)@,
                    touched: old(touched)@,
                }),
                lists::<Tank>(start.pieces, all@),
                contacts == old(self).ground.flame_contacts@,
                forall|j: usize, t: Tank| call_requires(*cone, (j, t)),
                strikes_well(*strike),
                self.wf(),
                self.round == old(self).round,
                self.keeps_surroundings(old(self)),
                self.events == old(self).events,
                forall|k: int|
                    n <= k < all@.len() ==> thing::<Tank>(self.field@, (#[trigger] all@[k]).0)
                        == Some(all@[k].1),
                jet_each(*cone, *strike, jet, shooter, all@, takes, outs, n as int),
                (Streamed { pieces: self.field@, record: f@, touched: touched@ })
                    == tanks_washed(start, all@, takes, outs, contacts, afterburn, n as int),
            decreases all@.len() - n,
        {
            let id: u64 = all[n].0;
            let t: Tank = all[n].1;
            let ghost before = self.field@;
            let ghost (were_taken, were) = (takes, outs);
            assert(thing::<Tank>(self.field@, all@[n as int].0) == Some(t));
            let can: bool = stream_takes(id, shooter, &t, true);
            let take: bool = can && cone(jet, t);
            let mut out: Tank = t;
            if take {
                out = strike(jet, t);
                let after: Tank = flame_tank(f, id, &self.ground.flame_contacts, out, afterburn);
                self.field.put(id, after);
                touched.push(id);
            }
            proof {
                takes = takes.push(take);
                outs = outs.push(out);
                lemma_tanks_washed_same(
                    start,
                    all@,
                    were_taken,
                    takes,
                    were,
                    outs,
                    contacts,
                    afterburn,
                    n as int,
                );
                assert(jet_takes(*cone, *strike, jet, shooter, id, t, take, out));
                let seats = self.round.seats@;
                assert forall|i: int| #![trigger seats[i]] 0 <= i < MAX_SEATS implies (
                seats[i] matches Some(e) ==> i < self.round.players.seated() && (thing::<Tank>(
                    self.field@,
                    e,
                ) matches Some(t) && t.owner == Owner::Player(i as u8) && t.mind is None)) by {
                    assert(seats[i] == old(self).round.seats@[i]);
                    if let Some(e) = seats[i] {
                        assert(thing::<Tank>(before, e) is Some);
                    }
                }
                assert forall|k: int| n + 1 <= k < all@.len() implies thing::<Tank>(
                    self.field@,
                    (#[trigger] all@[k]).0,
                ) == Some(all@[k].1) by {
                    assert(all@[k].0 != all@[n as int].0);
                }
            }
            n += 1;
        }
    }

    /// One jet washes over the frogs in its cone. They join `touched`.
    pub fn stream_frogs<K: Fn(usize, Frog) -> bool, F: Fn(Frog) -> Frog>(
        &mut self,
        f: &mut Frame,
        jet: usize,
        touched: &mut Vec<u64>,
        cone: &K,
        hurt: &F,
    )
        requires
            old(self).wf(),
            forall|j: usize, g: Frog| call_requires(*cone, (j, g)),
            stays_frog(*hurt),
        ensures
            final(self).wf(),
            frogs_by_jet(
                *cone,
                *hurt,
                jet,
                old(self).ground.flame_contacts@,
                (Streamed {
                    pieces: old(self).field@,
                    record: old(f)@,
                    touched: old(touched)@,
                }),
                (Streamed {
                    pieces: final(self).field@,
                    record: final(f)@,
                    touched: final(touched)@,
                }),
            ),
            final(self).round == old(self).round,
            final(self).keeps_surroundings(old(self)),
            final(self).events == old(self).events,
    {
        let ghost start = Streamed { pieces: self.field@, record: f@, touched: touched@ };
        let ghost contacts = self.ground.flame_contacts@;
        let ghost mut takes: Seq<bool> = Seq::empty();
        let ghost mut outs: Seq<Frog> = Seq::empty();
        let all: Vec<(u64, Frog)> = self.field.all();
        let mut n: usize = 0;
        while n < all.len()
            invariant
                n <= all@.len(),
                start == (Streamed {
                    pieces: old(self).field@,
                    record: old(f)@,
                    touched: old(touched)@,
                }),
                lists::<Frog>(start.pieces, all@),
                contacts == old(self).ground.flame_contacts@,
                forall|j: usize, g: Frog| call_requires(*cone, (j, g)),
                stays_frog(*hurt),
                self.wf(),
                self.round == old(self).round,
                self.keeps_surroundings(old(self)),
                self.events == old(self).events,
                forall|k: int|
                    n <= k < all@.len() ==> thing::<Frog>(self.field@, (#[trigger] all@[k]).0)
                        == Some(all@[k].1),
                jet_frogs(*cone, *hurt, jet, all@, takes, outs, n as int),
                (Streamed { pieces: self.field@, record: f@, touched: touched@ })
                    == frogs_washed(start, all@, takes, outs, contacts, n as int),
            decreases all@.len() - n,
        {
            let id: u64 = all[n].0;
            let g: Frog = all[n].1;
            let ghost before = self.field@;
            let ghost (were_taken, were) = (takes, outs);
            assert(thing::<Frog>(self.field@, all@[n as int].0) == Some(g));
            let take: bool = !g.dead && cone(jet, g);
            let mut out: Frog = g;
            if take {
                out = hurt(g);
                flame_frog(f, id, &self.ground.flame_contacts, &out);
                self.field.put(id, out);
                touched.push(id);
            }
            proof {
                takes = takes.push(take);
                outs = outs.push(out);
                lemma_frogs_washed_same(
                    start,
                    all@,
                    were_taken,
                    takes,
                    were,
                    outs,
                    contacts,
                    n as int,
                );
                let seats = self.round.seats@;
                assert forall|i: int| #![trigger seats[i]] 0 <= i < MAX_SEATS implies (
                seats[i] matches Some(e) ==> i < self.round.players.seated() && (thing::<Tank>(
                    self.field@,
                    e,
                ) matches Some(t) && t.owner == Owner::Player(i as u8) && t.mind is None)) by {
                    assert(seats[i] == old(self).round.seats@[i]);
                    if let Some(e) = seats[i] {
                        assert(thing::<Tank>(before, e) is Some);
                    }
                }
                assert forall|k: int| n + 1 <= k < all@.len() implies thing::<Frog>(
                    self.field@,
                    (#[trigger] all@[k]).0,
                ) == Some(all@[k].1) by {
                    assert(all@[k].0 != all@[n as int].0);
                }
            }
            n += 1;
        }
    }
}

/// A hull that goes on burning without a stream on it: alive, alight and not
/// touched this frame.
pub open spec fn goes_on_burning(t: Tank, entity: u64, touched: Seq<u64>) -> bool {
    !touched.contains(entity) && !t.wreck && Scalar::zero().below(t.burn_timer)
}

/// What the afterburn does to each of the first `n` tanks of a walk.
pub open spec fn afterburn_each<F: Fn(Tank) -> Tank>(
    strike: F,
    touched: Seq<u64>,
    pieces: Map<u64, Piece>,
    walk: Seq<u64>,
    hits: Seq<bool>,
    outs: Seq<Tank>,
    n: int,
) -> bool {
    hits.len() == n && outs.len() == n && forall|k: int|
        0 <= k < n ==> {
            let t = thing::<Tank>(pieces, #[trigger] walk[k])->0;
            &&& hits[k] == goes_on_burning(t, walk[k], touched)
            &&& hits[k] ==> call_ensures(strike, (t,), outs[k])
        }
}

/// Every tank still alight burnt on, players in seat order before the enemies.
pub open spec fn afterburnt<F: Fn(Tank) -> Tank>(
    strike: F,
    touched: Seq<u64>,
    seats: Seq<Option<u64>>,
    at: Scene,
    after: Scene,
) -> bool {
    exists|walk: Seq<u64>, hits: Seq<bool>, outs: Seq<Tank>|
        {
            &&& is_walk(seats, at.pieces, walk)
            &&& #[trigger] afterburn_each(
                strike,
                touched,
                at.pieces,
                walk,
                hits,
                outs,
                walk.len() as int,
            )
            &&& after == seared(at, walk, hits, outs, walk.len() as int)
        }
}

impl Game {
    /// A hull that no stream is on right now keeps burning at the lower rate.
    /// Contact already charges the full rate, so the two never stack.
    pub fn burn_on<F: Fn(Tank) -> Tank>(&mut self, f: &mut Frame, touched: &Vec<u64>, strike: &F)
        requires
            old(self).wf(),
            keeps_name(*strike),
        ensures
            final(self).wf(),
            afterburnt(
                *strike,
                touched@,
                old(self).round.seats@,
                (Scene { pieces: old(self).field@, record: old(f)@ }),
                (Scene { pieces: final(self).field@, record: final(f)@ }),
            ),
            final(self).round == old(self).round,
            final(self).keeps_surroundings(old(self)),
            final(self).events == old(self).events,
    {
        let ghost start = Scene { pieces: self.field@, record: f@ };
        let ghost mut hits: Seq<bool> = Seq::empty();
        let ghost mut outs: Seq<Tank> = Seq::empty();
        let walk: Vec<u64> = self.walk_order();
        proof {
            self.lemma_walk_there(walk@);
        }
        let mut n: usize = 0;
        while n < walk.len()
            invariant
                n <= walk@.len(),
                walk@.no_duplicates(),
                is_walk(old(self).round.seats@, start.pieces, walk@),
                start == (Scene { pieces: old(self).field@, record: old(f)@ }),
                forall|k: int|
                    0 <= k < walk@.len() ==> thing::<Tank>(
                        start.pieces,
                        #[trigger] walk@[k],
                    ) is Some,
                keeps_name(*strike),
                self.wf(),
                self.round == old(self).round,
                self.keeps_surroundings(old(self)),
                self.events == old(self).events,
                forall|k: int|
                    n <= k < walk@.len() ==> thing::<Tank>(self.field@, #[trigger] walk@[k])
                        == thing::<Tank>(start.pieces, walk@[k]),
                afterburn_each(
                    *strike,
                    touched@,
                    start.pieces,
                    walk@,
                    hits,
                    outs,
                    n as int,
                ),
                (Scene { pieces: self.field@, record: f@ }) == seared(
                    start,
                    walk@,
                    hits,
                    outs,
                    n as int,
                ),
            decreases walk@.len() - n,
        {
            let entity: u64 = walk[n];
            let ghost before = self.field@;
            let ghost (were_hit, were) = (hits, outs);
            assert(thing::<Tank>(self.field@, walk@[n as int]) == thing::<Tank>(
                start.pieces,
                walk@[n as int],
            ));
            assert(thing::<Tank>(start.pieces, walk@[n as int]) is Some);
            let found: Option<Tank> = self.field.get(entity);
            if let Some(t) = found {
                let hit: bool = afterburns(entity, &t, touched);
                let mut after: Tank = t;
                if hit {
                    after = strike(t);
                    self.field.put(entity, after);
                    if after.wreck {
                        f.kill(after.position, after.owner);
                    }
                }
                proof {
                    hits = hits.push(hit);
                    outs = outs.push(after);
                    lemma_seared_same(start, walk@, were_hit, hits, were, outs, n as int);
                    let seats = self.round.seats@;
                    assert forall|i: int| #![trigger seats[i]] 0 <= i < MAX_SEATS implies (
                    seats[i] matches Some(e) ==> i < self.round.players.seated() && (thing::<Tank>(
                        self.field@,
                        e,
                    ) matches Some(t) && t.owner == Owner::Player(i as u8) && t.mind is None)) by {
                        assert(seats[i] == old(self).round.seats@[i]);
                        if let Some(e) = seats[i] {
                            assert(thing::<Tank>(before, e) is Some);
                        }
                    }
                    assert forall|k: int| n + 1 <= k < walk@.len() implies thing::<Tank>(
                        self.field@,
                        #[trigger] walk@[k],
                    ) == thing::<Tank>(start.pieces, walk@[k]) by {
                        assert(walk@[k] != walk@[n as int]);
                    }
                }
            }
            n += 1;
        }
    }
}

/// A standing tile covers the cell.
pub open spec fn covered(pieces: Map<u64, Piece>, cell: Cell) -> bool {
    exists|id: u64|
        (#[trigger] thing::<Tile>(pieces, id)) matches Some(t) && !t.destroyed && t.cell == cell
}

/// A list holds the cells that standing tiles cover, and no others.
pub open spec fn covers(pieces: Map<u64, Piece>, cells: Seq<Cell>) -> bool {
    forall|c: Cell| #[trigger] cells.contains(c) <==> covered(pieces, c)
}

/// Each of the cells has its flare.
pub open spec fn flares_of<G: Fn(Cell) -> Flare>(
    flare: G,
    cells: Seq<Cell>,
    flares: Seq<Flare>,
) -> bool {
    flares.len() == cells.len() && forall|k: int|
        0 <= k < cells.len() ==> call_ensures(flare, (cells[k],), #[trigger] flares[k])
}

/// Any cell can flare; one on the field has a neighbour on every side.
pub open spec fn flares_well<G: Fn(Cell) -> Flare>(flare: G) -> bool {
    &&& forall|c: Cell| call_requires(flare, (c,))
    &&& forall|c: Cell, z: Flare| #[trigger]
        call_ensures(flare, (c,), z) ==> z.cell == c && (z.on_field ==> c.interior())
}

/// How long the stream and the ground it lights burn.
#[derive(Clone, Copy, Debug, PartialEq, Eq, Structural)]
pub struct GroundFlame {
    /// Exposure at which a cell lights.
    pub ignite: Scalar,
    /// How long a lit trail cell burns, and plain ground.
    pub trail_seconds: Scalar,
    pub ground_seconds: Scalar,
}

/// The ground took the streams' heat, and what reached the threshold lit. A
/// cell under a standing tile never lights as ground.
pub open spec fn ground_exposed<G: Fn(Cell) -> Flare>(
    flare: G,
    before: Game,
    f: Record,
    warmed: Seq<Hot>,
    cooled: Seq<Hot>,
    limits: GroundFlame,
    after: Game,
    f_after: Record,
) -> bool {
    exists|solid: Seq<Cell>, lit: Seq<Cell>, flares: Seq<Flare>|
        {
            &&& #[trigger] covers(before.field@, solid)
            &&& exposed(
                before.ground.heat@,
                warmed,
                cooled,
                solid,
                limits.ignite,
                after.ground.heat@,
                lit,
            )
            &&& #[trigger] flares_of(flare, lit, flares)
            &&& (after.ground.fires@, f_after) == flared(
                before.ground.fires@,
                f,
                flares,
                before.ground.oil@,
                limits.trail_seconds,
                limits.ground_seconds,
                flares.len() as int,
            )
        }
}

proof fn lemma_flares_keep(
    fires: Seq<crate::props::GroundFire>,
    f: Record,
    flares: Seq<Flare>,
    oil: Seq<Cell>,
    trail: Scalar,
    ground: Scalar,
    n: int,
)
    requires
        0 <= n <= flares.len(),
        fires_inside(fires),
        forall|k: int|
            0 <= k < n ==> ((#[trigger] flares[k]).on_field ==> flares[k].cell.interior()),
    ensures
        fires_inside(flared(fires, f, flares, oil, trail, ground, n).0),
    decreases n,
{
    if n > 0 {
        lemma_flares_keep(fires, f, flares, oil, trail, ground, n - 1);
        let now = flared(fires, f, flares, oil, trail, ground, n - 1).0;
        let next = flared(fires, f, flares, oil, trail, ground, n).0;
        assert forall|i: int| 0 <= i < next.len() implies (#[trigger] next[i]).cell.interior() by {
            if i < now.len() {
                assert(next[i] == now[i]);
            }
        }
    }
}

impl Game {
    /// The cells that standing tiles cover.
    pub fn standing_cells(&self) -> (cells: Vec<Cell>)
        ensures
            covers(self.field@, cells@),
    {
        let all: Vec<(u64, Tile)> = self.field.all();
        let mut cells: Vec<Cell> = Vec::new();
        let mut n: usize = 0;
        while n < all.len()
            invariant
                n <= all@.len(),
                lists::<Tile>(self.field@, all@),
                forall|i: int|
                    0 <= i < n && !(#[trigger] all@[i]).1.destroyed ==> cells@.contains(
                        all@[i].1.cell,
                    ),
                forall|j: int|
                    0 <= j < cells@.len() ==> covered(self.field@, #[trigger] cells@[j]),
            decreases all@.len() - n,
        {
            let ghost were = cells@;
            let t: Tile = all[n].1;
            if !t.destroyed {
                cells.push(t.cell);
                proof {
                    assert(thing::<Tile>(self.field@, all@[n as int].0) == Some(t));
                    assert(cells@[were.len() as int] == t.cell);
                    assert forall|i: int|
                        0 <= i < n + 1 && !(
                        #[trigger] all@[i]).1.destroyed implies cells@.contains(
                        all@[i].1.cell,
                    ) by {
                        if i < n {
                            let j = choose|j: int|
                                0 <= j < were.len() && were[j] == all@[i].1.cell;
                            assert(cells@[j] == all@[i].1.cell);
                        }
                    }
                }
            }
            n += 1;
        }
        proof {
            assert forall|c: Cell| #[trigger] cells@.contains(c) <==> covered(self.field@, c) by {
                if covered(self.field@, c) {
                    let id = choose|id: u64|
                        (#[trigger] thing::<Tile>(self.field@, id)) matches Some(t) && !t.destroyed
                            && t.cell == c;
                    let i = choose|i: int| 0 <= i < all@.len() && (#[trigger] all@[i]).0 == id;
                    assert(all@[i].1.cell == c);
                }
            }
        }
        cells
    }

    /// Let the streams at the ground. `warmed` holds the cells a stream is on
    /// with a frame of exposure added, `cooled` every exposed cell with the
    /// decay taken off.
    pub fn expose_cells<G: Fn(Cell) -> Flare>(
        &mut self,
        f: &mut Frame,
        warmed: &Vec<Hot>,
        cooled: &Vec<Hot>,
        limits: GroundFlame,
        flare: &G,
    )
        requires
            old(self).wf(),
            fires_inside(old(self).ground.fires@),
            flares_well(*flare),
        ensures
            final(self).wf(),
            fires_inside(final(self).ground.fires@),
            ground_exposed(
                *flare,
                *old(self),
                old(f)@,
                warmed@,
                cooled@,
                limits,
                *final(self),
                final(f)@,
            ),
            final(self).ground == (crate::game::Ground {
                fires: final(self).ground.fires,
                heat: final(self).ground.heat,
                ..old(self).ground
            }),
            final(self).round == old(self).round,
            final(self).field == old(self).field,
            final(self).pack == old(self).pack,
            final(self).show == old(self).show,
            final(self).events == old(self).events,
            final(self).debug_kills == old(self).debug_kills,
    {
        let solid: Vec<Cell> = self.standing_cells();
        let lit: Vec<Cell> = expose_ground(
            &mut self.ground.heat,
            warmed,
            cooled,
            &solid,
            limits.ignite,
        );
        let mut flares: Vec<Flare> = Vec::new();
        let mut n: usize = 0;
        while n < lit.len()
            invariant
                n <= lit@.len(),
                flares@.len() == n,
                flares_well(*flare),
                forall|k: int|
                    0 <= k < n ==> call_ensures(*flare, (lit@[k],), #[trigger] flares@[k]),
            decreases lit@.len() - n,
        {
            flares.push(flare(lit[n]));
            n += 1;
        }
        ignite_cells(
            &mut self.ground.fires,
            f,
            &flares,
            &self.ground.oil,
            limits.trail_seconds,
            limits.ground_seconds,
        );
        proof {
            assert(flares_of(*flare, lit@, flares@));
            lemma_flares_keep(
                old(self).ground.fires@,
                old(f)@,
                flares@,
                self.ground.oil@,
                limits.trail_seconds,
                limits.ground_seconds,
                flares@.len() as int,
            );
        }
    }
}

/// Each of the first `n` tiles as the host measured it.
pub open spec fn flames_of<M: Fn(Tile) -> TileFlame>(
    measure: M,
    all: Seq<(u64, Tile)>,
    flames: Seq<TileFlame>,
    n: int,
) -> bool {
    flames.len() == n && forall|k: int|
        0 <= k < n ==> call_ensures(measure, (all[k].1,), #[trigger] flames[k])
}

/// The field with the first `n` tiles warmed, cooled or lit.
pub open spec fn tiles_streamed(
    pieces: Map<u64, Piece>,
    all: Seq<(u64, Tile)>,
    flames: Seq<TileFlame>,
    limits: FlameLimits,
    n: int,
) -> Map<u64, Piece>
    decreases n,
{
    if n <= 0 {
        pieces
    } else {
        tiles_streamed(pieces, all, flames, limits, n - 1).insert(
            all[n - 1].0,
            tile_flamed(all[n - 1].1, flames[n - 1], limits).0.as_piece(),
        )
    }
}

/// An event names a tile the stream did something to.
pub open spec fn scorch_told(f: Record, t: Tile, what: Scorched) -> Record {
    match what.word() {
        Some(what) => f.with_event(Event::Ignited { x: t.position.x, y: t.position.y, what }),
        None => f,
    }
}

/// The tile collapses under the stream.
pub open spec fn gives_way(what: Scorched) -> bool {
    what is Sandbag || what is Fence
}

/// The record with those of the first `n` tiles that caught.
pub open spec fn ignitions(
    f: Record,
    all: Seq<(u64, Tile)>,
    flames: Seq<TileFlame>,
    limits: FlameLimits,
    n: int,
) -> Record
    decreases n,
{
    if n <= 0 {
        f
    } else {
        let now = ignitions(f, all, flames, limits, n - 1);
        let (t, what) = tile_flamed(all[n - 1].1, flames[n - 1], limits);
        if gives_way(what) {
            now
        } else {
            scorch_told(now, t, what)
        }
    }
}

/// A tile that is to collapse: which, as it is now, and what it is.
pub type Falling = (u64, Tile, Scorched);

/// Those of the first `n` tiles that collapse.
pub open spec fn falling(
    all: Seq<(u64, Tile)>,
    flames: Seq<TileFlame>,
    limits: FlameLimits,
    n: int,
) -> Seq<Falling>
    decreases n,
{
    if n <= 0 {
        Seq::empty()
    } else {
        let now = falling(all, flames, limits, n - 1);
        let (t, what) = tile_flamed(all[n - 1].1, flames[n - 1], limits);
        if gives_way(what) {
            now.push((all[n - 1].0, t, what))
        } else {
            now
        }
    }
}

/// The first `n` collapses: each is announced and takes the blow of the fire.
pub open spec fn collapsed(
    at: Scene,
    falls: Seq<Falling>,
    outs: Seq<(Tile, bool)>,
    n: int,
) -> Scene
    decreases n,
{
    if n <= 0 {
        at
    } else {
        let now = collapsed(at, falls, outs, n - 1);
        let (id, t, what) = falls[n - 1];
        let (after, died) = outs[n - 1];
        let told = scorch_told(now.record, t, what);
        Scene {
            pieces: now.pieces.insert(id, after.as_piece()),
            record: if died {
                mourned(
                    told,
                    DeadTile {
                        material: after.material,
                        drum: after.drum,
                        position: after.position,
                        chained: false,
                        charred: false,
                        shape: shape_of(DamageCause::Fire),
                    },
                )
            } else {
                told
            },
        }
    }
}

/// What the fire's blow may make of a tile.
pub open spec fn may_fall<C: Fn(Tile) -> Blow>(wear: C, t: Tile, out: (Tile, bool)) -> bool {
    exists|b: Blow, heads: bool| #[trigger]
        call_ensures(wear, (t,), b) && out == #[trigger] blow(t, b, DamageCause::Fire, heads)
}

/// What the fire's blow made of each of the first `n` collapsing tiles.
pub open spec fn falls_each<C: Fn(Tile) -> Blow>(
    wear: C,
    falls: Seq<Falling>,
    outs: Seq<(Tile, bool)>,
    n: int,
) -> bool {
    outs.len() == n && forall|k: int|
        0 <= k < n ==> may_fall(wear, (#[trigger] falls[k]).1, outs[k])
}

/// The streams have had their way with the tiles of a list.
pub open spec fn tiles_done<M: Fn(Tile) -> TileFlame, C: Fn(Tile) -> Blow>(
    measure: M,
    wear: C,
    limits: FlameLimits,
    at: Scene,
    after: Scene,
    all: Seq<(u64, Tile)>,
    flames: Seq<TileFlame>,
    outs: Seq<(Tile, bool)>,
) -> bool {
    let n = all.len() as int;
    let falls = falling(all, flames, limits, n);
    &&& lists::<Tile>(at.pieces, all)
    &&& flames_of(measure, all, flames, n)
    &&& falls_each(wear, falls, outs, falls.len() as int)
    &&& after == collapsed(
        Scene {
            pieces: tiles_streamed(at.pieces, all, flames, limits, n),
            record: ignitions(at.record, all, flames, limits, n),
        },
        falls,
        outs,
        falls.len() as int,
    )
}

/// The streams have had their way with every tile.
pub open spec fn tiles_by_streams<M: Fn(Tile) -> TileFlame, C: Fn(Tile) -> Blow>(
    measure: M,
    wear: C,
    limits: FlameLimits,
    at: Scene,
    after: Scene,
) -> bool {
    exists|all: Seq<(u64, Tile)>, flames: Seq<TileFlame>, outs: Seq<(Tile, bool)>| #[trigger]
        tiles_done(measure, wear, limits, at, after, all, flames, outs)
}

/// The list's tiles are all of the tiles, so only tiles have changed.
spec fn only_tiles(before: Map<u64, Piece>, after: Map<u64, Piece>) -> bool {
    &&& after.dom() == before.dom()
    &&& forall|id: u64| #[trigger]
        before.contains_key(id) && thing::<Tile>(before, id) is None ==> after[id] == before[id]
}

proof fn lemma_streamed_same(
    pieces: Map<u64, Piece>,
    f: Record,
    all: Seq<(u64, Tile)>,
    a: Seq<TileFlame>,
    b: Seq<TileFlame>,
    limits: FlameLimits,
    n: int,
)
    requires
        0 <= n <= a.len(),
        n <= b.len(),
        forall|i: int| 0 <= i < n ==> a[i] == b[i],
    ensures
        tiles_streamed(pieces, all, a, limits, n) == tiles_streamed(pieces, all, b, limits, n),
        ignitions(f, all, a, limits, n) == ignitions(f, all, b, limits, n),
        falling(all, a, limits, n) == falling(all, b, limits, n),
    decreases n,
{
    if n > 0 {
        lemma_streamed_same(pieces, f, all, a, b, limits, n - 1);
    }
}

proof fn lemma_collapsed_same(
    at: Scene,
    falls: Seq<Falling>,
    a: Seq<(Tile, bool)>,
    b: Seq<(Tile, bool)>,
    n: int,
)
    requires
        0 <= n <= a.len(),
        n <= b.len(),
        forall|i: int| 0 <= i < n ==> a[i] == b[i],
    ensures
        collapsed(at, falls, a, n) == collapsed(at, falls, b, n),
    decreases n,
{
    if n > 0 {
        lemma_collapsed_same(at, falls, a, b, n - 1);
    }
}

fn tell_scorch(f: &mut Frame, t: &Tile, what: Scorched)
    ensures
        final(f)@ == scorch_told(old(f)@, *t, what),
{
    if let Some(what) = what.what() {
        f.record(Event::Ignited { x: t.position.x, y: t.position.y, what });
    }
}

impl Game {
    /// Let the streams at the tiles: those that catch are announced first, and
    /// after them each one that collapses, which takes the fire's blow.
    pub fn stream_tiles<M: Fn(Tile) -> TileFlame, C: Fn(Tile) -> Blow>(
        &mut self,
        f: &mut Frame,
        limits: FlameLimits,
        measure: &M,
        wear: &C,
        one_shot: &Bernoulli,
        rng: &mut SmallRng,
    )
        requires
            old(self).wf(),
            forall|t: Tile| call_requires(*measure, (t,)),
            forall|t: Tile| call_requires(*wear, (t,)),
        ensures
            final(self).wf(),
            tiles_by_streams(
                *measure,
                *wear,
                limits,
                (Scene { pieces: old(self).field@, record: old(f)@ }),
                (Scene { pieces: final(self).field@, record: final(f)@ }),
            ),
            *final(rng) == *old(rng),
            final(self).round == old(self).round,
            final(self).keeps_surroundings(old(self)),
            final(self).events == old(self).events,
    {
        let ghost start = self.field@;
        let ghost mut flames: Seq<TileFlame> = Seq::empty();
        let all: Vec<(u64, Tile)> = self.field.all();
        let mut falls: Vec<Falling> = Vec::new();
        let mut n: usize = 0;
        while n < all.len()
            invariant
                n <= all@.len(),
                start == old(self).field@,
                lists::<Tile>(start, all@),
                forall|t: Tile| call_requires(*measure, (t,)),
                self.field.wf(),
                self.round == old(self).round,
                self.keeps_surroundings(old(self)),
                self.events == old(self).events,
                only_tiles(start, self.field@),
                flames_of(*measure, all@, flames, n as int),
                self.field@ == tiles_streamed(start, all@, flames, limits, n as int),
                f@ == ignitions(old(f)@, all@, flames, limits, n as int),
                falls@ == falling(all@, flames, limits, n as int),
                forall|k: int|
                    0 <= k < falls@.len() ==> thing::<Tile>(start, (#[trigger] falls@[k]).0)
                        is Some,
            decreases all@.len() - n,
        {
            let id: u64 = all[n].0;
            let t: Tile = all[n].1;
            let ghost were = flames;
            let ghost before = self.field@;
            assert(thing::<Tile>(start, all@[n as int].0) == Some(t));
            assert(start.contains_key(id));
            let flame: TileFlame = measure(t);
            let (after, what): (Tile, Scorched) = flame_tile(t, &flame, &limits);
            self.field.put(id, after);
            let gives: bool = match what {
                Scorched::Sandbag | Scorched::Fence => true,
                _ => false,
            };
            if gives {
                falls.push((id, after, what));
            } else {
                tell_scorch(f, &after, what);
            }
            proof {
                flames = flames.push(flame);
                lemma_streamed_same(start, old(f)@, all@, were, flames, limits, n as int);
                assert(self.field@.dom() =~= start.dom());
            }
            n += 1;
        }
        let ghost at = Scene { pieces: self.field@, record: f@ };
        let ghost mut outs: Seq<(Tile, bool)> = Seq::empty();
        let mut k: usize = 0;
        while k < falls.len()
            invariant
                k <= falls@.len(),
                start == old(self).field@,
                *rng == *old(rng),
                forall|t: Tile| call_requires(*wear, (t,)),
                self.field.wf(),
                self.round == old(self).round,
                self.keeps_surroundings(old(self)),
                self.events == old(self).events,
                only_tiles(start, self.field@),
                forall|k: int|
                    0 <= k < falls@.len() ==> thing::<Tile>(start, (#[trigger] falls@[k]).0)
                        is Some,
                falls_each(*wear, falls@, outs, k as int),
                (Scene { pieces: self.field@, record: f@ }) == collapsed(
                    at,
                    falls@,
                    outs,
                    k as int,
                ),
            decreases falls@.len() - k,
        {
            let ghost were = outs;
            let (id, t, what): Falling = falls[k];
            assert(thing::<Tile>(start, falls@[k as int].0) is Some);
            assert(start.contains_key(id));
            tell_scorch(f, &t, what);
            let b: Blow = wear(t);
            let (after, died): (Tile, bool) = damage_obstacle(
                t,
                &b,
                DamageCause::Fire,
                one_shot,
                rng,
            );
            self.field.put(id, after);
            if died {
                obstacle_died(
                    f,
                    DeadTile {
                        material: after.material,
                        drum: after.drum,
                        position: after.position,
                        chained: false,
                        charred: false,
                        shape: shape_of(DamageCause::Fire),
                    },
                );
            }
            proof {
                assert(call_ensures(*wear, (t,), b));
                assert((after, died) == blow(t, b, DamageCause::Fire, true) || (after, died)
                    == blow(t, b, DamageCause::Fire, false));
                assert(may_fall(*wear, t, (after, died)));
                outs = outs.push((after, died));
                lemma_collapsed_same(at, falls@, were, outs, k as int);
                assert(self.field@.dom() =~= start.dom());
            }
            k += 1;
        }
        proof {
            let seats = self.round.seats@;
            assert forall|i: int| #![trigger seats[i]] 0 <= i < MAX_SEATS implies (
            seats[i] matches Some(e) ==> i < self.round.players.seated() && (thing::<Tank>(
                self.field@,
                e,
            ) matches Some(t) && t.owner == Owner::Player(i as u8) && t.mind is None)) by {
                assert(seats[i] == old(self).round.seats@[i]);
                if let Some(e) = seats[i] {
                    assert(thing::<Tank>(start, e) is Some);
                    assert(start.contains_key(e));
                }
            }
            if let Some(e) = self.round.frog {
                assert(start.contains_key(e));
            }
            if let Some(e) = self.round.enemy_frog {
                assert(start.contains_key(e));
            }
            assert(tiles_done(
                *measure,
                *wear,
                limits,
                Scene { pieces: start, record: old(f)@ },
                Scene { pieces: self.field@, record: f@ },
                all@,
                flames,
                outs,
            ));
        }
    }
}

/// One jet has washed over everyone it takes: the tanks, and after them the
/// frogs if the stream hurts frogs at all.
pub open spec fn jet_done<
    K: Fn(usize, Tank) -> bool,
    F: Fn(usize, Tank) -> Tank,
    Q: Fn(usize, Frog) -> bool,
    H: Fn(Frog) -> Frog,
>(
    cone: K,
    strike: F,
    frog_cone: Q,
    hurt: H,
    frogs_burn: bool,
    jet: usize,
    shooter: u64,
    contacts: Seq<u64>,
    afterburn: Scalar,
    at: Streamed,
    mid: Streamed,
    after: Streamed,
) -> bool {
    &&& tanks_by_jet(cone, strike, jet, shooter, contacts, afterburn, at, mid)
    &&& if frogs_burn {
        frogs_by_jet(frog_cone, hurt, jet, contacts, mid, after)
    } else {
        after == mid
    }
}

/// The first `n` jets have washed over everyone they take, one after another.
pub open spec fn jets_done<
    K: Fn(usize, Tank) -> bool,
    F: Fn(usize, Tank) -> Tank,
    Q: Fn(usize, Frog) -> bool,
    H: Fn(Frog) -> Frog,
>(
    cone: K,
    strike: F,
    frog_cone: Q,
    hurt: H,
    frogs_burn: bool,
    jets: Seq<u64>,
    contacts: Seq<u64>,
    afterburn: Scalar,
    stages: Seq<Streamed>,
    mids: Seq<Streamed>,
    n: int,
) -> bool {
    &&& stages.len() == n + 1
    &&& mids.len() == n
    &&& forall|j: int|
        0 <= j < n ==> jet_done(
            cone,
            strike,
            frog_cone,
            hurt,
            frogs_burn,
            j as usize,
            jets[j],
            contacts,
            afterburn,
            stages[j],
            #[trigger] mids[j],
            stages[j + 1],
        )
}

/// How the streams burn this frame.
#[derive(Clone, Copy, Debug, PartialEq, Eq, Structural)]
pub struct StreamRules {
    /// Seconds a hull goes on burning once the stream is off it.
    pub afterburn: Scalar,
    /// Whether the stream hurts frogs at all.
    pub frogs_burn: bool,
    /// Whether the afterburn hurts at all.
    pub burns_on: bool,
    pub ground: GroundFlame,
    pub tiles: FlameLimits,
    /// The air shimmers every so many frames.
    pub shimmer_every: u64,
}

impl StreamRules {
    /// The air shimmers on this frame.
    pub open spec fn shimmers(self, frame: u64) -> bool {
        frame as int % (if self.shimmer_every == 0 {
            1int
        } else {
            self.shimmer_every as int
        }) == 0
    }
}

/// A frame of flamethrowers, by way of how things stood after each jet, once
/// the hulls had burnt on, and once the ground had taken the heat.
pub open spec fn flame_frame<
    K: Fn(usize, Tank) -> bool,
    F: Fn(usize, Tank) -> Tank,
    Q: Fn(usize, Frog) -> bool,
    H: Fn(Frog) -> Frog,
    A: Fn(Tank) -> Tank,
    G: Fn(Cell) -> Flare,
    M: Fn(Tile) -> TileFlame,
    C: Fn(Tile) -> Blow,
>(
    cone: K,
    strike: F,
    frog_cone: Q,
    hurt: H,
    smoulder: A,
    flare: G,
    measure: M,
    wear: C,
    rules: StreamRules,
    jets: Seq<u64>,
    warmed: Seq<Hot>,
    cooled: Seq<Hot>,
    before: Game,
    f: Record,
    stages: Seq<Streamed>,
    mids: Seq<Streamed>,
    cold: Game,
    cold_f: Record,
    warm: Game,
    warm_f: Record,
    after: Game,
    f_after: Record,
) -> bool {
    let last = stages[jets.len() as int];
    let streamed = Scene { pieces: last.pieces, record: last.record };
    &&& jets_done(
        cone,
        strike,
        frog_cone,
        hurt,
        rules.frogs_burn,
        jets,
        before.ground.flame_contacts@,
        rules.afterburn,
        stages,
        mids,
        jets.len() as int,
    )
    &&& stages[0] == (Streamed { pieces: before.field@, record: f, touched: Seq::empty() })
    &&& if rules.burns_on {
        afterburnt(
            smoulder,
            last.touched,
            before.round.seats@,
            streamed,
            Scene { pieces: cold.field@, record: cold_f },
        )
    } else {
        streamed == (Scene { pieces: cold.field@, record: cold_f })
    }
    &&& cold.ground == (crate::game::Ground {
        flame_contacts: cold.ground.flame_contacts,
        ..before.ground
    })
    &&& cold.ground.flame_contacts@ == last.touched
    &&& ground_exposed(flare, cold, cold_f, warmed, cooled, rules.ground, warm, warm_f)
    &&& warm.field == cold.field
    &&& tiles_by_streams(
        measure,
        wear,
        rules.tiles,
        Scene { pieces: warm.field@, record: warm_f },
        Scene { pieces: after.field@, record: f_after },
    )
    &&& after.ground == (crate::game::Ground {
        fires: warm.ground.fires,
        heat: warm.ground.heat,
        ..cold.ground
    })
}

impl Game {
    /// A frame of flamethrowers: each jet in turn washes over the tanks and
    /// frogs in its cone, hulls still alight burn on, the ground and the tiles
    /// take the heat. Nothing is rolled. `jets` is whose streams they are, in
    /// order. Returns whether the air shimmers at the nozzles this frame.
    pub fn resolve_flames<
        K: Fn(usize, Tank) -> bool,
        F: Fn(usize, Tank) -> Tank,
        Q: Fn(usize, Frog) -> bool,
        H: Fn(Frog) -> Frog,
        A: Fn(Tank) -> Tank,
        G: Fn(Cell) -> Flare,
        M: Fn(Tile) -> TileFlame,
        C: Fn(Tile) -> Blow,
    >(
        &mut self,
        f: &mut Frame,
        rules: StreamRules,
        jets: &Vec<u64>,
        warmed: &Vec<Hot>,
        cooled: &Vec<Hot>,
        cone: &K,
        strike: &F,
        frog_cone: &Q,
        hurt: &H,
        smoulder: &A,
        flare: &G,
        measure: &M,
        wear: &C,
        one_shot: &Bernoulli,
        rng: &mut SmallRng,
    ) -> (shimmer: bool)
        requires
            old(self).wf(),
            fires_inside(old(self).ground.fires@),
            forall|j: usize, t: Tank| call_requires(*cone, (j, t)),
            strikes_well(*strike),
            forall|j: usize, g: Frog| call_requires(*frog_cone, (j, g)),
            stays_frog(*hurt),
            keeps_name(*smoulder),
            flares_well(*flare),
            forall|t: Tile| call_requires(*measure, (t,)),
            forall|t: Tile| call_requires(*wear, (t,)),
        ensures
            final(self).wf(),
            fires_inside(final(self).ground.fires@),
            exists|
                stages: Seq<Streamed>,
                mids: Seq<Streamed>,
                cold: Game,
                cold_f: Record,
                warm: Game,
                warm_f: Record,
            | #[trigger]
                flame_frame(
                    *cone,
                    *strike,
                    *frog_cone,
                    *hurt,
                    *smoulder,
                    *flare,
                    *measure,
                    *wear,
                    rules,
                    jets@,
                    warmed@,
                    cooled@,
                    *old(self),
                    old(f)@,
                    stages,
                    mids,
                    cold,
                    cold_f,
                    warm,
                    warm_f,
                    *final(self),
                    final(f)@,
                ),
            shimmer == rules.shimmers(old(self).round.frame),
            *final(rng) == *old(rng),
            final(self).round == old(self).round,
            final(self).pack == old(self).pack,
            final(self).show == old(self).show,
            final(self).events == old(self).events,
            final(self).debug_kills == old(self).debug_kills,
    {
        let mut touched: Vec<u64> = Vec::new();
        let ghost contacts = self.ground.flame_contacts@;
        let ghost mut stages: Seq<Streamed> = seq![
            Streamed { pieces: self.field@, record: f@, touched: touched@ },
        ];
        let ghost mut mids: Seq<Streamed> = Seq::empty();
        let mut n: usize = 0;
        while n < jets.len()
            invariant
                n <= jets@.len(),
                contacts == old(self).ground.flame_contacts@,
                forall|j: usize, t: Tank| call_requires(*cone, (j, t)),
                strikes_well(*strike),
                forall|j: usize, g: Frog| call_requires(*frog_cone, (j, g)),
                stays_frog(*hurt),
                self.wf(),
                self.round == old(self).round,
                self.keeps_surroundings(old(self)),
                self.events == old(self).events,
                jets_done(
                    *cone,
                    *strike,
                    *frog_cone,
                    *hurt,
                    rules.frogs_burn,
                    jets@,
                    contacts,
                    rules.afterburn,
                    stages,
                    mids,
                    n as int,
                ),
                stages[0] == (Streamed {
                    pieces: old(self).field@,
                    record: old(f)@,
                    touched: Seq::empty(),
                }),
                stages[n as int] == (Streamed {
                    pieces: self.field@,
                    record: f@,
                    touched: touched@,
                }),
            decreases jets@.len() - n,
        {
            let ghost (were, were_mid) = (stages, mids);
            self.stream_tanks(f, n, jets[n], rules.afterburn, &mut touched, cone, strike);
            let ghost mid = Streamed { pieces: self.field@, record: f@, touched: touched@ };
            if rules.frogs_burn {
                self.stream_frogs(f, n, &mut touched, frog_cone, hurt);
            }
            proof {
                let next = Streamed { pieces: self.field@, record: f@, touched: touched@ };
                mids = mids.push(mid);
                stages = stages.push(next);
                assert forall|j: int| 0 <= j < n + 1 implies jet_done(
                    *cone,
                    *strike,
                    *frog_cone,
                    *hurt,
                    rules.frogs_burn,
                    j as usize,
                    jets@[j],
                    contacts,
                    rules.afterburn,
                    stages[j],
                    #[trigger] mids[j],
                    stages[j + 1],
                ) by {
                    if j < n {
                        assert(mids[j] == were_mid[j]);
                        assert(stages[j] == were[j]);
                        assert(stages[j + 1] == were[j + 1]);
                    }
                }
            }
            n += 1;
        }
        if rules.burns_on {
            self.burn_on(f, &touched, smoulder);
        }
        self.ground.flame_contacts = touched;
        let ghost (cold, cold_f) = (*self, f@);
        self.expose_cells(f, warmed, cooled, rules.ground, flare);
        let ghost (warm, warm_f) = (*self, f@);
        self.stream_tiles(f, rules.tiles, measure, wear, one_shot, rng);
        assert(flame_frame(
            *cone,
            *strike,
            *frog_cone,
            *hurt,
            *smoulder,
            *flare,
            *measure,
            *wear,
            rules,
            jets@,
            warmed@,
            cooled@,
            *old(self),
            old(f)@,
            stages,
            mids,
            cold,
            cold_f,
            warm,
            warm_f,
            *self,
            f@,
        ));
        let every: u64 = if rules.shimmer_every == 0 {
            1
        } else {
            rules.shimmer_every
        };
        self.round.frame % every == 0
    }
}

/// Contact and afterburn never stack: a tank a stream touched this frame is
/// left as the stream left it.
pub proof fn contact_and_afterburn_never_stack<F: Fn(Tank) -> Tank>(
    strike: F,
    touched: Seq<u64>,
    seats: Seq<Option<u64>>,
    at: Scene,
    after: Scene,
    id: u64,
)
    requires
        afterburnt(strike, touched, seats, at, after),
        touched.contains(id),
    ensures
        thing::<Tank>(after.pieces, id) == thing::<Tank>(at.pieces, id),
{
    let (walk, hits, outs) = choose|walk: Seq<u64>, hits: Seq<bool>, outs: Seq<Tank>|
        {
            &&& is_walk(seats, at.pieces, walk)
            &&& #[trigger] afterburn_each(
                strike,
                touched,
                at.pieces,
                walk,
                hits,
                outs,
                walk.len() as int,
            )
            &&& after == seared(at, walk, hits, outs, walk.len() as int)
        };
    lemma_unseared(at, walk, hits, outs, id, walk.len() as int);
}

proof fn lemma_unseared(
    at: Scene,
    walk: Seq<u64>,
    hits: Seq<bool>,
    outs: Seq<Tank>,
    id: u64,
    n: int,
)
    requires
        0 <= n <= walk.len(),
        forall|k: int| 0 <= k < n && #[trigger] walk[k] == id ==> !hits[k],
    ensures
        thing::<Tank>(seared(at, walk, hits, outs, n).pieces, id) == thing::<Tank>(at.pieces, id),
    decreases n,
{
    if n > 0 {
        lemma_unseared(at, walk, hits, outs, id, n - 1);
        assert(walk[n - 1] == id ==> !hits[n - 1]);
    }
}

proof fn lemma_tanks_washed(
    at: Streamed,
    all: Seq<(u64, Tank)>,
    takes: Seq<bool>,
    outs: Seq<Tank>,
    contacts: Seq<u64>,
    afterburn: Scalar,
    n: int,
    k: int,
)
    requires
        0 <= k < all.len(),
        0 <= n <= all.len(),
        forall|i: int, j: int|
            0 <= i < j < all.len() ==> (#[trigger] all[i]).0 != (#[trigger] all[j]).0,
    ensures
        ({
            let after = tanks_washed(at, all, takes, outs, contacts, afterburn, n);
            let id = all[k].0;
            &&& k < n && takes[k] ==> after.pieces.contains_key(id) && after.pieces[id]
                == Piece::Tank(washed(outs[k], afterburn)) && after.touched.contains(id)
            &&& k >= n || !takes[k] ==> after.pieces.contains_key(id) == at.pieces.contains_key(id)
                && after.pieces[id] == at.pieces[id]
            &&& forall|e: u64| #[trigger] at.touched.contains(e) ==> after.touched.contains(e)
        }),
    decreases n,
{
    if n > 0 {
        lemma_tanks_washed(at, all, takes, outs, contacts, afterburn, n - 1, k);
        let was = tanks_washed(at, all, takes, outs, contacts, afterburn, n - 1);
        let now = tanks_washed(at, all, takes, outs, contacts, afterburn, n);
        if k < n - 1 {
            assert(all[k].0 != all[n - 1].0);
        } else if k > n - 1 {
            assert(all[n - 1].0 != all[k].0);
        }
        assert forall|e: u64| #[trigger] was.touched.contains(e) implies now.touched.contains(e) by {
            let i = choose|i: int| 0 <= i < was.touched.len() && was.touched[i] == e;
            assert(now.touched[i] == e);
        }
        if takes[n - 1] {
            assert(now.touched.last() == all[n - 1].0);
            assert(now.touched.contains(all[n - 1].0));
        }
    }
}

/// A stream washes over every running tank on the field that stands in its cone
/// but the shooter's own: it takes what a frame of the stream does to it, goes on
/// burning, and counts as touched. The shooter, a wreck, and a tank outside the
/// cone is left as it was.
pub proof fn a_stream_is_on_everyone_in_its_cone<
    K: Fn(usize, Tank) -> bool,
    F: Fn(usize, Tank) -> Tank,
>(
    cone: K,
    strike: F,
    jet: usize,
    shooter: u64,
    contacts: Seq<u64>,
    afterburn: Scalar,
    at: Streamed,
    after: Streamed,
    id: u64,
)
    requires
        tanks_by_jet(cone, strike, jet, shooter, contacts, afterburn, at, after),
        at.pieces.contains_key(id),
        at.pieces[id] is Tank,
    ensures
        ({
            let t = at.pieces[id]->Tank_0;
            &&& after.pieces.contains_key(id) && after.pieces[id] is Tank
            &&& id != shooter && !t.wreck && t.has_body && !call_ensures(cone, (jet, t), false) ==> {
                &&& after.touched.contains(id)
                &&& after.pieces[id]->Tank_0.burn_timer == afterburn
                &&& exists|out: Tank| #[trigger]
                    call_ensures(strike, (jet, t), out) && after.pieces[id]->Tank_0 == (Tank {
                        burn_timer: afterburn,
                        mind: after.pieces[id]->Tank_0.mind,
                        ..out
                    })
            }
            &&& id == shooter || t.wreck || !t.has_body || !call_ensures(cone, (jet, t), true)
                ==> after.pieces[id] == at.pieces[id]
        }),
{
    let t = at.pieces[id]->Tank_0;
    assert(thing::<Tank>(at.pieces, id) == Some(t));
    let (all, takes, outs) = choose|all: Seq<(u64, Tank)>, takes: Seq<bool>, outs: Seq<Tank>|
        {
            &&& lists::<Tank>(at.pieces, all)
            &&& #[trigger] jet_each(
                cone,
                strike,
                jet,
                shooter,
                all,
                takes,
                outs,
                all.len() as int,
            )
            &&& after == tanks_washed(
                at,
                all,
                takes,
                outs,
                contacts,
                afterburn,
                all.len() as int,
            )
        };
    let k = choose|k: int| 0 <= k < all.len() && (#[trigger] all[k]).0 == id;
    assert(thing::<Tank>(at.pieces, all[k].0) == Some(all[k].1));
    assert(jet_takes(cone, strike, jet, shooter, all[k].0, all[k].1, takes[k], outs[k]));
    lemma_tanks_washed(at, all, takes, outs, contacts, afterburn, all.len() as int, k);
    if takes[k] {
        assert(call_ensures(strike, (jet, t), outs[k]));
    }
}

proof fn lemma_frogs_washed(
    at: Streamed,
    all: Seq<(u64, Frog)>,
    takes: Seq<bool>,
    outs: Seq<Frog>,
    contacts: Seq<u64>,
    n: int,
    k: int,
)
    requires
        0 <= k < all.len(),
        0 <= n <= all.len(),
        forall|i: int, j: int|
            0 <= i < j < all.len() ==> (#[trigger] all[i]).0 != (#[trigger] all[j]).0,
    ensures
        ({
            let after = frogs_washed(at, all, takes, outs, contacts, n);
            let id = all[k].0;
            &&& k < n && takes[k] ==> after.pieces.contains_key(id) && after.pieces[id]
                == Piece::Frog(outs[k])
            &&& k >= n || !takes[k] ==> after.pieces.contains_key(id) == at.pieces.contains_key(id)
                && after.pieces[id] == at.pieces[id]
        }),
    decreases n,
{
    if n > 0 {
        lemma_frogs_washed(at, all, takes, outs, contacts, n - 1, k);
        if k < n - 1 {
            assert(all[k].0 != all[n - 1].0);
        } else if k > n - 1 {
            assert(all[n - 1].0 != all[k].0);
        }
    }
}

/// A living frog in a stream's cone is hurt, whoever's it is; a dead one and one
/// outside it is not.
pub proof fn a_frog_in_the_cone_is_hurt<K: Fn(usize, Frog) -> bool, F: Fn(Frog) -> Frog>(
    cone: K,
    hurt: F,
    jet: usize,
    contacts: Seq<u64>,
    at: Streamed,
    after: Streamed,
    id: u64,
)
    requires
        frogs_by_jet(cone, hurt, jet, contacts, at, after),
        at.pieces.contains_key(id),
        at.pieces[id] is Frog,
    ensures
        ({
            let g = at.pieces[id]->Frog_0;
            &&& after.pieces.contains_key(id) && after.pieces[id] is Frog
            &&& !g.dead && !call_ensures(cone, (jet, g), false) ==> call_ensures(
                hurt,
                (g,),
                after.pieces[id]->Frog_0,
            )
            &&& g.dead || !call_ensures(cone, (jet, g), true) ==> after.pieces[id] == at.pieces[id]
        }),
{
    let g = at.pieces[id]->Frog_0;
    assert(thing::<Frog>(at.pieces, id) == Some(g));
    let (all, takes, outs) = choose|all: Seq<(u64, Frog)>, takes: Seq<bool>, outs: Seq<Frog>|
        {
            &&& lists::<Frog>(at.pieces, all)
            &&& #[trigger] jet_frogs(cone, hurt, jet, all, takes, outs, all.len() as int)
            &&& after == frogs_washed(at, all, takes, outs, contacts, all.len() as int)
        };
    let k = choose|k: int| 0 <= k < all.len() && (#[trigger] all[k]).0 == id;
    assert(thing::<Frog>(at.pieces, all[k].0) == Some(all[k].1));
    lemma_frogs_washed(at, all, takes, outs, contacts, all.len() as int, k);
}

/// A running hull that is alight and that no stream is on burns on; one that is
/// touched, a wreck, and one that is not alight does not.
pub proof fn a_hull_alight_burns_on<F: Fn(Tank) -> Tank>(
    strike: F,
    touched: Seq<u64>,
    seats: Seq<Option<u64>>,
    at: Scene,
    after: Scene,
    id: u64,
)
    requires
        afterburnt(strike, touched, seats, at, after),
        seats.len() == 8,
        at.pieces.contains_key(id),
        at.pieces[id] is Tank,
        at.pieces[id]->Tank_0.mind is Some || (exists|s: int|
            0 <= s < 8 && #[trigger] seats[s] == Some(id)),
    ensures
        ({
            let t = at.pieces[id]->Tank_0;
            let burns = !touched.contains(id) && !t.wreck && Scalar::zero().below(t.burn_timer);
            &&& after.pieces.contains_key(id) && after.pieces[id] is Tank
            &&& burns ==> call_ensures(strike, (t,), after.pieces[id]->Tank_0)
            &&& !burns ==> after.pieces[id] == at.pieces[id]
        }),
{
    let t = at.pieces[id]->Tank_0;
    assert(thing::<Tank>(at.pieces, id) == Some(t));
    let (walk, hits, outs) = choose|walk: Seq<u64>, hits: Seq<bool>, outs: Seq<Tank>|
        {
            &&& is_walk(seats, at.pieces, walk)
            &&& #[trigger] afterburn_each(
                strike,
                touched,
                at.pieces,
                walk,
                hits,
                outs,
                walk.len() as int,
            )
            &&& after == seared(at, walk, hits, outs, walk.len() as int)
        };
    crate::arms::a_walk_visits_everybody(seats, at.pieces, walk, id);
    let k = choose|k: int| 0 <= k < walk.len() && walk[k] == id;
    crate::burning::lemma_seared(at, walk, hits, outs, walk.len() as int, id);
    assert(thing::<Tank>(at.pieces, walk[k])->0 == t);
    if !hits[k] {
        assert forall|m: int| 0 <= m < walk.len() && hits[m] implies #[trigger] walk[m] != id by {
        }
    }
}

/// A cell is covered exactly when a tile that is not gone stands in it.
pub proof fn a_standing_tile_covers_its_cell(
    pieces: Map<u64, Piece>,
    cells: Seq<Cell>,
    id: u64,
    c: Cell,
)
    requires
        covers(pieces, cells),
    ensures
        pieces.contains_key(id) && pieces[id] is Tile && !pieces[id]->Tile_0.destroyed
            ==> cells.contains(pieces[id]->Tile_0.cell),
        cells.contains(c) ==> exists|e: u64|
            pieces.contains_key(e) && (#[trigger] pieces[e]) is Tile
                && !pieces[e]->Tile_0.destroyed && pieces[e]->Tile_0.cell == c,
{
    if pieces.contains_key(id) && pieces[id] is Tile && !pieces[id]->Tile_0.destroyed {
        assert(thing::<Tile>(pieces, id) == Some(pieces[id]->Tile_0));
        assert(covered(pieces, pieces[id]->Tile_0.cell));
    }
    if cells.contains(c) {
        assert(covered(pieces, c));
        let e = choose|e: u64|
            (#[trigger] thing::<Tile>(pieces, e)) matches Some(t) && !t.destroyed && t.cell == c;
        assert(pieces[e] is Tile);
    }
}

/// A sandbag or a fence that the stream is done with collapses; nothing else
/// does.
pub proof fn sandbags_and_fences_give_way(what: Scorched)
    ensures
        gives_way(what) <==> what is Sandbag || what is Fence,
        what.word() is None <==> what is No,
{
}

proof fn lemma_falling(
    all: Seq<(u64, Tile)>,
    flames: Seq<TileFlame>,
    limits: FlameLimits,
    n: int,
    k: int,
)
    requires
        0 <= k < n <= all.len() == flames.len(),
        gives_way(tile_flamed(all[k].1, flames[k], limits).1),
    ensures
        exists|i: int|
            0 <= i < falling(all, flames, limits, n).len() && (#[trigger] falling(
                all,
                flames,
                limits,
                n,
            )[i]).0 == all[k].0,
    decreases n,
{
    let now = falling(all, flames, limits, n);
    let before = falling(all, flames, limits, n - 1);
    if k == n - 1 {
        assert(now.last().0 == all[k].0);
        assert(now[before.len() as int] == now.last());
    } else {
        lemma_falling(all, flames, limits, n - 1, k);
        let i = choose|i: int| 0 <= i < before.len() && (#[trigger] before[i]).0 == all[k].0;
        assert(now[i] == before[i]);
    }
}

/// A standing sandbag or fence that has been under the stream for as long as it
/// holds is among those that collapse.
pub proof fn a_scorched_sandbag_or_fence_collapses(
    all: Seq<(u64, Tile)>,
    flames: Seq<TileFlame>,
    limits: FlameLimits,
    k: int,
)
    requires
        0 <= k < all.len() == flames.len(),
        !all[k].1.destroyed && !all[k].1.burning && all[k].1.fuse is None,
        flames[k].under,
        (all[k].1.material is Sandbag && limits.sandbag.at_most(flames[k].warmed)) || (
        all[k].1.material is Fence && limits.fence.at_most(flames[k].warmed)),
    ensures
        exists|i: int|
            0 <= i < falling(all, flames, limits, all.len() as int).len() && (#[trigger] falling(
                all,
                flames,
                limits,
                all.len() as int,
            )[i]).0 == all[k].0,
{
    lemma_falling(all, flames, limits, all.len() as int, k);
}

/// The jets' part of a flame frame: the first jet starts from the field as it
/// was with nobody touched, frogs burn only where the rules say so, and whoever
/// was touched last is remembered for the next frame.
pub proof fn frogs_burn_only_where_the_rules_say_so<
    K: Fn(usize, Tank) -> bool,
    F: Fn(usize, Tank) -> Tank,
    Q: Fn(usize, Frog) -> bool,
    H: Fn(Frog) -> Frog,
>(
    cone: K,
    strike: F,
    frog_cone: Q,
    hurt: H,
    frogs_burn: bool,
    jet: usize,
    shooter: u64,
    contacts: Seq<u64>,
    afterburn: Scalar,
    at: Streamed,
    mid: Streamed,
    after: Streamed,
)
    requires
        jet_done(
            cone,
            strike,
            frog_cone,
            hurt,
            frogs_burn,
            jet,
            shooter,
            contacts,
            afterburn,
            at,
            mid,
            after,
        ),
    ensures
        tanks_by_jet(cone, strike, jet, shooter, contacts, afterburn, at, mid),
        !frogs_burn ==> after == mid,
        frogs_burn ==> frogs_by_jet(frog_cone, hurt, jet, contacts, mid, after),
{
}

} // verus!
