//! The frogs' part of a frame: each bites and hops on the field.

use vstd::prelude::*;

use crate::collecting::can_collect;
use crate::field::{selects, thing, Kind};
use crate::frame::{Frame, Record};
use crate::frogs::{bite, bitten, frog_reflexes, provoked, NearTank, Reflexes};
use crate::game::{keeps_identities, lemma_identities, Game};
use crate::kinds::MAX_SEATS;
use crate::pieces::{took_blow, Frog, Piece, Tank};
use crate::scalar::{Point, Scalar};

verus! {

/// How far a frog's two reflexes reach.
#[derive(Clone, Copy, Debug, PartialEq, Eq, Structural)]
pub struct Reach {
    pub attack: Scalar,
    pub avoid: Scalar,
}

/// The host's part in a frog's reflexes, bundled.
pub struct FrogRules<D, R, S, L> {
    /// How far a tank stands from a frog.
    pub distance: D,
    /// How far a frog reaches.
    pub reach: R,
    /// A bite: what it takes off, and the tank behind it. A tank that it must
    /// spare survives.
    pub strike: S,
    /// Where a hop away from a tank takes a frog, if there is a way.
    pub landing: L,
}

/// A bite is a blow, and one that must spare the tank does not wreck it.
pub open spec fn bites_well<
    D: Fn(Point, Point) -> Scalar,
    R: Fn(Frog) -> Reach,
    S: Fn(Tank, bool) -> (Scalar, Tank),
    L: Fn(Frog, Point) -> Option<Point>,
>(o: FrogRules<D, R, S, L>) -> bool {
    &&& forall|a: Point, b: Point| call_requires(o.distance, (a, b))
    &&& forall|g: Frog| call_requires(o.reach, (g,))
    &&& forall|t: Tank, spare: bool| call_requires(o.strike, (t, spare))
    &&& forall|g: Frog, p: Point| call_requires(o.landing, (g, p))
    &&& forall|t: Tank, spare: bool, r: (Scalar, Tank)| #[trigger]
        call_ensures(o.strike, (t, spare), r) ==> took_blow(t, r.1) && (spare && !t.wreck
            ==> !r.1.wreck)
}

/// The field and the record while the frogs have their turn.
#[verifier::ext_equal]
pub struct Pond {
    pub pieces: Map<u64, Piece>,
    pub record: Record,
}

/// The tanks a frog sees: every one that lives and has driven in.
pub open spec fn seen_by<D: Fn(Point, Point) -> Scalar>(
    distance: D,
    frog: Frog,
    all: Seq<(u64, Tank)>,
    near: Seq<NearTank>,
) -> bool {
    near.len() == all.len() && forall|k: int|
        0 <= k < all.len() ==> {
            &&& call_ensures(
                distance,
                (all[k].1.position, frog.position),
                (#[trigger] near[k]).distance,
            )
            &&& near[k] == (NearTank {
                entity: all[k].0,
                owner: all[k].1.owner,
                wreck: false,
                rolling_in: false,
                distance: near[k].distance,
            })
        }
}

/// The bite: nobody where nobody provokes it; otherwise the nearest foe takes
/// it, and the frog needs its rest.
pub open spec fn bite_done<S: Fn(Tank, bool) -> (Scalar, Tank)>(
    strike: S,
    seats: Seq<Option<u64>>,
    entity: u64,
    frog: Frog,
    all: Seq<(u64, Tank)>,
    near: Seq<NearTank>,
    reach: Reach,
    before: Pond,
    after: Pond,
) -> bool {
    match provoked(frog.can_attack, near, Some(frog.side), reach.attack) {
        Some(i) => exists|damage: Scalar, t: Tank|
            {
                &&& #[trigger] call_ensures(
                    strike,
                    (all[i].1, a_seats(seats, all[i].0)),
                    (damage, t),
                )
                &&& after == (Pond {
                    pieces: before.pieces.insert(all[i].0, t.as_piece()).insert(
                        entity,
                        (Frog { can_attack: false, ..frog }).as_piece(),
                    ),
                    record: bitten(before.record, frog.side, damage, t),
                })
            },
        None => after == before,
    }
}

/// The tank is a seat's.
pub open spec fn a_seats(seats: Seq<Option<u64>>, entity: u64) -> bool {
    exists|i: int| 0 <= i < MAX_SEATS && #[trigger] seats[i] == Some(entity)
}

/// The hop: nothing where nobody crowds the frog or it is boxed in; otherwise
/// it goes where the hop takes it, and needs its rest.
pub open spec fn hop_done<L: Fn(Frog, Point) -> Option<Point>>(
    landing: L,
    entity: u64,
    frog: Frog,
    all: Seq<(u64, Tank)>,
    near: Seq<NearTank>,
    reach: Reach,
    before: Pond,
    after: Pond,
) -> bool {
    match provoked(frog.can_hop, near, None, reach.avoid) {
        Some(i) => exists|to: Option<Point>|
            {
                &&& #[trigger] call_ensures(landing, (frog, all[i].1.position), to)
                &&& match to {
                    Some(p) => thing::<Frog>(before.pieces, entity) matches Some(g) && after == (
                    Pond {
                        pieces: before.pieces.insert(
                            entity,
                            (Frog { position: p, can_hop: false, ..g }).as_piece(),
                        ),
                        ..before
                    }),
                    None => after == before,
                }
            },
        None => after == before,
    }
}

/// One frog's turn: it bites, and hops independently of that, both by what it
/// saw before either.
pub open spec fn frog_acts<
    D: Fn(Point, Point) -> Scalar,
    R: Fn(Frog) -> Reach,
    S: Fn(Tank, bool) -> (Scalar, Tank),
    L: Fn(Frog, Point) -> Option<Point>,
>(
    o: FrogRules<D, R, S, L>,
    seats: Seq<Option<u64>>,
    entity: Option<u64>,
    before: Pond,
    mid: Pond,
    after: Pond,
) -> bool {
    match entity {
        Some(e) => match thing::<Frog>(before.pieces, e) {
            Some(frog) => exists|all: Seq<(u64, Tank)>, near: Seq<NearTank>, reach: Reach|
                {
                    &&& selects::<Tank>(before.pieces, can_collect(), all)
                    &&& #[trigger] seen_by(o.distance, frog, all, near)
                    &&& #[trigger] call_ensures(o.reach, (frog,), reach)
                    &&& bite_done(o.strike, seats, e, frog, all, near, reach, before, mid)
                    &&& hop_done(o.landing, e, frog, all, near, reach, mid, after)
                },
            None => mid == before && after == before,
        },
        None => mid == before && after == before,
    }
}

/// Both frogs' turns, the players' first.
pub open spec fn frogs_act<
    D: Fn(Point, Point) -> Scalar,
    R: Fn(Frog) -> Reach,
    S: Fn(Tank, bool) -> (Scalar, Tank),
    L: Fn(Frog, Point) -> Option<Point>,
>(
    o: FrogRules<D, R, S, L>,
    seats: Seq<Option<u64>>,
    ours: Option<u64>,
    theirs: Option<u64>,
    before: Pond,
    stages: Seq<Pond>,
    after: Pond,
) -> bool {
    &&& stages.len() == 3
    &&& frog_acts(o, seats, ours, before, stages[0], stages[1])
    &&& frog_acts(o, seats, theirs, stages[1], stages[2], after)
}

/// A frog's turn wrecks no seat's tank.
pub proof fn a_frog_spares_the_seats<
    D: Fn(Point, Point) -> Scalar,
    R: Fn(Frog) -> Reach,
    S: Fn(Tank, bool) -> (Scalar, Tank),
    L: Fn(Frog, Point) -> Option<Point>,
>(
    o: FrogRules<D, R, S, L>,
    seats: Seq<Option<u64>>,
    entity: u64,
    before: Pond,
    mid: Pond,
    after: Pond,
    seat: u64,
)
    requires
        bites_well(o),
        frog_acts(o, seats, Some(entity), before, mid, after),
        a_seats(seats, seat),
        thing::<Tank>(before.pieces, seat) matches Some(t) && !t.wreck,
    ensures
        thing::<Tank>(after.pieces, seat) matches Some(t) && !t.wreck,
{
    if let Some(frog) = thing::<Frog>(before.pieces, entity) {
        assert(entity != seat);
        let (all, near, reach) = choose|
            all: Seq<(u64, Tank)>,
            near: Seq<NearTank>,
            reach: Reach,
        |
            {
                &&& selects::<Tank>(before.pieces, can_collect(), all)
                &&& #[trigger] seen_by(o.distance, frog, all, near)
                &&& #[trigger] call_ensures(o.reach, (frog,), reach)
                &&& bite_done(o.strike, seats, entity, frog, all, near, reach, before, mid)
                &&& hop_done(o.landing, entity, frog, all, near, reach, mid, after)
            };
        crate::frogs::nearest_is_nearest(near, Some(frog.side), near.len() as int);
        if let Some(i) = provoked(frog.can_attack, near, Some(frog.side), reach.attack) {
            assert(thing::<Tank>(before.pieces, all[i].0) == Some(all[i].1));
        }
        assert(thing::<Tank>(mid.pieces, seat) matches Some(t) && !t.wreck);
    }
}

impl Game {
    /// What a frog sees of the tanks.
    fn frog_sees<D: Fn(Point, Point) -> Scalar>(
        &self,
        distance: &D,
        frog: &Frog,
        all: &Vec<(u64, Tank)>,
    ) -> (near: Vec<NearTank>)
        requires
            forall|a: Point, b: Point| call_requires(*distance, (a, b)),
        ensures
            seen_by(*distance, *frog, all@, near@),
    {
        let mut near: Vec<NearTank> = Vec::new();
        let mut n: usize = 0;
        while n < all.len()
            invariant
                n <= all@.len(),
                near@.len() == n,
                forall|a: Point, b: Point| call_requires(*distance, (a, b)),
                forall|k: int|
                    0 <= k < n ==> {
                        &&& call_ensures(
                            *distance,
                            (all@[k].1.position, frog.position),
                            (#[trigger] near@[k]).distance,
                        )
                        &&& near@[k] == (NearTank {
                            entity: all@[k].0,
                            owner: all@[k].1.owner,
                            wreck: false,
                            rolling_in: false,
                            distance: near@[k].distance,
                        })
                    },
            decreases all@.len() - n,
        {
            let (entity, t) = all[n];
            let d: Scalar = distance(t.position, frog.position);
            near.push(
                NearTank { entity, owner: t.owner, wreck: false, rolling_in: false, distance: d },
            );
            n += 1;
        }
        near
    }

    /// A frog bites the tank in that place of the list, if any.
    #[verifier::spinoff_prover]
    fn frog_bite<
        D: Fn(Point, Point) -> Scalar,
        R: Fn(Frog) -> Reach,
        S: Fn(Tank, bool) -> (Scalar, Tank),
        L: Fn(Frog, Point) -> Option<Point>,
    >(
        &mut self,
        f: &mut Frame,
        e: u64,
        frog: &Frog,
        all: &Vec<(u64, Tank)>,
        near: &Vec<NearTank>,
        reach: &Reach,
        target: Option<usize>,
        o: &FrogRules<D, R, S, L>,
    ) -> (now: Frog)
        requires
            old(self).wf(),
            bites_well(*o),
            thing::<Frog>(old(self).field@, e) == Some(*frog),
            selects::<Tank>(old(self).field@, can_collect(), all@),
            near@.len() == all@.len(),
            match provoked(frog.can_attack, near@, Some(frog.side), reach.attack) {
                Some(i) => target == Some(i as usize) && 0 <= i < near@.len(),
                None => target is None,
            },
        ensures
            final(self).wf(),
            final(self).round == old(self).round,
            final(self).keeps_surroundings(old(self)),
            final(self).events == old(self).events,
            thing::<Frog>(final(self).field@, e) == Some(now),
            bite_done(
                o.strike,
                old(self).round.seats@,
                e,
                *frog,
                all@,
                near@,
                *reach,
                Pond { pieces: old(self).field@, record: old(f)@ },
                Pond { pieces: final(self).field@, record: final(f)@ },
            ),
    {
        let mut now: Frog = *frog;
        let count: usize = near.len();
        if let Some(i) = target {
            assert(provoked(frog.can_attack, near@, Some(frog.side), reach.attack) == Some(
                i as int,
            ) && i < count);
            let ghost start = Pond { pieces: self.field@, record: f@ };
            let (tank, t) = all[i];
            let is_player: bool = self.is_player(tank);
            proof {
                assert(thing::<Tank>(start.pieces, all@[i as int].0) == Some(all@[i as int].1));
                assert(can_collect()(all@[i as int].1));
                assert(tank != e);
            }
            let strike = &o.strike;
            let blow = |t: Tank, spare: bool| -> (out: (Scalar, Tank))
                requires
                    call_requires(strike, (t, spare)),
                ensures
                    call_ensures(strike, (t, spare), out),
            { strike(t, spare) };
            let after: Tank = bite(f, frog.side, t, is_player, blow);
            self.field.put(tank, after);
            now.can_attack = false;
            self.field.put(e, now);
            proof {
                let damage = choose|damage: Scalar| #[trigger]
                    call_ensures(blow, (t, is_player), (damage, after)) && f@ == bitten(
                        start.record,
                        frog.side,
                        damage,
                        after,
                    );
                assert(call_ensures(o.strike, (t, is_player), (damage, after)));
                assert(took_blow(t, after));
                assert(keeps_identities(start.pieces, self.field@));
                lemma_identities(self.round, start.pieces, self.field@);
                assert(a_seats(self.round.seats@, tank) == is_player);
                assert(call_ensures(
                    o.strike,
                    (all@[i as int].1, a_seats(self.round.seats@, all@[i as int].0)),
                    (damage, after),
                ));
            }
        }
        now
    }

    /// A frog hops away from the tank in that place of the list, if any.
    #[verifier::spinoff_prover]
    fn frog_hop<
        D: Fn(Point, Point) -> Scalar,
        R: Fn(Frog) -> Reach,
        S: Fn(Tank, bool) -> (Scalar, Tank),
        L: Fn(Frog, Point) -> Option<Point>,
    >(
        &mut self,
        e: u64,
        frog: &Frog,
        now: Frog,
        all: &Vec<(u64, Tank)>,
        near: &Vec<NearTank>,
        reach: &Reach,
        target: Option<usize>,
        o: &FrogRules<D, R, S, L>,
        Ghost(record): Ghost<Record>,
    )
        requires
            old(self).wf(),
            bites_well(*o),
            thing::<Frog>(old(self).field@, e) == Some(now),
            near@.len() == all@.len(),
            match provoked(frog.can_hop, near@, None, reach.avoid) {
                Some(i) => target == Some(i as usize) && 0 <= i < near@.len(),
                None => target is None,
            },
        ensures
            final(self).wf(),
            final(self).round == old(self).round,
            final(self).keeps_surroundings(old(self)),
            final(self).events == old(self).events,
            hop_done(
                o.landing,
                e,
                *frog,
                all@,
                near@,
                *reach,
                Pond { pieces: old(self).field@, record },
                Pond { pieces: final(self).field@, record },
            ),
    {
        let count: usize = near.len();
        if let Some(i) = target {
            assert(provoked(frog.can_hop, near@, None, reach.avoid) == Some(i as int) && i < count);
            let ghost before = self.field@;
            let to: Option<Point> = (o.landing)(*frog, all[i].1.position);
            assert(call_ensures(o.landing, (*frog, all@[i as int].1.position), to));
            if let Some(p) = to {
                self.field.put(e, Frog { position: p, can_hop: false, ..now });
                proof {
                    assert(keeps_identities(before, self.field@));
                    lemma_identities(self.round, before, self.field@);
                }
            }
        }
    }

    /// One frog has its turn.
    #[verifier::spinoff_prover]
    fn frog_turn<
        D: Fn(Point, Point) -> Scalar,
        R: Fn(Frog) -> Reach,
        S: Fn(Tank, bool) -> (Scalar, Tank),
        L: Fn(Frog, Point) -> Option<Point>,
    >(&mut self, f: &mut Frame, entity: Option<u64>, o: &FrogRules<D, R, S, L>) -> (mid: Ghost<Pond>)
        requires
            old(self).wf(),
            bites_well(*o),
        ensures
            final(self).wf(),
            final(self).round == old(self).round,
            final(self).keeps_surroundings(old(self)),
            final(self).events == old(self).events,
            frog_acts(
                *o,
                old(self).round.seats@,
                entity,
                Pond { pieces: old(self).field@, record: old(f)@ },
                mid@,
                Pond { pieces: final(self).field@, record: final(f)@ },
            ),
    {
        let ghost start = Pond { pieces: self.field@, record: f@ };
        let e: u64 = match entity {
            Some(e) => e,
            None => {
                return Ghost(start);
            },
        };
        let found: Option<Frog> = self.field.get(e);
        let frog: Frog = match found {
            Some(frog) => frog,
            None => {
                return Ghost(start);
            },
        };
        let test = |t: Tank| -> (b: bool)
            ensures
                b == (!t.wreck && !t.rolling_in),
        { !t.wreck && !t.rolling_in };
        let all = self.field.select(Ghost(can_collect()), test);
        let near: Vec<NearTank> = self.frog_sees(&o.distance, &frog, &all);
        let reach: Reach = (o.reach)(frog);
        let r: Reflexes = frog_reflexes(&frog, &near, reach.attack, reach.avoid);
        let now: Frog = self.frog_bite(f, e, &frog, &all, &near, &reach, r.bite, o);
        let ghost mid = Pond { pieces: self.field@, record: f@ };
        self.frog_hop(e, &frog, now, &all, &near, &reach, r.hop, o, Ghost(f@));
        proof {
            assert(seen_by(o.distance, frog, all@, near@));
            assert(call_ensures(o.reach, (frog,), reach));
        }
        Ghost(mid)
    }

    /// Each frog on the field bites the nearest hostile tank within its attack
    /// range, never to a seat's death, and hops away from the nearest tank of
    /// any side within its wider range, each on its own rest: the players'
    /// frog first.
    pub fn frog_phase<
        D: Fn(Point, Point) -> Scalar,
        R: Fn(Frog) -> Reach,
        S: Fn(Tank, bool) -> (Scalar, Tank),
        L: Fn(Frog, Point) -> Option<Point>,
    >(&mut self, f: &mut Frame, o: &FrogRules<D, R, S, L>)
        requires
            old(self).wf(),
            bites_well(*o),
        ensures
            final(self).wf(),
            final(self).round == old(self).round,
            final(self).keeps_surroundings(old(self)),
            final(self).events == old(self).events,
            exists|stages: Seq<Pond>| #[trigger]
                frogs_act(
                    *o,
                    old(self).round.seats@,
                    old(self).round.frog,
                    old(self).round.enemy_frog,
                    Pond { pieces: old(self).field@, record: old(f)@ },
                    stages,
                    Pond { pieces: final(self).field@, record: final(f)@ },
                ),
    {
        let ghost start = Pond { pieces: self.field@, record: f@ };
        let first: Ghost<Pond> = self.frog_turn(f, self.round.frog, o);
        let ghost between = Pond { pieces: self.field@, record: f@ };
        let second: Ghost<Pond> = self.frog_turn(f, self.round.enemy_frog, o);
        proof {
            let stages = seq![first@, between, second@];
            assert(frogs_act(
                *o,
                self.round.seats@,
                self.round.frog,
                self.round.enemy_frog,
                start,
                stages,
                Pond { pieces: self.field@, record: f@ },
            ));
        }
    }
}

/// A frog's bite: the tank it is at takes what the bite does, a seat's always
/// with its life, and the frog has to rest before it bites again. A frog nobody
/// provokes leaves everything as it was.
pub proof fn a_bite_strikes_one_tank_and_tires_the_frog<S: Fn(Tank, bool) -> (Scalar, Tank)>(
    strike: S,
    seats: Seq<Option<u64>>,
    entity: u64,
    frog: Frog,
    all: Seq<(u64, Tank)>,
    near: Seq<NearTank>,
    reach: Reach,
    before: Pond,
    after: Pond,
)
    requires
        bite_done(strike, seats, entity, frog, all, near, reach, before, after),
        forall|i: int| 0 <= i < all.len() ==> (#[trigger] all[i]).0 != entity,
        near.len() == all.len(),
    ensures
        match provoked(frog.can_attack, near, Some(frog.side), reach.attack) {
            None => after == before,
            Some(i) => {
                let id = all[i].0;
                &&& after.pieces.contains_key(id) && after.pieces[id] is Tank
                &&& exists|damage: Scalar, spare: bool|
                    {
                        &&& #[trigger] call_ensures(
                            strike,
                            (all[i].1, spare),
                            (damage, after.pieces[id]->Tank_0),
                        )
                        &&& spare <==> exists|s: int|
                            0 <= s < 8 && #[trigger] seats[s] == Some(id)
                    }
                &&& after.pieces.contains_key(entity) && after.pieces[entity] is Frog
                &&& !after.pieces[entity]->Frog_0.can_attack
                &&& after.pieces[entity]->Frog_0.position == frog.position
                &&& after.pieces[entity]->Frog_0.health == frog.health
                &&& forall|other: u64|
                    other != id && other != entity ==> (#[trigger] after.pieces.contains_key(other))
                        == before.pieces.contains_key(other) && after.pieces[other]
                        == before.pieces[other]
            },
        },
{
    let answer = provoked(frog.can_attack, near, Some(frog.side), reach.attack);
    if let Some(i) = answer {
        crate::frogs::nearest_is_nearest(near, Some(frog.side), near.len() as int);
        let id = all[i].0;
        assert(id != entity);
        let (damage, t) = choose|damage: Scalar, t: Tank|
            {
                &&& #[trigger] call_ensures(
                    strike,
                    (all[i].1, a_seats(seats, all[i].0)),
                    (damage, t),
                )
                &&& after == (Pond {
                    pieces: before.pieces.insert(all[i].0, t.as_piece()).insert(
                        entity,
                        (Frog { can_attack: false, ..frog }).as_piece(),
                    ),
                    record: bitten(before.record, frog.side, damage, t),
                })
            };
        let spare = a_seats(seats, id);
        assert(after.pieces[id] == Piece::Tank(t));
        assert(call_ensures(strike, (all[i].1, spare), (damage, after.pieces[id]->Tank_0)));
    }
}

/// A frog's hop: it goes where the way away from the nearest tank takes it and
/// has to rest before it hops again; boxed in, or with nobody near, it stays.
/// Nothing else moves.
pub proof fn a_hop_moves_the_frog_alone<L: Fn(Frog, Point) -> Option<Point>>(
    landing: L,
    entity: u64,
    frog: Frog,
    all: Seq<(u64, Tank)>,
    near: Seq<NearTank>,
    reach: Reach,
    before: Pond,
    after: Pond,
)
    requires
        hop_done(landing, entity, frog, all, near, reach, before, after),
    ensures
        provoked(frog.can_hop, near, None, reach.avoid) is None ==> after == before,
        after.record == before.record,
        forall|other: u64|
            other != entity ==> (#[trigger] after.pieces.contains_key(other))
                == before.pieces.contains_key(other) && after.pieces[other] == before.pieces[other],
        match provoked(frog.can_hop, near, None, reach.avoid) {
            Some(i) => (forall|to: Option<Point>| #[trigger]
                call_ensures(landing, (frog, all[i].1.position), to) ==> to is Some) ==> {
                &&& after.pieces.contains_key(entity) && after.pieces[entity] is Frog
                &&& !after.pieces[entity]->Frog_0.can_hop
                &&& call_ensures(
                    landing,
                    (frog, all[i].1.position),
                    Some(after.pieces[entity]->Frog_0.position),
                )
            },
            None => true,
        },
{
    if let Some(i) = provoked(frog.can_hop, near, None, reach.avoid) {
        let to = choose|to: Option<Point>|
            {
                &&& #[trigger] call_ensures(landing, (frog, all[i].1.position), to)
                &&& match to {
                    Some(p) => thing::<Frog>(before.pieces, entity) matches Some(g) && after == (
                    Pond {
                        pieces: before.pieces.insert(
                            entity,
                            (Frog { position: p, can_hop: false, ..g }).as_piece(),
                        ),
                        ..before
                    }),
                    None => after == before,
                }
            };
        assert(call_ensures(landing, (frog, all[i].1.position), to));
    }
}

} // verus!
