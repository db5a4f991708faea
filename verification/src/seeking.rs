//! Missiles seeking and tanks colliding, over everything on the field.
//!
//! The host measures distances, moves aims by their tubes and rolls the ram
//! damage.

use vstd::prelude::*;

use crate::arms::is_walk;
use crate::blasts::record_ram;
use crate::combat::{may_ram, ram, Rammed};
use crate::event::Event;
use crate::field::{lists, thing, Kind};
use crate::frame::{Frame, Record, Scene};
use crate::game::{keeps_identities, lemma_identities, Game};
use crate::missiles::{
    aims_well, guide_missile, led, LockTarget, Tubes,
};
use crate::pieces::{took_blow, Missile, Piece, Tank};
use crate::ranking::{ranked, sort_ranked, Ranked};
use crate::scalar::{Point, Scalar};

verus! {

/// What a missile can lock among the first `n` tanks of a walk: the live ones.
pub open spec fn lockables(pieces: Map<u64, Piece>, walk: Seq<u64>, n: int) -> Seq<LockTarget>
    decreases n,
{
    if n <= 0 {
        Seq::empty()
    } else {
        let before = lockables(pieces, walk, n - 1);
        match thing::<Tank>(pieces, walk[n - 1]) {
            Some(t) => if t.wreck {
                before
            } else {
                before.push(
                    LockTarget {
                        entity: walk[n - 1],
                        slot: t.owner.round_slot(),
                        owner: t.owner,
                        position: t.position,
                    },
                )
            },
            None => before,
        }
    }
}

/// How far a missile is from each target.
pub open spec fn ranged<D: Fn(Point, Point) -> Scalar>(
    dist: D,
    m: Missile,
    targets: Seq<LockTarget>,
    distances: Seq<Scalar>,
) -> bool {
    distances.len() == targets.len() && forall|i: int|
        0 <= i < targets.len() ==> call_ensures(
            dist,
            (targets[i].position, m.position),
            #[trigger] distances[i],
        )
}

/// One missile was guided for a frame.
pub open spec fn steered<
    D: Fn(Point, Point) -> Scalar,
    O: Fn(Missile, Point) -> Point,
    S: Fn(Point, Point) -> Point,
    I: Fn(Point) -> Point,
>(
    dist: D,
    tubes: Tubes<O, S, I>,
    targets: Seq<LockTarget>,
    range: Scalar,
    f: Record,
    m: Missile,
    out: Missile,
    f_after: Record,
) -> bool {
    exists|distances: Seq<Scalar>, offset: Point, aim: Point|
        {
            &&& ranged(dist, m, targets, distances)
            &&& #[trigger] led(
                tubes,
                m,
                targets,
                distances,
                range,
                offset,
                aim,
                f,
                out,
                f_after,
            )
        }
}

/// The first `n` missiles of a list were guided in turn.
pub open spec fn steers<
    D: Fn(Point, Point) -> Scalar,
    O: Fn(Missile, Point) -> Point,
    S: Fn(Point, Point) -> Point,
    I: Fn(Point) -> Point,
>(
    dist: D,
    tubes: Tubes<O, S, I>,
    targets: Seq<LockTarget>,
    range: Scalar,
    all: Seq<(u64, Missile)>,
    outs: Seq<Missile>,
    records: Seq<Record>,
    n: int,
) -> bool {
    outs.len() == n && records.len() == n + 1 && forall|k: int|
        0 <= k < n ==> steered(
            dist,
            tubes,
            targets,
            range,
            records[k],
            (#[trigger] all[k]).1,
            outs[k],
            records[k + 1],
        )
}

/// The field with the first `n` missiles replaced.
pub open spec fn redirected(
    pieces: Map<u64, Piece>,
    all: Seq<(u64, Missile)>,
    outs: Seq<Missile>,
    n: int,
) -> Map<u64, Piece>
    decreases n,
{
    if n <= 0 {
        pieces
    } else {
        redirected(pieces, all, outs, n - 1).insert(all[n - 1].0, outs[n - 1].as_piece())
    }
}

/// Every missile was guided toward what can be locked, in slot order.
pub open spec fn seek_frame<
    D: Fn(Point, Point) -> Scalar,
    O: Fn(Missile, Point) -> Point,
    S: Fn(Point, Point) -> Point,
    I: Fn(Point) -> Point,
>(
    dist: D,
    tubes: Tubes<O, S, I>,
    range: Scalar,
    seats: Seq<Option<u64>>,
    walk: Seq<u64>,
    all: Seq<(u64, Missile)>,
    outs: Seq<Missile>,
    records: Seq<Record>,
    at: Scene,
    after: Scene,
) -> bool {
    let n = all.len() as int;
    let targets = ranked(lockables(at.pieces, walk, walk.len() as int));
    &&& is_walk(seats, at.pieces, walk)
    &&& lists::<Missile>(at.pieces, all)
    &&& steers(dist, tubes, targets, range, all, outs, records, n)
    &&& records[0] == at.record
    &&& after == (Scene { pieces: redirected(at.pieces, all, outs, n), record: records[n] })
}

proof fn lemma_redirected_same(
    pieces: Map<u64, Piece>,
    all: Seq<(u64, Missile)>,
    a: Seq<Missile>,
    b: Seq<Missile>,
    n: int,
)
    requires
        0 <= n <= a.len(),
        n <= b.len(),
        forall|i: int| 0 <= i < n ==> a[i] == b[i],
    ensures
        redirected(pieces, all, a, n) == redirected(pieces, all, b, n),
    decreases n,
{
    if n > 0 {
        lemma_redirected_same(pieces, all, a, b, n - 1);
    }
}

fn range_all<D: Fn(Point, Point) -> Scalar>(dist: &D, m: Missile, targets: &Vec<LockTarget>) -> (
    distances: Vec<Scalar>)
    requires
        forall|a: Point, b: Point| call_requires(*dist, (a, b)),
    ensures
        ranged(*dist, m, targets@, distances@),
{
    let mut distances: Vec<Scalar> = Vec::new();
    let mut n: usize = 0;
    while n < targets.len()
        invariant
            n <= targets@.len(),
            distances@.len() == n,
            forall|a: Point, b: Point| call_requires(*dist, (a, b)),
            forall|i: int|
                0 <= i < n ==> call_ensures(
                    *dist,
                    (targets@[i].position, m.position),
                    #[trigger] distances@[i],
                ),
        decreases targets@.len() - n,
    {
        distances.push(dist(targets[n].position, m.position));
        n += 1;
    }
    distances
}

impl Game {
    /// What missiles can lock: every live tank in the fight, in slot order, so
    /// that a tie goes to the lower slot.
    pub fn lock_targets(&self) -> (targets: Vec<LockTarget>)
        requires
            self.wf(),
        ensures
            exists|walk: Seq<u64>| #[trigger]
                is_walk(self.round.seats@, self.field@, walk) && targets@ == ranked(
                    lockables(self.field@, walk, walk.len() as int),
                ),
    {
        let walk: Vec<u64> = self.walk_order();
        let mut targets: Vec<LockTarget> = Vec::new();
        let mut n: usize = 0;
        while n < walk.len()
            invariant
                n <= walk@.len(),
                targets@ == lockables(self.field@, walk@, n as int),
            decreases walk@.len() - n,
        {
            let found: Option<Tank> = self.field.get(walk[n]);
            if let Some(t) = found {
                if !t.wreck {
                    targets.push(
                        LockTarget {
                            entity: walk[n],
                            slot: t.owner_slot(),
                            owner: t.owner,
                            position: t.position,
                        },
                    );
                }
            }
            n += 1;
        }
        sort_ranked(&targets)
    }

    /// Guide every missile for a frame.
    pub fn guide_missiles<
        D: Fn(Point, Point) -> Scalar,
        O: Fn(Missile, Point) -> Point,
        S: Fn(Point, Point) -> Point,
        I: Fn(Point) -> Point,
    >(
        &mut self,
        f: &mut Frame,
        range: Scalar,
        dist: &D,
        tubes: &Tubes<O, S, I>,
    )
        requires
            old(self).wf(),
            forall|a: Point, b: Point| call_requires(*dist, (a, b)),
            aims_well(*tubes),
        ensures
            final(self).wf(),
            exists|
                walk: Seq<u64>,
                all: Seq<(u64, Missile)>,
                outs: Seq<Missile>,
                records: Seq<Record>,
            | #[trigger]
                seek_frame(
                    *dist,
                    *tubes,
                    range,
                    old(self).round.seats@,
                    walk,
                    all,
                    outs,
                    records,
                    (Scene { pieces: old(self).field@, record: old(f)@ }),
                    (Scene { pieces: final(self).field@, record: final(f)@ }),
                ),
            final(self).round == old(self).round,
            final(self).keeps_surroundings(old(self)),
            final(self).events == old(self).events,
    {
        let ghost start = self.field@;
        let targets: Vec<LockTarget> = self.lock_targets();
        let ghost walk = choose|walk: Seq<u64>| #[trigger]
            is_walk(self.round.seats@, self.field@, walk) && targets@ == ranked(
                lockables(self.field@, walk, walk.len() as int),
            );
        let ghost mut outs: Seq<Missile> = Seq::empty();
        let ghost mut records: Seq<Record> = seq![f@];
        let all: Vec<(u64, Missile)> = self.field.all();
        let mut n: usize = 0;
        while n < all.len()
            invariant
                n <= all@.len(),
                start == old(self).field@,
                lists::<Missile>(start, all@),
                forall|a: Point, b: Point| call_requires(*dist, (a, b)),
                aims_well(*tubes),
                self.field.wf(),
                self.round == old(self).round,
                self.keeps_surroundings(old(self)),
                self.events == old(self).events,
                self.field@.dom() == start.dom(),
                keeps_identities(start, self.field@),
                steers(*dist, *tubes, targets@, range, all@, outs, records, n as int),
                records[0] == old(f)@,
                records[n as int] == f@,
                self.field@ == redirected(start, all@, outs, n as int),
            decreases all@.len() - n,
        {
            let id: u64 = all[n].0;
            let m: Missile = all[n].1;
            let ghost (were, told, before) = (outs, records, f@);
            assert(thing::<Missile>(start, all@[n as int].0) == Some(m));
            assert(start.contains_key(id));
            let distances: Vec<Scalar> = range_all(dist, m, &targets);
            let out: Missile = guide_missile(f, m, &targets, &distances, range, tubes);
            self.field.put(id, out);
            proof {
                outs = outs.push(out);
                records = records.push(f@);
                lemma_redirected_same(start, all@, were, outs, n as int);
                assert(ranged(*dist, m, targets@, distances@));
                assert(steered(*dist, *tubes, targets@, range, before, m, out, f@));
                assert forall|k: int| 0 <= k < n + 1 implies steered(
                    *dist,
                    *tubes,
                    targets@,
                    range,
                    records[k],
                    (#[trigger] all@[k]).1,
                    outs[k],
                    records[k + 1],
                ) by {
                    if k < n {
                        assert(records[k] == told[k]);
                        assert(records[k + 1] == told[k + 1]);
                        assert(outs[k] == were[k]);
                    }
                }
                assert(self.field@.dom() =~= start.dom());
            }
            n += 1;
        }
        proof {
            lemma_identities(self.round, start, self.field@);
            assert(seek_frame(
                *dist,
                *tubes,
                range,
                old(self).round.seats@,
                walk,
                all@,
                outs,
                records,
                Scene { pieces: start, record: old(f)@ },
                Scene { pieces: self.field@, record: f@ },
            ));
        }
    }
}

/// The record of a ram: the kills, and after them the ram itself, which names
/// one of the two before the other.
pub open spec fn ram_told(
    f: Record,
    a: Tank,
    b: Tank,
    x: Tank,
    y: Tank,
    damage: Scalar,
    a_first: bool,
) -> Record {
    let f = if x.wreck {
        f.with_kill(x.position, x.owner)
    } else {
        f
    };
    let f = if y.wreck {
        f.with_kill(y.position, y.owner)
    } else {
        f
    };
    let (first, second) = if a_first {
        (a, b)
    } else {
        (b, a)
    };
    f.with_event(
        Event::Ram {
            slot: first.owner.round_slot(),
            other_slot: second.owner.round_slot(),
            damage,
        },
    )
}

/// A ram is a blow to both tanks, and nothing else happens to them.
pub open spec fn rams_well<F: Fn(Tank, Tank) -> (Scalar, Tank, Tank)>(strike: F) -> bool {
    &&& forall|a: Tank, b: Tank| call_requires(strike, (a, b))
    &&& forall|a: Tank, b: Tank, r: (Scalar, Tank, Tank)| #[trigger]
        call_ensures(strike, (a, b), r) ==> took_blow(a, r.1) && took_blow(b, r.2)
}

impl Game {
    /// Two tanks in contact ram each other. A wreck or a tank still cooling
    /// down, on either side, means nothing happens and nothing is rolled.
    /// The record names `a` first if `a_first` is set, which is so unless an
    /// enemy rams a player. Returns what the ram did; whoever lives is to be
    /// shoved.
    pub fn ram_pair<F: Fn(Tank, Tank) -> (Scalar, Tank, Tank)>(
        &mut self,
        f: &mut Frame,
        a: u64,
        b: u64,
        cooldown: Scalar,
        a_first: bool,
        strike: &F,
    ) -> (r: Option<Rammed>)
        requires
            old(self).wf(),
            a != b,
            thing::<Tank>(old(self).field@, a) is Some,
            thing::<Tank>(old(self).field@, b) is Some,
            rams_well(*strike),
        ensures
            final(self).wf(),
            ({
                let (ta, tb) = (
                    thing::<Tank>(old(self).field@, a)->0,
                    thing::<Tank>(old(self).field@, b)->0,
                );
                if may_ram(ta, tb) {
                    exists|damage: Scalar, x: Tank, y: Tank|
                        {
                            &&& #[trigger] call_ensures(*strike, (ta, tb), (damage, x, y))
                            &&& r == Some(
                                Rammed {
                                    damage,
                                    a: Tank { ram_cooldown: cooldown, ..x },
                                    b: Tank { ram_cooldown: cooldown, ..y },
                                },
                            )
                            &&& final(self).field@ == old(self).field@.insert(
                                a,
                                Tank { ram_cooldown: cooldown, ..x }.as_piece(),
                            ).insert(b, Tank { ram_cooldown: cooldown, ..y }.as_piece())
                            &&& final(f)@ == ram_told(old(f)@, ta, tb, x, y, damage, a_first)
                        }
                } else {
                    r is None && final(self).field@ == old(self).field@ && final(f)@ == old(f)@
                }
            }),
            final(self).round == old(self).round,
            final(self).keeps_surroundings(old(self)),
            final(self).events == old(self).events,
    {
        let ghost before = self.field@;
        let found_a: Option<Tank> = self.field.get(a);
        let found_b: Option<Tank> = self.field.get(b);
        match (found_a, found_b) {
            (Some(ta), Some(tb)) => {
                let hit = |x: Tank, y: Tank| -> (r: (Scalar, Tank, Tank))
                    requires
                        call_requires(*strike, (x, y)),
                    ensures
                        call_ensures(*strike, (x, y), r),
                { strike(x, y) };
                let r: Option<Rammed> = ram(f, ta, tb, cooldown, hit);
                if let Some(rammed) = r {
                    if a_first {
                        record_ram(f, &ta, &tb, rammed.damage);
                    } else {
                        record_ram(f, &tb, &ta, rammed.damage);
                    }
                    self.field.put(a, rammed.a);
                    self.field.put(b, rammed.b);
                }
                proof {
                    assert(keeps_identities(before, self.field@));
                    lemma_identities(self.round, before, self.field@);
                }
                r
            },
            _ => None,
        }
    }
}

/// Rams are spaced out: right after one, neither tank of the pair can ram or
/// be rammed until its cooldown has run down.
pub proof fn a_ram_spaces_out_the_next(a: Tank, b: Tank, cooldown: Scalar, other: Tank)
    requires
        Scalar::zero().below(cooldown),
    ensures
        !may_ram(Tank { ram_cooldown: cooldown, ..a }, other),
        !may_ram(other, Tank { ram_cooldown: cooldown, ..b }),
{
}

proof fn lemma_lockables(pieces: Map<u64, Piece>, walk: Seq<u64>, n: int, t: LockTarget)
    requires
        0 <= n <= walk.len(),
    ensures
        lockables(pieces, walk, n).contains(t) <==> (exists|i: int|
            0 <= i < n && #[trigger] walk[i] == t.entity) && pieces.contains_key(t.entity)
            && pieces[t.entity] is Tank && ({
            let tank = pieces[t.entity]->Tank_0;
            !tank.wreck && t.owner == tank.owner && t.position == tank.position && t.slot
                == tank.owner.round_slot()
        }),
    decreases n,
{
    if n > 0 {
        lemma_lockables(pieces, walk, n - 1, t);
        let (now, before) = (lockables(pieces, walk, n), lockables(pieces, walk, n - 1));
        if before.contains(t) {
            let i = choose|i: int| 0 <= i < before.len() && before[i] == t;
            assert(now[i] == t);
        }
        if now.len() > before.len() {
            if now.contains(t) {
                let i = choose|i: int| 0 <= i < now.len() && now[i] == t;
                if i < before.len() {
                    assert(before[i] == t);
                }
            }
            if walk[n - 1] == t.entity {
                assert(now.last().entity == t.entity);
            }
        }
    }
}

/// A missile can lock every live tank in the fight, seats and enemies alike, as
/// it stands; and nothing else.
pub proof fn every_live_tank_can_be_locked(
    seats: Seq<Option<u64>>,
    pieces: Map<u64, Piece>,
    walk: Seq<u64>,
    id: u64,
)
    requires
        is_walk(seats, pieces, walk),
        seats.len() == 8,
        pieces.contains_key(id),
        pieces[id] is Tank,
        pieces[id]->Tank_0.mind is Some || (exists|s: int|
            0 <= s < 8 && #[trigger] seats[s] == Some(id)),
    ensures
        ({
            let targets = ranked(lockables(pieces, walk, walk.len() as int));
            let t = pieces[id]->Tank_0;
            let target = LockTarget {
                entity: id,
                slot: t.owner.round_slot(),
                owner: t.owner,
                position: t.position,
            };
            &&& !t.wreck <==> targets.contains(target)
            &&& forall|i: int|
                0 <= i < targets.len() ==> pieces.contains_key((#[trigger] targets[i]).entity)
                    && pieces[targets[i].entity] is Tank && !pieces[targets[i].entity]->Tank_0.wreck
            &&& forall|i: int, j: int|
                0 <= i < j < targets.len() ==> (#[trigger] targets[i]).slot <= (
                #[trigger] targets[j]).slot
        }),
{
    let raw = lockables(pieces, walk, walk.len() as int);
    let targets = ranked(raw);
    let t = pieces[id]->Tank_0;
    let target = LockTarget {
        entity: id,
        slot: t.owner.round_slot(),
        owner: t.owner,
        position: t.position,
    };
    crate::ranking::ranking_sorts(raw);
    assert(thing::<Tank>(pieces, id) == Some(t));
    if t.mind is None {
        let s = choose|s: int| 0 <= s < 8 && #[trigger] seats[s] == Some(id);
        crate::flame::a_seated_tank_is_listed(seats, 8, s);
        let players = crate::flame::seated(seats, 8);
        let p = choose|p: int| 0 <= p < players.len() && players[p] == id;
        assert(walk.take(players.len() as int)[p] == id);
        assert(walk[p] == id);
    }
    assert(walk.contains(id));
    let w = choose|w: int| 0 <= w < walk.len() && walk[w] == id;
    assert(walk[w] == target.entity);
    lemma_lockables(pieces, walk, walk.len() as int, target);
    if raw.contains(target) {
        let k = choose|k: int| 0 <= k < raw.len() && raw[k] == target;
        crate::ranking::same_members(raw, targets, k);
    }
    if targets.contains(target) {
        let k = choose|k: int| 0 <= k < targets.len() && targets[k] == target;
        crate::ranking::same_members(targets, raw, k);
    }
    assert forall|i: int| 0 <= i < targets.len() implies pieces.contains_key(
        (#[trigger] targets[i]).entity,
    ) && pieces[targets[i].entity] is Tank && !pieces[targets[i].entity]->Tank_0.wreck by {
        crate::ranking::same_members(targets, raw, i);
        lemma_lockables(pieces, walk, walk.len() as int, targets[i]);
    }
    assert forall|i: int, j: int| 0 <= i < j < targets.len() implies (#[trigger] targets[i]).slot
        <= (#[trigger] targets[j]).slot by {
        assert(!targets[j].ahead(targets[i]));
    }
}

/// A ram is told once, the two by their slots, after the deaths it caused; each
/// wreck it leaves is a kill where it stands.
pub proof fn a_ram_is_told(
    f: Record,
    a: Tank,
    b: Tank,
    x: Tank,
    y: Tank,
    damage: Scalar,
    a_first: bool,
)
    ensures
        ({
            let g = ram_told(f, a, b, x, y, damage, a_first);
            &&& g.events.len() == f.events.len() + 1
            &&& g.events.last() == (if a_first {
                Event::Ram {
                    slot: a.owner.round_slot(),
                    other_slot: b.owner.round_slot(),
                    damage,
                }
            } else {
                Event::Ram {
                    slot: b.owner.round_slot(),
                    other_slot: a.owner.round_slot(),
                    damage,
                }
            })
            &&& !x.wreck && !y.wreck ==> g.kills == f.kills
            &&& x.wreck && !y.wreck ==> g.kills.len() == f.kills.len() + 1 && g.kills.last().victim
                == x.owner && g.kills.last().at == x.position
            &&& !x.wreck && y.wreck ==> g.kills.len() == f.kills.len() + 1 && g.kills.last().victim
                == y.owner && g.kills.last().at == y.position
            &&& x.wreck && y.wreck ==> g.kills.len() == f.kills.len() + 2 && g.kills[
                f.kills.len() as int].victim == x.owner && g.kills.last().victim == y.owner
        }),
{
}

/// Two tanks ram each other exactly when neither is a wreck and neither still
/// cools down from the last ram.
pub proof fn two_running_tanks_ram(a: Tank, b: Tank)
    ensures
        may_ram(a, b) <==> !a.wreck && !b.wreck && !Scalar::zero().below(a.ram_cooldown)
            && !Scalar::zero().below(b.ram_cooldown),
        may_ram(a, b) == may_ram(b, a),
{
}

} // verus!
