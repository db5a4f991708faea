//! What an explosion does to everyone in reach.
//!
//! The host measures how far each tank and frog stands from the centre and
//! works out what a hit takes off; who is hit, in what order and what is
//! recorded are decided here.

use rand::distr::Bernoulli;
use rand::rngs::SmallRng;
use vstd::prelude::*;

use crate::arms::is_walk;
use crate::burning::{lemma_lighting_keeps, sparked};
use crate::combat::{explosion_hit, hurts_side, in_reach, pool_cells, pool_fits};
use crate::dice::{chance, Odds};
use crate::event::Event;
use crate::field::{lists, selects, thing, Kind};
use crate::frame::{FireballKind, Frame, Kill, Record, ShockKind};
use crate::game::Game;
use crate::kinds::{Cell, Drum, Owner, Side, MAX_SEATS};
use crate::pieces::{took_blow, Frog, Missile, Piece, Tank, Tile};
use crate::props::{
    all_lit, blow, coin_decides, damage_obstacle, fires_inside, light_cells, mourned,
    obstacle_died, shape_of, Blow, DamageCause, DeadTile, GroundFire, Spark,
};
use crate::scalar::{Point, Scalar};

verus! {

/// Whom an explosion hurts. It shoves everyone.
#[derive(Clone, Copy, Debug, PartialEq, Eq, Structural)]
pub enum Harm {
    /// A barrel makes no difference.
    Everyone,
    /// A wreck's explosion and a missile's burst hurt only the side opposing
    /// whoever they are by.
    Opponents(Owner),
}

impl Harm {
    /// Whether a tank is hurt.
    #[verifier::allow_in_spec]
    pub fn hurts(self, tank: Owner) -> bool
        returns
            (match self {
                Harm::Everyone => true,
                Harm::Opponents(owner) => hurts_side(owner, tank),
            }),
    {
        match self {
            Harm::Everyone => true,
            Harm::Opponents(owner) => hurts_side(owner, tank),
        }
    }

    /// Whether a frog is hurt.
    pub open spec fn harms(self, side: Side) -> bool {
        self matches Harm::Opponents(owner) ==> (side is Player) != owner.is_seat()
    }

    fn hurts_frog(self, side: Side) -> (r: bool)
        ensures
            r == self.harms(side),
    {
        match self {
            Harm::Everyone => true,
            Harm::Opponents(owner) => matches!(side, Side::Player) != owner.is_player(),
        }
    }
}

/// The field, the record and who is shoved, part of the way through a blast.
#[verifier::ext_equal]
pub struct Blasted {
    pub pieces: Map<u64, Piece>,
    pub record: Record,
    pub shoved: Seq<u64>,
}

/// The first `n` tanks of a walk take their share: `outs` is what a hit makes
/// of each.
pub open spec fn blasted(
    at: Blasted,
    walk: Seq<u64>,
    distances: Seq<Scalar>,
    harm: Harm,
    radius: Scalar,
    outs: Seq<Tank>,
    n: int,
) -> Blasted
    decreases n,
{
    if n <= 0 {
        at
    } else {
        let now = blasted(at, walk, distances, harm, radius, outs, n - 1);
        let id = walk[n - 1];
        let t = thing::<Tank>(at.pieces, id)->0;
        if !in_reach(t.wreck, distances[n - 1], radius) {
            now
        } else if !harm.hurts(t.owner) {
            Blasted { shoved: now.shoved.push(id), ..now }
        } else {
            let after = outs[n - 1];
            Blasted {
                pieces: now.pieces.insert(id, after.as_piece()),
                record: if after.wreck {
                    now.record.with_kill(after.position, after.owner)
                } else {
                    now.record
                },
                shoved: if after.wreck {
                    now.shoved
                } else {
                    now.shoved.push(id)
                },
            }
        }
    }
}

/// A hit is a blow, and nothing else happens to the tank.
pub open spec fn keeps_owner<F: Fn(Tank, Scalar) -> Tank>(strike: F) -> bool {
    forall|t: Tank, d: Scalar, after: Tank| #[trigger]
        call_ensures(strike, (t, d), after) ==> took_blow(t, after)
}

/// What a hit makes of the tanks it strikes is what `strike` gives.
pub open spec fn struck<F: Fn(Tank, Scalar) -> Tank>(
    strike: F,
    pieces: Map<u64, Piece>,
    walk: Seq<u64>,
    distances: Seq<Scalar>,
    harm: Harm,
    radius: Scalar,
    outs: Seq<Tank>,
    n: int,
) -> bool {
    outs.len() == n && forall|k: int|
        0 <= k < n && in_reach(
            thing::<Tank>(pieces, #[trigger] walk[k])->0.wreck,
            distances[k],
            radius,
        ) && harm.hurts(thing::<Tank>(pieces, walk[k])->0.owner) ==> call_ensures(
            strike,
            (thing::<Tank>(pieces, walk[k])->0, distances[k]),
            outs[k],
        )
}

/// Every tank of a walk is there.
spec fn all_there(pieces: Map<u64, Piece>, walk: Seq<u64>) -> bool {
    forall|k: int| 0 <= k < walk.len() ==> thing::<Tank>(pieces, #[trigger] walk[k]) is Some
}

proof fn lemma_blasted_same(
    at: Blasted,
    walk: Seq<u64>,
    distances: Seq<Scalar>,
    harm: Harm,
    radius: Scalar,
    a: Seq<Tank>,
    b: Seq<Tank>,
    n: int,
)
    requires
        0 <= n <= a.len(),
        n <= b.len(),
        forall|i: int| 0 <= i < n ==> a[i] == b[i],
    ensures
        blasted(at, walk, distances, harm, radius, a, n) == blasted(
            at,
            walk,
            distances,
            harm,
            radius,
            b,
            n,
        ),
    decreases n,
{
    if n > 0 {
        lemma_blasted_same(at, walk, distances, harm, radius, a, b, n - 1);
    }
}

impl Game {
    /// Every tank in the fight takes its share of an explosion, players in
    /// seat order before the enemies, so that the rolls keep a fixed order.
    /// `walk` comes from [`Game::walk_order`] and `distances` goes with it;
    /// `strike` is called only for a tank that is hurt. Returns whom the blast
    /// shoves: everyone in reach that it does not kill.
    pub fn blast_tanks<F: Fn(Tank, Scalar) -> Tank>(
        &mut self,
        f: &mut Frame,
        walk: &Vec<u64>,
        distances: &Vec<Scalar>,
        harm: Harm,
        radius: Scalar,
        strike: &F,
    ) -> (shoved: Vec<u64>)
        requires
            old(self).wf(),
            is_walk(old(self).round.seats@, old(self).field@, walk@),
            distances@.len() == walk@.len(),
            forall|t: Tank, d: Scalar| call_requires(*strike, (t, d)),
            keeps_owner(*strike),
        ensures
            final(self).wf(),
            final(self).round == old(self).round,
            final(self).keeps_surroundings(old(self)),
            final(self).events == old(self).events,
            exists|outs: Seq<Tank>|
                {
                    &&& #[trigger] struck(
                        *strike,
                        old(self).field@,
                        walk@,
                        distances@,
                        harm,
                        radius,
                        outs,
                        walk@.len() as int,
                    )
                    &&& (Blasted {
                        pieces: final(self).field@,
                        record: final(f)@,
                        shoved: shoved@,
                    }) == blasted(
                        Blasted {
                            pieces: old(self).field@,
                            record: old(f)@,
                            shoved: Seq::empty(),
                        },
                        walk@,
                        distances@,
                        harm,
                        radius,
                        outs,
                        walk@.len() as int,
                    )
                },
    {
        let ghost start = Blasted { pieces: self.field@, record: f@, shoved: Seq::empty() };
        let ghost mut outs: Seq<Tank> = Seq::empty();
        let mut shoved: Vec<u64> = Vec::new();
        proof {
            self.lemma_walk_there(walk@);
        }
        let mut n: usize = 0;
        while n < walk.len()
            invariant
                n <= walk@.len(),
                distances@.len() == walk@.len(),
                walk@.no_duplicates(),
                start == (Blasted {
                    pieces: old(self).field@,
                    record: old(f)@,
                    shoved: Seq::<u64>::empty(),
                }),
                all_there(start.pieces, walk@),
                forall|t: Tank, d: Scalar| call_requires(*strike, (t, d)),
                keeps_owner(*strike),
                self.wf(),
                self.round == old(self).round,
                self.keeps_surroundings(old(self)),
                self.events == old(self).events,
                forall|k: int|
                    n <= k < walk@.len() ==> thing::<Tank>(self.field@, #[trigger] walk@[k])
                        == thing::<Tank>(start.pieces, walk@[k]),
                struck(
                    *strike,
                    start.pieces,
                    walk@,
                    distances@,
                    harm,
                    radius,
                    outs,
                    n as int,
                ),
                (Blasted { pieces: self.field@, record: f@, shoved: shoved@ }) == blasted(
                    start,
                    walk@,
                    distances@,
                    harm,
                    radius,
                    outs,
                    n as int,
                ),
            decreases walk@.len() - n,
        {
            let entity: u64 = walk[n];
            let d: Scalar = distances[n];
            let ghost were = outs;
            let ghost before = self.field@;
            assert(thing::<Tank>(self.field@, walk@[n as int]) == thing::<Tank>(
                start.pieces,
                walk@[n as int],
            ));
            assert(thing::<Tank>(start.pieces, walk@[n as int]) is Some);
            let found: Option<Tank> = self.field.get(entity);
            if let Some(t) = found {
                let hurts: bool = harm.hurts(t.owner);
                let hit = |t: Tank| -> (after: Tank)
                    requires
                        call_requires(*strike, (t, d)),
                    ensures
                        call_ensures(*strike, (t, d), after),
                { strike(t, d) };
                let (after, shoves): (Tank, bool) = explosion_hit(f, t, d, radius, hurts, hit);
                assert(after.owner == t.owner && after.mind == t.mind);
                self.field.put(entity, after);
                if shoves {
                    shoved.push(entity);
                }
                proof {
                    outs = outs.push(after);
                    lemma_blasted_same(
                        start,
                        walk@,
                        distances@,
                        harm,
                        radius,
                        were,
                        outs,
                        n as int,
                    );
                    assert(before.insert(entity, t.as_piece()) =~= before);
                    let seats = self.round.seats@;
                    assert forall|i: int| #![trigger seats[i]] 0 <= i < MAX_SEATS implies (
                    seats[i] matches Some(e) ==> i < self.round.players.seated() && (thing::<Tank>(
                        self.field@,
                        e,
                    ) matches Some(t) && t.owner == Owner::Player(i as u8) && t.mind is None)) by {
                        assert(seats[i] == old(self).round.seats@[i]);
                        if let Some(e) = seats[i] {
                            assert(thing::<Tank>(before, e) is Some);
                        }
                    }
                    assert forall|k: int| n + 1 <= k < walk@.len() implies thing::<Tank>(
                        self.field@,
                        #[trigger] walk@[k],
                    ) == thing::<Tank>(start.pieces, walk@[k]) by {
                        assert(walk@[k] != walk@[n as int]);
                    }
                }
            }
            n += 1;
        }
        shoved
    }
}

/// A tank that an explosion does not hurt is left exactly as it was: out of
/// reach, a wreck already, or on the side that is spared.
pub proof fn a_spared_tank_is_untouched(
    at: Blasted,
    walk: Seq<u64>,
    distances: Seq<Scalar>,
    harm: Harm,
    radius: Scalar,
    outs: Seq<Tank>,
    n: int,
    k: int,
)
    requires
        0 <= k < walk.len(),
        0 <= n <= walk.len(),
        walk.no_duplicates(),
        thing::<Tank>(at.pieces, walk[k]) is Some,
        !in_reach(thing::<Tank>(at.pieces, walk[k])->0.wreck, distances[k], radius) || !harm.hurts(
            thing::<Tank>(at.pieces, walk[k])->0.owner,
        ),
    ensures
        thing::<Tank>(blasted(at, walk, distances, harm, radius, outs, n).pieces, walk[k])
            == thing::<Tank>(at.pieces, walk[k]),
    decreases n,
{
    if n > 0 {
        a_spared_tank_is_untouched(at, walk, distances, harm, radius, outs, n - 1, k);
        if n - 1 != k {
            assert(walk[n - 1] != walk[k]);
        }
    }
}

/// Every kill a blast adds is a tank that stood before it and is a wreck after
/// it. A wreck is out of reach of the next one, so no tank is killed twice and
/// a chain of explosions comes to an end.
pub proof fn a_blast_kills_only_standing_tanks(
    at: Blasted,
    walk: Seq<u64>,
    distances: Seq<Scalar>,
    harm: Harm,
    radius: Scalar,
    outs: Seq<Tank>,
    n: int,
    i: int,
)
    requires
        0 <= n <= walk.len(),
        walk.no_duplicates(),
        at.record.kills.len() <= i < blasted(
            at,
            walk,
            distances,
            harm,
            radius,
            outs,
            n,
        ).record.kills.len(),
    ensures
        exists|k: int|
            {
                &&& 0 <= k < n
                &&& !thing::<Tank>(at.pieces, #[trigger] walk[k])->0.wreck
                &&& outs[k].wreck
                &&& thing::<Tank>(
                    blasted(at, walk, distances, harm, radius, outs, n).pieces,
                    walk[k],
                ) == Some(outs[k])
                &&& blasted(at, walk, distances, harm, radius, outs, n).record.kills[i] == (Kill {
                    at: outs[k].position,
                    victim: outs[k].owner,
                })
            },
    decreases n,
{
    if n > 0 {
        let before = blasted(at, walk, distances, harm, radius, outs, n - 1);
        if i < before.record.kills.len() {
            a_blast_kills_only_standing_tanks(
                at,
                walk,
                distances,
                harm,
                radius,
                outs,
                n - 1,
                i,
            );
            let k = choose|k: int|
                {
                    &&& 0 <= k < n - 1
                    &&& !thing::<Tank>(at.pieces, #[trigger] walk[k])->0.wreck
                    &&& outs[k].wreck
                    &&& thing::<Tank>(before.pieces, walk[k]) == Some(outs[k])
                    &&& before.record.kills[i] == (Kill {
                        at: outs[k].position,
                        victim: outs[k].owner,
                    })
                };
            assert(walk[k] != walk[n - 1]);
        } else {
            assert(0 <= n - 1 < walk.len());
            assert(walk[n - 1] == walk[n - 1]);
        }
    }
}

/// A frog an explosion hurts: alive, of a side it harms, inside the radius.
pub open spec fn frog_hit(frog: Frog, distance: Scalar, harm: Harm, radius: Scalar) -> bool {
    !frog.dead && harm.harms(frog.side) && !radius.below(distance)
}

/// The field after the first `n` frogs took their share.
pub open spec fn frogs_blasted(
    pieces: Map<u64, Piece>,
    frogs: Seq<(u64, Frog)>,
    distances: Seq<Scalar>,
    harm: Harm,
    radius: Scalar,
    outs: Seq<Frog>,
    n: int,
) -> Map<u64, Piece>
    decreases n,
{
    if n <= 0 {
        pieces
    } else {
        let now = frogs_blasted(pieces, frogs, distances, harm, radius, outs, n - 1);
        if frog_hit(frogs[n - 1].1, distances[n - 1], harm, radius) {
            now.insert(frogs[n - 1].0, outs[n - 1].as_piece())
        } else {
            now
        }
    }
}

/// The record once those of the first `n` frogs that died have been shown.
pub open spec fn frog_deaths(
    f: Record,
    frogs: Seq<(u64, Frog)>,
    distances: Seq<Scalar>,
    harm: Harm,
    radius: Scalar,
    outs: Seq<Frog>,
    n: int,
) -> Record
    decreases n,
{
    if n <= 0 {
        f
    } else {
        let f = frog_deaths(f, frogs, distances, harm, radius, outs, n - 1);
        if frog_hit(frogs[n - 1].1, distances[n - 1], harm, radius) && outs[n - 1].dead {
            f.with_shock(outs[n - 1].position, ShockKind::Frog)
        } else {
            f
        }
    }
}

/// What a hit makes of a frog leaves it whose it was.
pub open spec fn keeps_side<F: Fn(Frog, Scalar) -> Frog>(strike: F) -> bool {
    forall|frog: Frog, d: Scalar, after: Frog| #[trigger]
        call_ensures(strike, (frog, d), after) ==> after.side == frog.side
}

/// What a hit makes of the frogs it strikes is what `strike` gives.
pub open spec fn frogs_struck<F: Fn(Frog, Scalar) -> Frog>(
    strike: F,
    frogs: Seq<(u64, Frog)>,
    distances: Seq<Scalar>,
    harm: Harm,
    radius: Scalar,
    outs: Seq<Frog>,
    n: int,
) -> bool {
    outs.len() == n && forall|k: int|
        0 <= k < n && frog_hit((#[trigger] frogs[k]).1, distances[k], harm, radius) ==> call_ensures(
            strike,
            (frogs[k].1, distances[k]),
            outs[k],
        )
}

proof fn lemma_frogs_same(
    pieces: Map<u64, Piece>,
    f: Record,
    frogs: Seq<(u64, Frog)>,
    distances: Seq<Scalar>,
    harm: Harm,
    radius: Scalar,
    a: Seq<Frog>,
    b: Seq<Frog>,
    n: int,
)
    requires
        0 <= n <= a.len(),
        n <= b.len(),
        forall|i: int| 0 <= i < n ==> a[i] == b[i],
    ensures
        frogs_blasted(pieces, frogs, distances, harm, radius, a, n) == frogs_blasted(
            pieces,
            frogs,
            distances,
            harm,
            radius,
            b,
            n,
        ),
        frog_deaths(f, frogs, distances, harm, radius, a, n) == frog_deaths(
            f,
            frogs,
            distances,
            harm,
            radius,
            b,
            n,
        ),
    decreases n,
{
    if n > 0 {
        lemma_frogs_same(pieces, f, frogs, distances, harm, radius, a, b, n - 1);
    }
}

impl Game {
    /// Every frog on the field, in no particular order.
    pub fn frogs(&self) -> (frogs: Vec<(u64, Frog)>)
        ensures
            lists::<Frog>(self.field@, frogs@),
    {
        self.field.all()
    }

    /// Every frog takes its share of an explosion. `frogs` comes from
    /// [`Game::frogs`] and `distances` goes with it; `strike` is called only
    /// for a frog that is hurt. One that dies of it is shown where it stood.
    pub fn blast_frogs<F: Fn(Frog, Scalar) -> Frog>(
        &mut self,
        f: &mut Frame,
        frogs: &Vec<(u64, Frog)>,
        distances: &Vec<Scalar>,
        harm: Harm,
        radius: Scalar,
        strike: &F,
    )
        requires
            old(self).wf(),
            lists::<Frog>(old(self).field@, frogs@),
            distances@.len() == frogs@.len(),
            forall|frog: Frog, d: Scalar| call_requires(*strike, (frog, d)),
            keeps_side(*strike),
        ensures
            final(self).wf(),
            final(self).round == old(self).round,
            final(self).keeps_surroundings(old(self)),
            final(self).events == old(self).events,
            exists|outs: Seq<Frog>|
                {
                    &&& #[trigger] frogs_struck(
                        *strike,
                        frogs@,
                        distances@,
                        harm,
                        radius,
                        outs,
                        frogs@.len() as int,
                    )
                    &&& final(self).field@ == frogs_blasted(
                        old(self).field@,
                        frogs@,
                        distances@,
                        harm,
                        radius,
                        outs,
                        frogs@.len() as int,
                    )
                    &&& final(f)@ == frog_deaths(
                        old(f)@,
                        frogs@,
                        distances@,
                        harm,
                        radius,
                        outs,
                        frogs@.len() as int,
                    )
                },
    {
        let ghost start = self.field@;
        let ghost told = f@;
        let ghost mut outs: Seq<Frog> = Seq::empty();
        let mut n: usize = 0;
        while n < frogs.len()
            invariant
                n <= frogs@.len(),
                distances@.len() == frogs@.len(),
                lists::<Frog>(start, frogs@),
                forall|frog: Frog, d: Scalar| call_requires(*strike, (frog, d)),
                keeps_side(*strike),
                self.wf(),
                self.round == old(self).round,
                self.keeps_surroundings(old(self)),
                self.events == old(self).events,
                start == old(self).field@,
                told == old(f)@,
                forall|k: int|
                    n <= k < frogs@.len() ==> thing::<Frog>(self.field@, (#[trigger] frogs@[k]).0)
                        == Some(frogs@[k].1),
                frogs_struck(*strike, frogs@, distances@, harm, radius, outs, n as int),
                self.field@ == frogs_blasted(
                    start,
                    frogs@,
                    distances@,
                    harm,
                    radius,
                    outs,
                    n as int,
                ),
                f@ == frog_deaths(told, frogs@, distances@, harm, radius, outs, n as int),
            decreases frogs@.len() - n,
        {
            let (entity, frog) = frogs[n];
            let ghost were = outs;
            let ghost before = self.field@;
            assert(thing::<Frog>(self.field@, frogs@[n as int].0) == Some(frogs@[n as int].1));
            let hit: bool = !frog.dead && harm.hurts_frog(frog.side) && !radius.lt(distances[n]);
            if hit {
                let after: Frog = strike(frog, distances[n]);
                self.field.put(entity, after);
                if after.dead {
                    f.shock(after.position, ShockKind::Frog);
                }
                proof {
                    outs = outs.push(after);
                    let seats = self.round.seats@;
                    assert forall|i: int| #![trigger seats[i]] 0 <= i < MAX_SEATS implies (
                    seats[i] matches Some(e) ==> i < self.round.players.seated() && (thing::<Tank>(
                        self.field@,
                        e,
                    ) matches Some(t) && t.owner == Owner::Player(i as u8) && t.mind is None)) by {
                        assert(seats[i] == old(self).round.seats@[i]);
                        if let Some(e) = seats[i] {
                            assert(thing::<Tank>(before, e) is Some);
                            assert(e != entity);
                        }
                    }
                }
            } else {
                proof {
                    outs = outs.push(frog);
                }
            }
            proof {
                lemma_frogs_same(
                    start,
                    told,
                    frogs@,
                    distances@,
                    harm,
                    radius,
                    were,
                    outs,
                    n as int,
                );
                assert forall|k: int| n + 1 <= k < frogs@.len() implies thing::<Frog>(
                    self.field@,
                    (#[trigger] frogs@[k]).0,
                ) == Some(frogs@[k].1) by {
                    assert(frogs@[n as int].0 != frogs@[k].0);
                }
            }
            n += 1;
        }
    }
}

/// The fireball of a barrel.
#[verifier::allow_in_spec]
pub fn drum_fireball(drum: Drum) -> FireballKind
    returns
        (match drum {
            Drum::Oil => FireballKind::Oil,
            Drum::Fuel => FireballKind::Fuel,
        }),
{
    match drum {
        Drum::Oil => FireballKind::Oil,
        Drum::Fuel => FireballKind::Fuel,
    }
}

/// The ripple a barrel's blast sends out.
#[verifier::allow_in_spec]
pub fn drum_shock(drum: Drum) -> ShockKind
    returns
        (match drum {
            Drum::Oil => ShockKind::Barrel,
            Drum::Fuel => ShockKind::Fuel,
        }),
{
    match drum {
        Drum::Oil => ShockKind::Barrel,
        Drum::Fuel => ShockKind::Fuel,
    }
}

/// A tank's death as its explosion is worked off: the wreck, the hardest
/// ripple there is, a fireball with its flash, and a burn mark on dry ground.
pub open spec fn wreck_told(f: Record, kill: Kill) -> Record {
    f.with_event(
        Event::Wreck { slot: kill.victim.round_slot(), x: kill.at.x, y: kill.at.y },
    ).with_shock(kill.at, ShockKind::Kill).with_blaze(kill.at, FireballKind::Wreck).with_scorch(
        kill.at,
        None,
        true,
    )
}

/// Record a tank's death.
pub fn record_wreck(f: &mut Frame, kill: &Kill)
    ensures
        final(f)@ == wreck_told(old(f)@, *kill),
{
    f.record(Event::Wreck { slot: kill.victim.slot(), x: kill.at.x, y: kill.at.y });
    f.shock(kill.at, ShockKind::Kill);
    f.blaze(kill.at, FireballKind::Wreck);
    f.scorch(kill.at, None, true);
}

/// Record ram contact between two tanks.
pub fn record_ram(f: &mut Frame, first: &Tank, second: &Tank, damage: Scalar)
    ensures
        final(f)@ == old(f)@.with_event(
            Event::Ram { slot: first.slot(), other_slot: second.slot(), damage },
        ),
{
    f.record(Event::Ram { slot: first.owner_slot(), other_slot: second.owner_slot(), damage });
}

/// Record two shells cancelling each other, where they met.
pub fn record_collision(f: &mut Frame, at: Point)
    ensures
        final(f)@ == old(f)@.with_event(Event::ShellsCollided { x: at.x, y: at.y }),
{
    f.record(Event::ShellsCollided { x: at.x, y: at.y });
}

/// Record what the physics solver set aside, if it set anything aside.
pub fn record_quarantine(f: &mut Frame, bodies: usize, colliders: usize)
    ensures
        final(f)@ == (if bodies > 0 || colliders > 0 {
            old(f)@.with_event(Event::PhysicsQuarantine { bodies, colliders })
        } else {
            old(f)@
        }),
{
    if bodies > 0 || colliders > 0 {
        f.record(Event::PhysicsQuarantine { bodies, colliders });
    }
}

/// On the ground.
pub open spec fn landed() -> spec_fn(Missile) -> bool {
    |m: Missile| m.arrived
}

/// The field without the missiles that have landed.
pub open spec fn without_landed(pieces: Map<u64, Piece>) -> Map<u64, Piece> {
    pieces.restrict(
        Set::new(
            |id: u64|
                pieces.contains_key(id) && !(pieces[id] matches Piece::Missile(m) && m.arrived),
        ),
    )
}

impl Game {
    /// Take every missile that has reached the ground off the field. Each is
    /// to burst where it is.
    pub fn take_landed(&mut self) -> (bursts: Vec<(u64, Missile)>)
        requires
            old(self).wf(),
        ensures
            final(self).wf(),
            final(self).round == old(self).round,
            final(self).keeps_surroundings(old(self)),
            final(self).events == old(self).events,
            selects::<Missile>(old(self).field@, landed(), bursts@),
            final(self).field@ == without_landed(old(self).field@),
    {
        let test = |m: Missile| -> (b: bool)
            ensures
                b == m.arrived,
        { m.arrived };
        let bursts = self.field.select(Ghost(landed()), test);
        let ghost before = self.field@;
        let mut n: usize = 0;
        while n < bursts.len()
            invariant
                n <= bursts@.len(),
                selects::<Missile>(before, landed(), bursts@),
                before == old(self).field@,
                self.field.wf(),
                self.round == old(self).round,
                self.keeps_surroundings(old(self)),
                self.events == old(self).events,
                forall|id: u64| #[trigger]
                    self.field@.contains_key(id) <==> before.contains_key(id) && !(exists|k: int|
                        0 <= k < n && (#[trigger] bursts@[k]).0 == id),
                forall|id: u64| #[trigger]
                    self.field@.contains_key(id) ==> self.field@[id] == before[id],
            decreases bursts@.len() - n,
        {
            let entity: u64 = bursts[n].0;
            let ghost mid = self.field@;
            self.field.despawn(entity);
            proof {
                assert forall|id: u64| #[trigger] self.field@.contains_key(id) <==> (
                before.contains_key(id) && !(exists|k: int|
                    0 <= k < n + 1 && (#[trigger] bursts@[k]).0 == id)) by {
                    if id == entity {
                        assert(bursts@[n as int].0 == id);
                    } else {
                        assert(self.field@.contains_key(id) == mid.contains_key(id));
                        if exists|k: int| 0 <= k < n && (#[trigger] bursts@[k]).0 == id {
                            let k = choose|k: int| 0 <= k < n && (#[trigger] bursts@[k]).0 == id;
                            assert(bursts@[k].0 == id);
                        }
                        if exists|k: int| 0 <= k < n + 1 && (#[trigger] bursts@[k]).0 == id {
                            let k = choose|k: int|
                                0 <= k < n + 1 && (#[trigger] bursts@[k]).0 == id;
                            assert(k < n);
                        }
                    }
                }
            }
            n += 1;
        }
        proof {
            assert forall|id: u64| self.field@.contains_key(id) == without_landed(
                before,
            ).contains_key(id) by {
                if before.contains_key(id) {
                    if let Piece::Missile(m) = before[id] {
                        assert(thing::<Missile>(before, id) == Some(m));
                        if m.arrived {
                            assert(landed()(m));
                            let k = choose|k: int|
                                0 <= k < bursts@.len() && (#[trigger] bursts@[k]).0 == id;
                            assert(bursts@[k].0 == id);
                        }
                    }
                    if exists|k: int| 0 <= k < n && (#[trigger] bursts@[k]).0 == id {
                        let k = choose|k: int| 0 <= k < n && (#[trigger] bursts@[k]).0 == id;
                        assert(thing::<Missile>(before, bursts@[k].0) == Some(bursts@[k].1));
                        assert(landed()(bursts@[k].1));
                    }
                }
            }
            assert(self.field@ =~= without_landed(before));
            let seats = self.round.seats@;
            assert forall|i: int| #![trigger seats[i]] 0 <= i < MAX_SEATS implies (
            seats[i] matches Some(e) ==> i < self.round.players.seated() && (thing::<Tank>(
                self.field@,
                e,
            ) matches Some(t) && t.owner == Owner::Player(i as u8) && t.mind is None)) by {
                assert(seats[i] == old(self).round.seats@[i]);
                if let Some(e) = seats[i] {
                    assert(thing::<Tank>(before, e) is Some);
                }
            }
        }
        bursts
    }
}

/// A missile's burst, before anyone takes their share of it.
pub open spec fn burst_told(f: Record, m: Missile) -> Record {
    f.with_event(
        Event::MissileBlast { slot: m.owner.round_slot(), x: m.position.x, y: m.position.y },
    )
}

/// Record a missile's burst.
pub fn record_burst(f: &mut Frame, m: &Missile)
    ensures
        final(f)@ == burst_told(old(f)@, *m),
{
    f.record(
        Event::MissileBlast { slot: m.owner.slot(), x: m.position.x, y: m.position.y },
    );
}

/// What a blast may make of a tile.
pub open spec fn may_take(tile: Tile, b: Blow, cause: DamageCause, r: (Tile, bool)) -> bool {
    exists|heads: bool| r == #[trigger] blow(tile, b, cause, heads)
}

/// The record once a blast has been at a tile: a death is announced.
pub open spec fn tile_blasted(f: Record, r: (Tile, bool), cause: DamageCause) -> Record {
    if r.1 {
        mourned(
            f,
            DeadTile {
                material: r.0.material,
                drum: r.0.drum,
                position: r.0.position,
                chained: false,
                charred: false,
                shape: shape_of(cause),
            },
        )
    } else {
        f
    }
}

impl Game {
    /// Put a tile back as something left it.
    pub(crate) fn put_tile(&mut self, entity: u64, t: Tile)
        requires
            old(self).wf(),
            thing::<Tile>(old(self).field@, entity) is Some,
        ensures
            final(self).wf(),
            final(self).field@ == old(self).field@.insert(entity, t.as_piece()),
            final(self).round == old(self).round,
            final(self).keeps_surroundings(old(self)),
            final(self).events == old(self).events,
    {
        let ghost before = self.field@;
        self.field.put(entity, t);
        proof {
            let seats = self.round.seats@;
            assert forall|i: int| #![trigger seats[i]] 0 <= i < MAX_SEATS implies (
            seats[i] matches Some(e) ==> i < self.round.players.seated() && (thing::<Tank>(
                self.field@,
                e,
            ) matches Some(t) && t.owner == Owner::Player(i as u8) && t.mind is None)) by {
                assert(seats[i] == old(self).round.seats@[i]);
                if let Some(e) = seats[i] {
                    assert(thing::<Tank>(before, e) is Some);
                }
            }
        }
    }

    /// A tile takes its share of a blast, or of whatever else wears it down.
    /// Nothing happens to an entity that is no tile. Returns whether it died
    /// this instant.
    pub fn damage_tile(
        &mut self,
        f: &mut Frame,
        entity: u64,
        b: &Blow,
        cause: DamageCause,
        one_shot: &Bernoulli,
        rng: &mut SmallRng,
    ) -> (died: bool)
        requires
            old(self).wf(),
        ensures
            final(self).wf(),
            match thing::<Tile>(old(self).field@, entity) {
                Some(t) => exists|r: (Tile, bool)|
                    {
                        &&& #[trigger] may_take(t, *b, cause, r)
                        &&& final(self).field@ == old(self).field@.insert(entity, r.0.as_piece())
                        &&& final(f)@ == tile_blasted(old(f)@, r, cause)
                        &&& died == r.1
                    },
                None => !died && final(self).field@ == old(self).field@ && final(f)@ == old(f)@,
            },
            !(thing::<Tile>(old(self).field@, entity) matches Some(t) && coin_decides(t, cause))
                ==> *final(rng) == *old(rng),
            final(self).round == old(self).round,
            final(self).keeps_surroundings(old(self)),
            final(self).events == old(self).events,
    {
        let found: Option<Tile> = self.field.get(entity);
        let t: Tile = match found {
            Some(t) => t,
            None => {
                return false;
            },
        };
        let (after, died): (Tile, bool) = damage_obstacle(t, b, cause, one_shot, rng);
        self.put_tile(entity, after);
        if died {
            obstacle_died(
                f,
                DeadTile {
                    material: after.material,
                    drum: after.drum,
                    position: after.position,
                    chained: false,
                    charred: false,
                    shape: shape_of(cause),
                },
            );
        }
        proof {
            assert((after, died) == blow(t, *b, cause, true) || (after, died) == blow(
                t,
                *b,
                cause,
                false,
            ));
            assert(may_take(t, *b, cause, (after, died)));
        }
        died
    }
}

/// A cell can be lit wherever it lies; one on the field has a neighbour on
/// every side.
pub open spec fn lights_well<S: Fn(Cell) -> Spark>(spark: S) -> bool {
    &&& forall|c: Cell| call_requires(spark, (c,))
    &&& forall|c: Cell, s: Spark| #[trigger]
        call_ensures(spark, (c,), s) ==> s.cell == c && (s.on_field ==> c.interior())
}

/// The cells were lit in turn, each as `spark` says.
pub open spec fn cells_lit<S: Fn(Cell) -> Spark>(
    spark: S,
    cells: Seq<Cell>,
    before: (Seq<GroundFire>, Record),
    after: (Seq<GroundFire>, Record),
) -> bool {
    exists|sparks: Seq<Spark>| #[trigger]
        sparked(spark, cells, sparks) && after == all_lit(
            before.0,
            before.1,
            sparks,
            sparks.len() as int,
        )
}

/// Those of the first `n` trail cells that are near.
pub open spec fn near_trail(oil: Seq<Cell>, near: Seq<bool>, n: int) -> Seq<Cell>
    decreases n,
{
    if n <= 0 {
        Seq::empty()
    } else if near[n - 1] {
        near_trail(oil, near, n - 1).push(oil[n - 1])
    } else {
        near_trail(oil, near, n - 1)
    }
}

impl Game {
    /// Light cells in turn.
    pub fn light_all<S: Fn(Cell) -> Spark>(
        &mut self,
        f: &mut Frame,
        cells: &Vec<Cell>,
        spark: &S,
    )
        requires
            old(self).wf(),
            fires_inside(old(self).ground.fires@),
            lights_well(*spark),
        ensures
            final(self).wf(),
            fires_inside(final(self).ground.fires@),
            cells_lit(
                *spark,
                cells@,
                (old(self).ground.fires@, old(f)@),
                (final(self).ground.fires@, final(f)@),
            ),
            final(self).ground == (crate::game::Ground {
                fires: final(self).ground.fires,
                ..old(self).ground
            }),
            final(self).round == old(self).round,
            final(self).field == old(self).field,
            final(self).pack == old(self).pack,
            final(self).show == old(self).show,
            final(self).events == old(self).events,
            final(self).debug_kills == old(self).debug_kills,
    {
        let ghost fires = self.ground.fires@;
        let mut sparks: Vec<Spark> = Vec::new();
        let mut n: usize = 0;
        while n < cells.len()
            invariant
                n <= cells@.len(),
                sparks@.len() == n,
                lights_well(*spark),
                forall|k: int|
                    0 <= k < n ==> call_ensures(*spark, (cells@[k],), #[trigger] sparks@[k]),
            decreases cells@.len() - n,
        {
            sparks.push(spark(cells[n]));
            n += 1;
        }
        light_cells(&mut self.ground.fires, f, &sparks);
        proof {
            assert(sparked(*spark, cells@, sparks@));
            lemma_lighting_keeps(fires, old(f)@, sparks@, sparks@.len() as int);
        }
    }

    /// What a drum's blast does to the ground: an oil drum may leave a pool of
    /// fire, a diamond of cells around it, and either drum lights every trail
    /// cell that is `near`. No pool is left where its reach is nothing, and
    /// then nothing is tossed for it. Returns whether one was.
    pub fn blast_ground<S: Fn(Cell) -> Spark, T: Fn(Cell) -> Spark>(
        &mut self,
        f: &mut Frame,
        drum: Drum,
        center: Cell,
        reach: i32,
        pool_odds: &Odds,
        near: &Vec<bool>,
        pool: &S,
        trail: &T,
        rng: &mut SmallRng,
    ) -> (left: bool)
        requires
            old(self).wf(),
            fires_inside(old(self).ground.fires@),
            near@.len() == old(self).ground.oil@.len(),
            reach > 0 ==> pool_fits(center, reach as int),
            lights_well(*pool),
            lights_well(*trail),
        ensures
            final(self).wf(),
            fires_inside(final(self).ground.fires@),
            !(drum is Oil && reach > 0) || *pool_odds is Never ==> !left && *final(rng) == *old(
                rng,
            ),
            drum is Oil && reach > 0 && *pool_odds is Always ==> left && *final(rng) == *old(rng),
            exists|mid: (Seq<GroundFire>, Record)|
                {
                    &&& if left {
                        cells_lit(
                            *pool,
                            crate::combat::pool(center, reach as int),
                            (old(self).ground.fires@, old(f)@),
                            mid,
                        )
                    } else {
                        mid == (old(self).ground.fires@, old(f)@)
                    }
                    &&& #[trigger] cells_lit(
                        *trail,
                        near_trail(
                            old(self).ground.oil@,
                            near@,
                            old(self).ground.oil@.len() as int,
                        ),
                        mid,
                        (final(self).ground.fires@, final(f)@),
                    )
                },
            final(self).ground == (crate::game::Ground {
                fires: final(self).ground.fires,
                ..old(self).ground
            }),
            final(self).round == old(self).round,
            final(self).field == old(self).field,
            final(self).pack == old(self).pack,
            final(self).show == old(self).show,
            final(self).events == old(self).events,
            final(self).debug_kills == old(self).debug_kills,
    {
        let mut left: bool = false;
        if matches!(drum, Drum::Oil) && reach > 0 {
            left = chance(rng, pool_odds);
            if left {
                let cells: Vec<Cell> = pool_cells(center, reach);
                self.light_all(f, &cells, pool);
            }
        }
        let ghost mid = (self.ground.fires@, f@);
        let mut cells: Vec<Cell> = Vec::new();
        let mut n: usize = 0;
        while n < near.len()
            invariant
                n <= near@.len() == self.ground.oil@.len(),
                cells@ == near_trail(self.ground.oil@, near@, n as int),
            decreases near@.len() - n,
        {
            if near[n] {
                cells.push(self.ground.oil[n]);
            }
            n += 1;
        }
        self.light_all(f, &cells, trail);
        left
    }
}

/// Whom an explosion hurts: a barrel's everyone, any other the tanks and frogs
/// of the side opposing whoever it is by.
pub proof fn an_explosion_hurts_the_other_side(harm: Harm, tank: Owner, side: Side)
    ensures
        harm is Everyone ==> harm.hurts(tank) && harm.harms(side),
        harm matches Harm::Opponents(owner) ==> {
            &&& harm.hurts(tank) <==> owner is Player != tank is Player
            &&& harm.harms(side) <==> owner is Player != side is Player
        },
{
}

/// A running tank inside the radius takes what the blast does to it if the blast
/// hurts its side, and is a kill if it dies of that; whoever is inside and lives
/// is shoved.
pub proof fn a_tank_in_the_blast_is_struck(
    at: Blasted,
    walk: Seq<u64>,
    distances: Seq<Scalar>,
    harm: Harm,
    radius: Scalar,
    outs: Seq<Tank>,
    n: int,
    k: int,
)
    requires
        0 <= k < n <= walk.len(),
        walk.no_duplicates(),
        at.pieces.contains_key(walk[k]),
        at.pieces[walk[k]] is Tank,
        !at.pieces[walk[k]]->Tank_0.wreck,
        distances[k].at_most(radius),
    ensures
        ({
            let after = blasted(at, walk, distances, harm, radius, outs, n);
            let t = at.pieces[walk[k]]->Tank_0;
            let hurt = match harm {
                Harm::Everyone => true,
                Harm::Opponents(owner) => owner is Player != t.owner is Player,
            };
            &&& hurt ==> after.pieces.contains_key(walk[k]) && after.pieces[walk[k]]
                == Piece::Tank(outs[k])
            &&& hurt && outs[k].wreck ==> exists|i: int|
                0 <= i < after.record.kills.len() && (#[trigger] after.record.kills[i]).victim
                    == outs[k].owner && after.record.kills[i].at == outs[k].position
            &&& !hurt || !outs[k].wreck ==> after.shoved.contains(walk[k])
        }),
    decreases n,
{
    let now = blasted(at, walk, distances, harm, radius, outs, n);
    let was = blasted(at, walk, distances, harm, radius, outs, n - 1);
    let t = at.pieces[walk[k]]->Tank_0;
    assert(thing::<Tank>(at.pieces, walk[k]) == Some(t));
    if k == n - 1 {
        if now.shoved.len() > was.shoved.len() {
            assert(now.shoved.last() == walk[k]);
        }
        if now.record.kills.len() > was.record.kills.len() {
            assert(now.record.kills.last().victim == outs[k].owner);
        }
    } else {
        a_tank_in_the_blast_is_struck(at, walk, distances, harm, radius, outs, n - 1, k);
        assert(walk[k] != walk[n - 1]);
        if was.shoved.contains(walk[k]) {
            let j = choose|j: int| 0 <= j < was.shoved.len() && was.shoved[j] == walk[k];
            assert(now.shoved[j] == walk[k]);
        }
        if exists|i: int|
            0 <= i < was.record.kills.len() && (#[trigger] was.record.kills[i]).victim
                == outs[k].owner && was.record.kills[i].at == outs[k].position {
            let i = choose|i: int|
                0 <= i < was.record.kills.len() && (#[trigger] was.record.kills[i]).victim
                    == outs[k].owner && was.record.kills[i].at == outs[k].position;
            assert(now.record.kills[i] == was.record.kills[i]);
        }
    }
}

/// A living frog inside the radius takes what the blast does to it if the blast
/// harms its side; a dead one, one outside and one that is spared stay as they
/// were.
pub proof fn a_frog_in_the_blast_is_struck(
    pieces: Map<u64, Piece>,
    frogs: Seq<(u64, Frog)>,
    distances: Seq<Scalar>,
    harm: Harm,
    radius: Scalar,
    outs: Seq<Frog>,
    n: int,
    k: int,
)
    requires
        0 <= k < n <= frogs.len(),
        forall|i: int, j: int|
            0 <= i < j < frogs.len() ==> (#[trigger] frogs[i]).0 != (#[trigger] frogs[j]).0,
    ensures
        ({
            let after = frogs_blasted(pieces, frogs, distances, harm, radius, outs, n);
            let fr = frogs[k].1;
            let harmed = match harm {
                Harm::Everyone => true,
                Harm::Opponents(owner) => owner is Player != fr.side is Player,
            };
            &&& !fr.dead && harmed && distances[k].at_most(radius) ==> after.contains_key(
                frogs[k].0,
            ) && after[frogs[k].0] == Piece::Frog(outs[k])
            &&& fr.dead || !harmed || radius.below(distances[k]) ==> after.contains_key(frogs[k].0)
                == pieces.contains_key(frogs[k].0) && after[frogs[k].0] == pieces[frogs[k].0]
        }),
    decreases n,
{
    if k < n - 1 {
        a_frog_in_the_blast_is_struck(pieces, frogs, distances, harm, radius, outs, n - 1, k);
        assert(frogs[k].0 != frogs[n - 1].0);
    } else {
        lemma_frogs_elsewhere(pieces, frogs, distances, harm, radius, outs, n - 1, k);
    }
}

proof fn lemma_frogs_elsewhere(
    pieces: Map<u64, Piece>,
    frogs: Seq<(u64, Frog)>,
    distances: Seq<Scalar>,
    harm: Harm,
    radius: Scalar,
    outs: Seq<Frog>,
    n: int,
    k: int,
)
    requires
        0 <= n <= k < frogs.len(),
        forall|i: int, j: int|
            0 <= i < j < frogs.len() ==> (#[trigger] frogs[i]).0 != (#[trigger] frogs[j]).0,
    ensures
        ({
            let after = frogs_blasted(pieces, frogs, distances, harm, radius, outs, n);
            &&& after.contains_key(frogs[k].0) == pieces.contains_key(frogs[k].0)
            &&& after[frogs[k].0] == pieces[frogs[k].0]
        }),
    decreases n,
{
    if n > 0 {
        lemma_frogs_elsewhere(pieces, frogs, distances, harm, radius, outs, n - 1, k);
        assert(frogs[n - 1].0 != frogs[k].0);
    }
}

/// A tank's death is told with its slot, shakes the ground as a kill does, and
/// leaves a fireball and a burn mark where it happened.
pub proof fn a_wreck_is_told(f: Record, kill: Kill)
    ensures
        ({
            let g = wreck_told(f, kill);
            &&& g.events == f.events.push(
                Event::Wreck { slot: kill.victim.round_slot(), x: kill.at.x, y: kill.at.y },
            )
            &&& g.shocks.len() == f.shocks.len() + 1 && g.shocks.last().at == kill.at
            &&& g.shocks.last().kind is Kill
            &&& g.fireballs.len() == f.fireballs.len() + 1 && g.fireballs.last().at == kill.at
            &&& g.fireballs.last().kind is Wreck
            &&& g.flashes == f.flashes.push(kill.at)
            &&& g.scorches.len() == f.scorches.len() + 1 && g.scorches.last().at == kill.at
            &&& g.scorches.last().dry_only && g.scorches.last().streak is None
            &&& g.kills == f.kills && g.pending_blasts == f.pending_blasts && g.rubble == f.rubble
        }),
{
}

/// A missile leaves the field exactly when it has reached the ground; everything
/// else stays.
pub proof fn a_landed_missile_leaves_the_field(pieces: Map<u64, Piece>, id: u64)
    ensures
        without_landed(pieces).contains_key(id) <==> pieces.contains_key(id) && !(
        pieces[id] is Missile && pieces[id]->Missile_0.arrived),
        without_landed(pieces).contains_key(id) ==> without_landed(pieces)[id] == pieces[id],
        forall|m: Missile| #[trigger] landed()(m) <==> m.arrived,
{
}

/// Every trail cell that is near is lit, and no other.
pub proof fn the_near_trail_is_lit(oil: Seq<Cell>, near: Seq<bool>, n: int, c: Cell)
    requires
        0 <= n <= oil.len() == near.len(),
    ensures
        near_trail(oil, near, n).contains(c) <==> exists|i: int|
            0 <= i < n && #[trigger] oil[i] == c && near[i],
    decreases n,
{
    if n > 0 {
        the_near_trail_is_lit(oil, near, n - 1, c);
        let (now, before) = (near_trail(oil, near, n), near_trail(oil, near, n - 1));
        if before.contains(c) {
            let k = choose|k: int| 0 <= k < before.len() && before[k] == c;
            assert(now[k] == c);
        }
        if near[n - 1] {
            assert(now[before.len() as int] == oil[n - 1]);
            if now.contains(c) {
                let k = choose|k: int| 0 <= k < now.len() && now[k] == c;
                if k < before.len() {
                    assert(before[k] == c);
                }
            }
        }
    }
}

} // verus!
