//! Projectiles landing: what a shot strikes, whether it is thrown back, bounces
//! or bursts, and what a burst does to what it struck.
//!
//! The host measures when a shot enters each box, rolls the damage and works
//! out what it takes off.

use rand::distr::Bernoulli;
use rand::rngs::SmallRng;
use vstd::prelude::*;

use crate::arms::deflector;
use crate::combat::{
    alerted, hit_frog, hit_tank, hit_tile, hit_wall, lemma_paired, paired, shell_vs_shell, tank_hit, tile_hit,
    FrogHit, TankHit,
};
use crate::event::{Event, HitTarget};
use crate::field::{selects, thing, Kind};
use crate::frame::{Frame, Record, Scene, ShockKind};
use crate::game::Game;
use crate::hits::{
    fly, flown, impact, impact_event, may_fly_over, may_impact, must_fly_over, nearest, obstacle, record_impact, swept, find_box, Bounce,
    Candidate, Impact, MaterialOdds, ShellTarget, TerrainBox,
};
use crate::kinds::{Owner, MAX_SEATS};
use crate::pieces::{
    shield_spent, took_blow, Frog, Piece, ProvisionalKind, Shot, ShotState, Tank, Tile,
};
use crate::props::{blow, coin_decides, Blow, DamageCause};
use crate::scalar::{Point, Scalar};

verus! {

/// What a shot hit is on the field, as what it is.
pub open spec fn there(pieces: Map<u64, Piece>, target: ShellTarget) -> bool {
    match target {
        ShellTarget::PlayerTank(e) => thing::<Tank>(pieces, e) is Some,
        ShellTarget::EnemyTank(e) => thing::<Tank>(pieces, e) is Some,
        ShellTarget::Frog(e) => thing::<Frog>(pieces, e) is Some,
        ShellTarget::Obstacle(e) => thing::<Tile>(pieces, e) is Some,
        ShellTarget::Wall => true,
    }
}

/// Whether a hit rolls for damage: on a live tank, a live frog or a tile.
pub open spec fn rolls(pieces: Map<u64, Piece>, target: ShellTarget) -> bool {
    match target {
        ShellTarget::PlayerTank(e) => thing::<Tank>(pieces, e) matches Some(t) && !t.wreck,
        ShellTarget::EnemyTank(e) => thing::<Tank>(pieces, e) matches Some(t) && !t.wreck,
        ShellTarget::Frog(e) => thing::<Frog>(pieces, e) matches Some(g) && !g.dead,
        ShellTarget::Obstacle(_) => true,
        ShellTarget::Wall => false,
    }
}

/// What became of what was hit.
#[derive(Clone, Copy, Debug, PartialEq, Eq, Structural)]
pub enum HitResult {
    Tank(u64, TankHit),
    Frog(u64, FrogHit),
    /// A tile, and whether it died.
    Tile(bool),
    Wall,
}

/// A hit on a tank: the field, the record and what became of it.
pub open spec fn tank_struck<A: Fn(Tank, Scalar) -> Tank>(
    wound: A,
    pieces: Map<u64, Piece>,
    f: Record,
    e: u64,
    at: Point,
    damage: Scalar,
    after: Map<u64, Piece>,
    f_after: Record,
    hit: HitResult,
) -> bool {
    let t = thing::<Tank>(pieces, e)->0;
    if t.wreck {
        after == pieces && f_after == f && hit == HitResult::Tank(e, TankHit::Ignored)
    } else {
        exists|out: Tank|
            {
                &&& #[trigger] call_ensures(wound, (t, damage), out)
                &&& f_after == tank_hit(f, t, damage, out, at)
                &&& if out.wreck {
                    after == pieces.insert(e, out.as_piece()) && hit == HitResult::Tank(
                        e,
                        TankHit::Killed,
                    )
                } else {
                    after == pieces.insert(
                        e,
                        Tank { mind: alerted(out.mind), ..out }.as_piece(),
                    ) && hit == HitResult::Tank(e, TankHit::Survived)
                }
            }
    }
}

/// A hit on a frog: the field, the record and what became of it.
pub open spec fn frog_struck<B: Fn(Frog, Scalar) -> Frog>(
    wound: B,
    pieces: Map<u64, Piece>,
    f: Record,
    e: u64,
    at: Point,
    damage: Scalar,
    makes_hop: bool,
    after: Map<u64, Piece>,
    f_after: Record,
    hit: HitResult,
) -> bool {
    let g = thing::<Frog>(pieces, e)->0;
    if g.dead {
        after == pieces && f_after == f && hit == HitResult::Frog(e, FrogHit::Ignored)
    } else {
        exists|out: Frog|
            {
                let told = f.with_event(
                    Event::Hit {
                        target: HitTarget::Frog { side: g.side },
                        damage,
                        killed: out.dead,
                        x: at.x,
                        y: at.y,
                    },
                );
                &&& #[trigger] call_ensures(wound, (g, damage), out)
                &&& after == pieces.insert(e, out.as_piece())
                &&& f_after == (if out.dead {
                    told.with_shock(out.position, ShockKind::Frog)
                } else {
                    told
                })
                &&& hit == HitResult::Frog(
                    e,
                    if out.dead {
                        FrogHit::Killed
                    } else if out.can_hop && makes_hop {
                        FrogHit::Hops
                    } else {
                        FrogHit::Stays
                    },
                )
            }
    }
}

/// A hit on a tile: the field, the record and whether it died.
pub open spec fn tile_struck<C: Fn(Tile, Scalar) -> Blow>(
    wear: C,
    pieces: Map<u64, Piece>,
    f: Record,
    e: u64,
    at: Point,
    damage: Scalar,
    cause: DamageCause,
    after: Map<u64, Piece>,
    f_after: Record,
    hit: HitResult,
) -> bool {
    let t = thing::<Tile>(pieces, e)->0;
    exists|b: Blow, heads: bool|
        {
            let out = blow(t, b, cause, heads);
            &&& #[trigger] call_ensures(wear, (t, damage), b)
            &&& out == #[trigger] blow(t, b, cause, heads)
            &&& after == pieces.insert(e, out.0.as_piece())
            &&& f_after == tile_hit(f, t, damage, out, cause, at)
            &&& hit == HitResult::Tile(out.1)
        }
}

/// What a burst does to what it struck.
pub open spec fn hit_applied<A: Fn(Tank, Scalar) -> Tank, B: Fn(Frog, Scalar) -> Frog, C: Fn(Tile, Scalar) -> Blow>(
    wound: A,
    hurt: B,
    wear: C,
    pieces: Map<u64, Piece>,
    f: Record,
    target: ShellTarget,
    at: Point,
    damage: Scalar,
    makes_hop: bool,
    cause: DamageCause,
    after: Map<u64, Piece>,
    f_after: Record,
    hit: HitResult,
) -> bool {
    match target {
        ShellTarget::PlayerTank(e) => tank_struck(
            wound,
            pieces,
            f,
            e,
            at,
            damage,
            after,
            f_after,
            hit,
        ),
        ShellTarget::EnemyTank(e) => tank_struck(
            wound,
            pieces,
            f,
            e,
            at,
            damage,
            after,
            f_after,
            hit,
        ),
        ShellTarget::Frog(e) => frog_struck(
            hurt,
            pieces,
            f,
            e,
            at,
            damage,
            makes_hop,
            after,
            f_after,
            hit,
        ),
        ShellTarget::Obstacle(e) => tile_struck(
            wear,
            pieces,
            f,
            e,
            at,
            damage,
            cause,
            after,
            f_after,
            hit,
        ),
        ShellTarget::Wall => after == pieces && hit == HitResult::Wall && f_after == f.with_event(
            Event::Hit {
                target: HitTarget::Wall,
                damage: Scalar::zero(),
                killed: false,
                x: at.x,
                y: at.y,
            },
        ),
    }
}

/// A wound is a blow, and nothing else happens to the tank.
pub open spec fn wounds_well<A: Fn(Tank, Scalar) -> Tank>(wound: A) -> bool {
    &&& forall|t: Tank, d: Scalar| call_requires(wound, (t, d))
    &&& forall|t: Tank, d: Scalar, out: Tank| #[trigger]
        call_ensures(wound, (t, d), out) ==> took_blow(t, out)
}

/// A wound leaves a frog on its side.
pub open spec fn hurts_well<B: Fn(Frog, Scalar) -> Frog>(hurt: B) -> bool {
    &&& forall|g: Frog, d: Scalar| call_requires(hurt, (g, d))
    &&& forall|g: Frog, d: Scalar, out: Frog| #[trigger]
        call_ensures(hurt, (g, d), out) ==> out.side == g.side
}

impl Game {
    /// Whether a hit rolls for damage.
    pub fn hit_rolls(&self, target: ShellTarget) -> (r: bool)
        ensures
            r == rolls(self.field@, target),
    {
        match target {
            ShellTarget::PlayerTank(e) | ShellTarget::EnemyTank(e) => {
                let t: Option<Tank> = self.field.get(e);
                match t {
                    Some(t) => !t.wreck,
                    None => false,
                }
            },
            ShellTarget::Frog(e) => {
                let g: Option<Frog> = self.field.get(e);
                match g {
                    Some(g) => !g.dead,
                    None => false,
                }
            },
            ShellTarget::Obstacle(_) => true,
            ShellTarget::Wall => false,
        }
    }

    fn strike_tank<A: Fn(Tank, Scalar) -> Tank>(
        &mut self,
        f: &mut Frame,
        e: u64,
        at: Point,
        damage: Scalar,
        wound: &A,
    ) -> (hit: HitResult)
        requires
            old(self).wf(),
            thing::<Tank>(old(self).field@, e) is Some,
            wounds_well(*wound),
        ensures
            final(self).wf(),
            tank_struck(
                *wound,
                old(self).field@,
                old(f)@,
                e,
                at,
                damage,
                final(self).field@,
                final(f)@,
                hit,
            ),
            final(self).round == old(self).round,
            final(self).keeps_surroundings(old(self)),
            final(self).events == old(self).events,
    {
        let ghost before = self.field@;
        let found: Option<Tank> = self.field.get(e);
        match found {
            Some(t) => {
                let strike = |t: Tank| -> (r: (Scalar, Tank))
                    requires
                        call_requires(*wound, (t, damage)),
                    ensures
                        r.0 == damage,
                        call_ensures(*wound, (t, damage), r.1),
                { (damage, wound(t, damage)) };
                let (after, became): (Tank, TankHit) = hit_tank(f, t, at, strike);
                self.field.put(e, after);
                proof {
                    if t.wreck {
                        assert(self.field@ =~= before);
                    }
                    let seats = self.round.seats@;
                    assert forall|i: int| #![trigger seats[i]] 0 <= i < MAX_SEATS implies (
                    seats[i] matches Some(e) ==> i < self.round.players.seated() && (thing::<Tank>(
                        self.field@,
                        e,
                    ) matches Some(t) && t.owner == Owner::Player(i as u8) && t.mind is None)) by {
                        assert(seats[i] == old(self).round.seats@[i]);
                        if let Some(e) = seats[i] {
                            assert(thing::<Tank>(before, e) is Some);
                        }
                    }
                }
                HitResult::Tank(e, became)
            },
            None => HitResult::Wall,
        }
    }

    fn strike_frog<B: Fn(Frog, Scalar) -> Frog>(
        &mut self,
        f: &mut Frame,
        e: u64,
        at: Point,
        damage: Scalar,
        makes_hop: bool,
        hurt: &B,
    ) -> (hit: HitResult)
        requires
            old(self).wf(),
            thing::<Frog>(old(self).field@, e) is Some,
            hurts_well(*hurt),
        ensures
            final(self).wf(),
            frog_struck(
                *hurt,
                old(self).field@,
                old(f)@,
                e,
                at,
                damage,
                makes_hop,
                final(self).field@,
                final(f)@,
                hit,
            ),
            final(self).round == old(self).round,
            final(self).keeps_surroundings(old(self)),
            final(self).events == old(self).events,
    {
        let ghost before = self.field@;
        let found: Option<Frog> = self.field.get(e);
        match found {
            Some(g) => {
                let strike = |g: Frog| -> (r: (Scalar, Frog))
                    requires
                        call_requires(*hurt, (g, damage)),
                    ensures
                        r.0 == damage,
                        call_ensures(*hurt, (g, damage), r.1),
                { (damage, hurt(g, damage)) };
                let (after, became): (Frog, FrogHit) = hit_frog(f, g, at, makes_hop, strike);
                self.field.put(e, after);
                proof {
                    if g.dead {
                        assert(self.field@ =~= before);
                    }
                    let seats = self.round.seats@;
                    assert forall|i: int| #![trigger seats[i]] 0 <= i < MAX_SEATS implies (
                    seats[i] matches Some(e) ==> i < self.round.players.seated() && (thing::<Tank>(
                        self.field@,
                        e,
                    ) matches Some(t) && t.owner == Owner::Player(i as u8) && t.mind is None)) by {
                        assert(seats[i] == old(self).round.seats@[i]);
                        if let Some(e) = seats[i] {
                            assert(thing::<Tank>(before, e) is Some);
                        }
                    }
                }
                HitResult::Frog(e, became)
            },
            None => HitResult::Wall,
        }
    }

    fn strike_tile<C: Fn(Tile, Scalar) -> Blow>(
        &mut self,
        f: &mut Frame,
        e: u64,
        at: Point,
        damage: Scalar,
        cause: DamageCause,
        wear: &C,
        one_shot: &Bernoulli,
        rng: &mut SmallRng,
    ) -> (hit: HitResult)
        requires
            old(self).wf(),
            thing::<Tile>(old(self).field@, e) is Some,
            forall|t: Tile, d: Scalar| call_requires(*wear, (t, d)),
        ensures
            final(self).wf(),
            tile_struck(
                *wear,
                old(self).field@,
                old(f)@,
                e,
                at,
                damage,
                cause,
                final(self).field@,
                final(f)@,
                hit,
            ),
            !coin_decides(thing::<Tile>(old(self).field@, e)->0, cause) ==> *final(rng) == *old(rng),
            final(self).round == old(self).round,
            final(self).keeps_surroundings(old(self)),
            final(self).events == old(self).events,
    {
        let ghost before = self.field@;
        let found: Option<Tile> = self.field.get(e);
        match found {
            Some(t) => {
                let b: Blow = wear(t, damage);
                let (after, died): (Tile, bool) = hit_tile(
                    f,
                    t,
                    damage,
                    &b,
                    cause,
                    one_shot,
                    rng,
                    at,
                );
                self.field.put(e, after);
                proof {
                    assert(call_ensures(*wear, (t, damage), b));
                    assert((after, died) == blow(t, b, cause, true) || (after, died) == blow(
                        t,
                        b,
                        cause,
                        false,
                    ));
                    let seats = self.round.seats@;
                    assert forall|i: int| #![trigger seats[i]] 0 <= i < MAX_SEATS implies (
                    seats[i] matches Some(e) ==> i < self.round.players.seated() && (thing::<Tank>(
                        self.field@,
                        e,
                    ) matches Some(t) && t.owner == Owner::Player(i as u8) && t.mind is None)) by {
                        assert(seats[i] == old(self).round.seats@[i]);
                        if let Some(e) = seats[i] {
                            assert(thing::<Tank>(before, e) is Some);
                        }
                    }
                }
                HitResult::Tile(died)
            },
            None => HitResult::Wall,
        }
    }

    /// A burst does to what it struck what that kind of thing suffers.
    /// `damage` is the roll, for a hit that rolls, and `wound`, `hurt` and
    /// `wear` take it off. Returns what became of it;
    /// a tank that survives is to be shoved and a frog that hops to be landed.
    pub fn apply_hit<A: Fn(Tank, Scalar) -> Tank, B: Fn(Frog, Scalar) -> Frog, C: Fn(Tile, Scalar) -> Blow>(
        &mut self,
        f: &mut Frame,
        target: ShellTarget,
        at: Point,
        damage: Scalar,
        makes_hop: bool,
        cause: DamageCause,
        wound: &A,
        hurt: &B,
        wear: &C,
        one_shot: &Bernoulli,
        rng: &mut SmallRng,
    ) -> (hit: HitResult)
        requires
            old(self).wf(),
            there(old(self).field@, target),
            wounds_well(*wound),
            hurts_well(*hurt),
            forall|t: Tile, d: Scalar| call_requires(*wear, (t, d)),
        ensures
            final(self).wf(),
            hit_applied(
                *wound,
                *hurt,
                *wear,
                old(self).field@,
                old(f)@,
                target,
                at,
                damage,
                makes_hop,
                cause,
                final(self).field@,
                final(f)@,
                hit,
            ),
            !(target matches ShellTarget::Obstacle(e) && coin_decides(
                thing::<Tile>(old(self).field@, e)->0,
                cause,
            )) ==> *final(rng) == *old(rng),
            final(self).round == old(self).round,
            final(self).keeps_surroundings(old(self)),
            final(self).events == old(self).events,
    {
        match target {
            ShellTarget::PlayerTank(e) => self.strike_tank(f, e, at, damage, wound),
            ShellTarget::EnemyTank(e) => self.strike_tank(f, e, at, damage, wound),
            ShellTarget::Frog(e) => self.strike_frog(f, e, at, damage, makes_hop, hurt),
            ShellTarget::Obstacle(e) => self.strike_tile(
                f,
                e,
                at,
                damage,
                cause,
                wear,
                one_shot,
                rng,
            ),
            ShellTarget::Wall => {
                hit_wall(f, at);
                HitResult::Wall
            },
        }
    }
}

/// What a shot did this frame.
#[derive(Clone, Copy, Debug, PartialEq, Eq, Structural)]
pub enum Landed {
    /// It met nothing and flies on.
    Missed,
    /// It was thrown back or bounced, at a place that flashes.
    Bounced(Point),
    /// It burst at a place that flashes; the target is hit if the round is
    /// live.
    Burst(ShellTarget, Point, bool),
}

/// A shot that burst where it struck.
pub open spec fn burst_at(s: Shot, at: Point) -> Shot {
    Shot { position: at, state: ShotState::Bursting, ..s }
}

/// Whose shield a target has up, if it is a tank's and has.
pub open spec fn shield_of(pieces: Map<u64, Piece>, target: ShellTarget) -> Option<Owner> {
    let found = match target {
        ShellTarget::PlayerTank(e) => deflector(pieces, e),
        ShellTarget::EnemyTank(e) => deflector(pieces, e),
        _ => None,
    };
    match found {
        Some((_, owner)) => Some(owner),
        None => None,
    }
}

/// The tank a target is.
pub open spec fn tank_of(target: ShellTarget) -> u64 {
    match target {
        ShellTarget::PlayerTank(e) => e,
        ShellTarget::EnemyTank(e) => e,
        _ => 0,
    }
}

/// A shield threw a shot back: the shield is charged for it, and the shot
/// turns away from the tank and is now that tank's.
pub open spec fn thrown_back<T: Fn(Shot, Point) -> Shot, D: Fn(Tank, Shot) -> (Scalar, Scalar)>(
    turn: T,
    spend: D,
    pieces: Map<u64, Piece>,
    entity: u64,
    s: Shot,
    e: u64,
    after: Map<u64, Piece>,
) -> bool {
    let t = thing::<Tank>(pieces, e)->0;
    exists|turned: Shot, cost: (Scalar, Scalar)|
        {
            &&& #[trigger] call_ensures(turn, (s, t.position), turned)
            &&& #[trigger] call_ensures(spend, (t, s), cost)
            &&& after == pieces.insert(e, shield_spent(t, cost.0, cost.1).as_piece()).insert(
                entity,
                Shot { owner: t.owner, ..turned }.as_piece(),
            )
        }
}

/// A shot bounced off a tile along a heading.
pub open spec fn bounced<B: Fn(Shot, TerrainBox) -> (Shot, Scalar)>(
    reflect: B,
    pieces: Map<u64, Piece>,
    boxes: Seq<TerrainBox>,
    entity: u64,
    s: Shot,
    target: ShellTarget,
    heading: Scalar,
    after: Map<u64, Piece>,
) -> bool {
    match target {
        ShellTarget::Obstacle(tile) => match find_box(boxes, tile) {
            Some(b) => exists|out: (Shot, Scalar)| #[trigger]
                call_ensures(reflect, (s, b), out) && heading == out.1 && after == pieces.insert(
                    entity,
                    out.0.as_piece(),
                ),
            None => false,
        },
        _ => false,
    }
}

/// What a landed shot does to the field, by what kind of impact it was.
pub open spec fn impact_done<
    T: Fn(Shot, Point) -> Shot,
    D: Fn(Tank, Shot) -> (Scalar, Scalar),
    B: Fn(Shot, TerrainBox) -> (Shot, Scalar),
>(
    turn: T,
    spend: D,
    reflect: B,
    pieces: Map<u64, Piece>,
    boxes: Seq<TerrainBox>,
    entity: u64,
    s: Shot,
    target: ShellTarget,
    at: Point,
    kind: Impact,
    heading: Scalar,
    after: Map<u64, Piece>,
) -> bool {
    match kind {
        Impact::Deflected(_) => thrown_back(
            turn,
            spend,
            pieces,
            entity,
            s,
            tank_of(target),
            after,
        ),
        Impact::Ricochet => bounced(reflect, pieces, boxes, entity, s, target, heading, after),
        Impact::Burst => after == pieces.insert(entity, burst_at(s, at).as_piece()),
    }
}

/// The projectile's own rule on the tile it struck, as `ricochets` says.
pub open spec fn own_rule<R: Fn(Shot, TerrainBox) -> bool>(
    ricochets: R,
    boxes: Seq<TerrainBox>,
    s: Shot,
    target: ShellTarget,
    own: bool,
) -> bool {
    match target {
        ShellTarget::Obstacle(tile) => match find_box(boxes, tile) {
            Some(b) => call_ensures(ricochets, (s, b), own),
            None => !own,
        },
        _ => !own,
    }
}

/// A shot struck something: where, what kind of impact that was, what it did
/// and what was recorded of it.
pub open spec fn shot_landed<
    L: Fn(Shot, Scalar) -> Point,
    T: Fn(Shot, Point) -> Shot,
    D: Fn(Tank, Shot) -> (Scalar, Scalar),
    R: Fn(Shot, TerrainBox) -> bool,
    B: Fn(Shot, TerrainBox) -> (Shot, Scalar),
>(
    along: L,
    turn: T,
    spend: D,
    ricochets: R,
    reflect: B,
    pieces: Map<u64, Piece>,
    f: Record,
    boxes: Seq<TerrainBox>,
    odds: &MaterialOdds,
    can_bounce: bool,
    live: bool,
    entity: u64,
    s: Shot,
    target: ShellTarget,
    t: Scalar,
    at: Point,
    own: bool,
    kind: Impact,
    heading: Scalar,
    after: Map<u64, Piece>,
    f_after: Record,
    r: Landed,
) -> bool {
    &&& call_ensures(along, (s, t), at)
    &&& own_rule(ricochets, boxes, s, target, own)
    &&& may_impact(
        target,
        shield_of(pieces, target),
        boxes,
        Bounce { ricochets: own, can_bounce },
        odds,
        kind,
    )
    &&& impact_done(
        turn,
        spend,
        reflect,
        pieces,
        boxes,
        entity,
        s,
        target,
        at,
        kind,
        heading,
        after,
    )
    &&& f_after == (match impact_event(kind, s.owner, at, heading) {
        Some(event) => f.with_event(event),
        None => f,
    })
    &&& r == (if kind == Impact::Burst {
        Landed::Burst(target, at, live)
    } else {
        Landed::Bounced(at)
    })
}

/// A shot's landing rests on a coin: it strikes a tile that it may fly over or
/// be bounced by.
pub open spec fn draws(
    cs: Seq<Candidate>,
    shooter: Owner,
    boxes: Seq<TerrainBox>,
    pass_over: &MaterialOdds,
    deflects: &MaterialOdds,
    can_bounce: bool,
    ignored: Seq<u64>,
) -> bool {
    swept(cs, shooter, ignored) matches Some((ShellTarget::Obstacle(tile), _)) && (may_fly_over(
        boxes,
        pass_over,
        tile,
    ) || (can_bounce && may_fly_over(boxes, deflects, tile)))
}

/// A shot flew over what it did and struck the first thing left, if anything.
pub open spec fn landing<
    L: Fn(Shot, Scalar) -> Point,
    T: Fn(Shot, Point) -> Shot,
    D: Fn(Tank, Shot) -> (Scalar, Scalar),
    R: Fn(Shot, TerrainBox) -> bool,
    B: Fn(Shot, TerrainBox) -> (Shot, Scalar),
>(
    along: L,
    turn: T,
    spend: D,
    ricochets: R,
    reflect: B,
    before: Scene,
    cs: Seq<Candidate>,
    boxes: Seq<TerrainBox>,
    pass_over: &MaterialOdds,
    deflects: &MaterialOdds,
    can_bounce: bool,
    live: bool,
    entity: u64,
    ignored: Seq<u64>,
    flew_over: Seq<u64>,
    after: Scene,
    r: Landed,
) -> bool {
    let s = thing::<Shot>(before.pieces, entity)->0;
    &&& flown(cs, s.owner, boxes, pass_over, ignored, flew_over)
    &&& !(swept(cs, s.owner, flew_over) matches Some((ShellTarget::Obstacle(tile), _))
        && must_fly_over(boxes, pass_over, tile))
    &&& match swept(cs, s.owner, flew_over) {
        None => r == Landed::Missed && after == before,
        Some((target, t)) => exists|at: Point, own: bool, kind: Impact, heading: Scalar| #[trigger]
            shot_landed(
                along,
                turn,
                spend,
                ricochets,
                reflect,
                before.pieces,
                before.record,
                boxes,
                deflects,
                can_bounce,
                live,
                entity,
                s,
                target,
                t,
                at,
                own,
                kind,
                heading,
                after.pieces,
                after.record,
                r,
            ),
    }
}

/// A candidate's target is on the field.
pub open spec fn targets_there(pieces: Map<u64, Piece>, cs: Seq<Candidate>) -> bool {
    forall|i: int| 0 <= i < cs.len() ==> there(pieces, (#[trigger] cs[i]).target)
}

impl Game {
    /// One shot's movement this frame: it flies over what it rolls to fly
    /// over and strikes the first thing left. A raised shield is charged and
    /// throws it back under the tank's own name; a tile may bounce it; else
    /// it bursts where it struck. Nothing is recorded of a miss.
    pub fn land_shot<
        L: Fn(Shot, Scalar) -> Point,
        T: Fn(Shot, Point) -> Shot,
        D: Fn(Tank, Shot) -> (Scalar, Scalar),
        R: Fn(Shot, TerrainBox) -> bool,
        B: Fn(Shot, TerrainBox) -> (Shot, Scalar),
    >(
        &mut self,
        f: &mut Frame,
        entity: u64,
        cs: &Vec<Candidate>,
        boxes: &Vec<TerrainBox>,
        ignored: &mut Vec<u64>,
        pass_over: &MaterialOdds,
        deflects: &MaterialOdds,
        can_bounce: bool,
        live: bool,
        along: &L,
        turn: &T,
        spend: &D,
        ricochets: &R,
        reflect: &B,
        rng: &mut SmallRng,
    ) -> (r: Landed)
        requires
            old(self).wf(),
            thing::<Shot>(old(self).field@, entity) is Some,
            targets_there(old(self).field@, cs@),
            forall|s: Shot, t: Scalar| call_requires(*along, (s, t)),
            forall|s: Shot, p: Point| call_requires(*turn, (s, p)),
            forall|t: Tank, s: Shot| call_requires(*spend, (t, s)),
            forall|s: Shot, b: TerrainBox| call_requires(*ricochets, (s, b)),
            forall|s: Shot, b: TerrainBox| call_requires(*reflect, (s, b)),
        ensures
            final(self).wf(),
            final(self).round == old(self).round,
            final(self).keeps_surroundings(old(self)),
            final(self).events == old(self).events,
            landing(
                *along,
                *turn,
                *spend,
                *ricochets,
                *reflect,
                Scene { pieces: old(self).field@, record: old(f)@ },
                cs@,
                boxes@,
                pass_over,
                deflects,
                can_bounce,
                live,
                entity,
                old(ignored)@,
                final(ignored)@,
                Scene { pieces: final(self).field@, record: final(f)@ },
                r,
            ),
            !draws(
                cs@,
                (thing::<Shot>(old(self).field@, entity)->0).owner,
                boxes@,
                pass_over,
                deflects,
                can_bounce,
                old(ignored)@,
            ) ==> *final(rng) == *old(rng),
    {
        let ghost before = self.field@;
        let found: Option<Shot> = self.field.get(entity);
        let s: Shot = match found {
            Some(s) => s,
            None => {
                return Landed::Missed;
            },
        };
        let hit: Option<(ShellTarget, Scalar)> = fly(cs, s.owner, boxes, pass_over, ignored, rng);
        let (target, t): (ShellTarget, Scalar) = match hit {
            Some(hit) => hit,
            None => {
                return Landed::Missed;
            },
        };
        proof {
            lemma_swept_there(cs@, s.owner, ignored@, cs@.len() as int);
            let i = choose|i: int| 0 <= i < cs@.len() && (#[trigger] cs@[i]).target == target;
            assert(there(before, cs@[i].target));
        }
        let at: Point = along(s, t);
        let shield: Option<Owner> = self.target_shield(target);
        let tile: Option<TerrainBox> = match target {
            ShellTarget::Obstacle(tile) => obstacle(boxes, tile),
            _ => None,
        };
        let own: bool = match tile {
            Some(b) => ricochets(s, b),
            None => false,
        };
        let kind: Impact = impact(
            target,
            shield,
            boxes,
            Bounce { ricochets: own, can_bounce },
            deflects,
            rng,
        );
        let mut heading: Scalar = Scalar::zero();
        match kind {
            Impact::Deflected(owner) => {
                let e: u64 = match target {
                    ShellTarget::PlayerTank(e) | ShellTarget::EnemyTank(e) => e,
                    _ => 0,
                };
                let struck: Option<Tank> = self.field.get(e);
                if let Some(tank) = struck {
                    let turned: Shot = turn(s, tank.position);
                    let cost: (Scalar, Scalar) = spend(tank, s);
                    let mut spent: Tank = tank;
                    spent.spend_shield(cost.0, cost.1);
                    self.field.put(e, spent);
                    self.field.put(entity, Shot { owner: tank.owner, ..turned });
                    assert(thrown_back(*turn, *spend, before, entity, s, e, self.field@)) by {
                        assert(call_ensures(*turn, (s, tank.position), turned));
                        assert(call_ensures(*spend, (tank, s), cost));
                    }
                }
            },
            Impact::Ricochet => {
                if let Some(b) = tile {
                    let out: (Shot, Scalar) = reflect(s, b);
                    heading = out.1;
                    self.field.put(entity, out.0);
                    assert(call_ensures(*reflect, (s, b), out));
                }
            },
            Impact::Burst => {
                self.field.put(entity, Shot { position: at, state: ShotState::Bursting, ..s });
            },
        }
        let applies: bool = record_impact(f, kind, s.owner, at, heading, live);
        proof {
            let seats = self.round.seats@;
            assert forall|i: int| #![trigger seats[i]] 0 <= i < MAX_SEATS implies (
            seats[i] matches Some(e) ==> i < self.round.players.seated() && (thing::<Tank>(
                self.field@,
                e,
            ) matches Some(t) && t.owner == Owner::Player(i as u8) && t.mind is None)) by {
                assert(seats[i] == old(self).round.seats@[i]);
                if let Some(e) = seats[i] {
                    assert(thing::<Tank>(before, e) is Some);
                }
            }
        }
        let r: Landed = match kind {
            Impact::Burst => Landed::Burst(target, at, applies),
            _ => Landed::Bounced(at),
        };
        let ghost was = Scene { pieces: before, record: old(f)@ };
        let ghost now = Scene { pieces: self.field@, record: f@ };
        assert(shot_landed(
            *along,
            *turn,
            *spend,
            *ricochets,
            *reflect,
            was.pieces,
            was.record,
            boxes@,
            deflects,
            can_bounce,
            live,
            entity,
            s,
            target,
            t,
            at,
            own,
            kind,
            heading,
            now.pieces,
            now.record,
            r,
        ));
        r
    }

    fn target_shield(&self, target: ShellTarget) -> (shield: Option<Owner>)
        ensures
            shield == shield_of(self.field@, target),
    {
        let found: Option<(Point, Owner)> = match target {
            ShellTarget::PlayerTank(e) | ShellTarget::EnemyTank(e) => self.shield_deflector(e),
            _ => None,
        };
        match found {
            Some(d) => Some(d.1),
            None => None,
        }
    }
}

pub(crate) proof fn lemma_swept_there(cs: Seq<Candidate>, shooter: Owner, ignored: Seq<u64>, n: int)
    requires
        0 <= n <= cs.len(),
    ensures
        nearest(cs, shooter, ignored, n) matches Some((_, _, target)) ==> exists|i: int|
            0 <= i < n && (#[trigger] cs[i]).target == target,
    decreases n,
{
    if n > 0 {
        lemma_swept_there(cs, shooter, ignored, n - 1);
        let before = nearest(cs, shooter, ignored, n - 1);
        if nearest(cs, shooter, ignored, n) == before {
            if let Some((_, _, target)) = before {
                let i = choose|i: int| 0 <= i < n - 1 && (#[trigger] cs[i]).target == target;
                assert(cs[i].target == target);
            }
        } else {
            assert(cs[n - 1].target == cs[n - 1].target);
        }
    }
}

/// A shell in the air.
pub open spec fn shell_flies() -> spec_fn(Shot) -> bool {
    |s: Shot| s.kind == ProvisionalKind::Shell && s.state == ShotState::Flying
}

/// The field with the shells of the first `n` pairs detonated.
pub open spec fn cancelled(
    pieces: Map<u64, Piece>,
    shells: Seq<(u64, Shot)>,
    pairs: Seq<(int, int)>,
    n: int,
) -> Map<u64, Piece>
    decreases n,
{
    if n <= 0 {
        pieces
    } else {
        let (a, b) = (shells[pairs[n - 1].0], shells[pairs[n - 1].1]);
        cancelled(pieces, shells, pairs, n - 1).insert(
            a.0,
            Shot { state: ShotState::Bursting, ..a.1 }.as_piece(),
        ).insert(b.0, Shot { state: ShotState::Bursting, ..b.1 }.as_piece())
    }
}

/// The record with the first `n` collisions.
pub open spec fn collided(f: Record, mids: Seq<Point>, n: int) -> Record
    decreases n,
{
    if n <= 0 {
        f
    } else {
        collided(f, mids, n - 1).with_event(
            Event::ShellsCollided { x: mids[n - 1].x, y: mids[n - 1].y },
        )
    }
}

/// Where each pair met.
pub open spec fn met<M: Fn(Shot, Shot) -> Point>(
    meet: M,
    shells: Seq<(u64, Shot)>,
    pairs: Seq<(int, int)>,
    mids: Seq<Point>,
    n: int,
) -> bool {
    mids.len() == n && forall|k: int|
        0 <= k < n ==> call_ensures(
            meet,
            (shells[pairs[k].0].1, shells[pairs[k].1].1),
            #[trigger] mids[k],
        )
}

/// Whose shells they are.
pub open spec fn owners_of(shells: Seq<(u64, Shot)>) -> Seq<Owner> {
    Seq::new(shells.len(), |i: int| shells[i].1.owner)
}

proof fn lemma_collided_same(f: Record, a: Seq<Point>, b: Seq<Point>, n: int)
    requires
        0 <= n <= a.len(),
        n <= b.len(),
        forall|i: int| 0 <= i < n ==> a[i] == b[i],
    ensures
        collided(f, a, n) == collided(f, b, n),
    decreases n,
{
    if n > 0 {
        lemma_collided_same(f, a, b, n - 1);
    }
}

impl Game {
    /// The shells in the air, in no particular order.
    pub fn flying_shells(&self) -> (shells: Vec<(u64, Shot)>)
        ensures
            selects::<Shot>(self.field@, shell_flies(), shells@),
    {
        let test = |s: Shot| -> (b: bool)
            ensures
                b == (s.kind == ProvisionalKind::Shell && s.state == ShotState::Flying),
        { s.kind == ProvisionalKind::Shell && s.state == ShotState::Flying };
        let shells = self.field.select(Ghost(shell_flies()), test);
        shells
    }

    /// Shells of opposing sides that meet in the air detonate each other.
    /// `shells` comes from [`Game::flying_shells`], `meets` says which come
    /// close enough, and `meet` where a pair met; that is where the flash is.
    pub fn cancel_shells<M: Fn(Shot, Shot) -> Point>(
        &mut self,
        f: &mut Frame,
        shells: &Vec<(u64, Shot)>,
        meets: &Vec<Vec<bool>>,
        meet: &M,
    ) -> (flashes: Vec<Point>)
        requires
            old(self).wf(),
            selects::<Shot>(old(self).field@, shell_flies(), shells@),
            meets@.len() == shells@.len(),
            forall|i: int| 0 <= i < meets@.len() ==> (#[trigger] meets@[i])@.len() == shells@.len(),
            forall|a: Shot, b: Shot| call_requires(*meet, (a, b)),
        ensures
            final(self).wf(),
            final(self).round == old(self).round,
            final(self).keeps_surroundings(old(self)),
            final(self).events == old(self).events,
            ({
                let pairs = paired(owners_of(shells@), meets@, shells@.len() as int).0;
                &&& met(*meet, shells@, pairs, flashes@, pairs.len() as int)
                &&& final(self).field@ == cancelled(
                    old(self).field@,
                    shells@,
                    pairs,
                    pairs.len() as int,
                )
                &&& final(f)@ == collided(old(f)@, flashes@, pairs.len() as int)
            }),
    {
        let ghost before = self.field@;
        let mut owners: Vec<Owner> = Vec::new();
        let mut k: usize = 0;
        while k < shells.len()
            invariant
                k <= shells@.len(),
                owners@ == owners_of(shells@).take(k as int),
            decreases shells@.len() - k,
        {
            owners.push(shells[k].1.owner);
            k += 1;
            assert(owners@ =~= owners_of(shells@).take(k as int));
        }
        assert(owners@ =~= owners_of(shells@));
        let found: Vec<(usize, usize)> = shell_vs_shell(&owners, meets);
        let ghost pairs = paired(owners_of(shells@), meets@, shells@.len() as int).0;
        proof {
            lemma_pairs_inside(owners@, meets@, owners@.len() as int);
            assert(found@.map_values(|p: (usize, usize)| (p.0 as int, p.1 as int)) == pairs);
            assert(found@.len() == pairs.len());
            assert forall|i: int| 0 <= i < found@.len() implies (#[trigger] found@[i].0) as int
                == pairs[i].0 && found@[i].1 as int == pairs[i].1 by {
                assert(found@.map_values(|p: (usize, usize)| (p.0 as int, p.1 as int))[i]
                    == pairs[i]);
            }
        }
        let mut flashes: Vec<Point> = Vec::new();
        let mut n: usize = 0;
        while n < found.len()
            invariant
                n <= found@.len() == pairs.len(),
                before == old(self).field@,
                selects::<Shot>(before, shell_flies(), shells@),
                forall|i: int|
                    0 <= i < found@.len() ==> (#[trigger] found@[i].0) as int == pairs[i].0
                        && found@[i].1 as int == pairs[i].1,
                forall|i: int|
                    0 <= i < pairs.len() ==> 0 <= (#[trigger] pairs[i]).0 < pairs[i].1
                        < shells@.len(),
                forall|a: Shot, b: Shot| call_requires(*meet, (a, b)),
                self.field.wf(),
                self.round == old(self).round,
                self.keeps_surroundings(old(self)),
                self.events == old(self).events,
                self.field@.dom() == before.dom(),
                forall|id: u64| #[trigger]
                    before.contains_key(id) && thing::<Shot>(before, id) is None
                        ==> self.field@[id] == before[id],
                self.field@ == cancelled(before, shells@, pairs, n as int),
                met(*meet, shells@, pairs, flashes@, n as int),
                f@ == collided(old(f)@, flashes@, n as int),
            decreases found@.len() - n,
        {
            let ghost were = flashes@;
            assert(found@[n as int].0 as int == pairs[n as int].0);
            assert(pairs[n as int].1 < shells@.len());
            let a: (u64, Shot) = shells[found[n].0];
            let b: (u64, Shot) = shells[found[n].1];
            assert(thing::<Shot>(before, shells@[pairs[n as int].0].0) == Some(a.1));
            assert(thing::<Shot>(before, shells@[pairs[n as int].1].0) == Some(b.1));
            let mid: Point = meet(a.1, b.1);
            flashes.push(mid);
            f.record(Event::ShellsCollided { x: mid.x, y: mid.y });
            self.field.put(a.0, Shot { state: ShotState::Bursting, ..a.1 });
            self.field.put(b.0, Shot { state: ShotState::Bursting, ..b.1 });
            proof {
                lemma_collided_same(old(f)@, were, flashes@, n as int);
                assert(self.field@.dom() =~= before.dom());
            }
            n += 1;
        }
        proof {
            let seats = self.round.seats@;
            assert forall|i: int| #![trigger seats[i]] 0 <= i < MAX_SEATS implies (
            seats[i] matches Some(e) ==> i < self.round.players.seated() && (thing::<Tank>(
                self.field@,
                e,
            ) matches Some(t) && t.owner == Owner::Player(i as u8) && t.mind is None)) by {
                assert(seats[i] == old(self).round.seats@[i]);
                if let Some(e) = seats[i] {
                    assert(thing::<Tank>(before, e) is Some);
                    assert(before.contains_key(e));
                }
            }
            if let Some(e) = self.round.frog {
                assert(before.contains_key(e));
            }
            if let Some(e) = self.round.enemy_frog {
                assert(before.contains_key(e));
            }
        }
        flashes
    }
}

proof fn lemma_pairs_inside(owners: Seq<Owner>, meets: Seq<Vec<bool>>, n: int)
    requires
        0 <= n <= owners.len(),
    ensures
        forall|p: int|
            0 <= p < paired(owners, meets, n).0.len() ==> 0 <= (#[trigger] paired(
                owners,
                meets,
                n,
            ).0[p]).0 < paired(owners, meets, n).0[p].1 < owners.len(),
{
    lemma_paired(owners, meets, n);
}

/// What a burst does to what it struck, in so many words. A running tank and a
/// living frog take the wound, and an enemy that lives through it knows it was
/// shot; a wreck and a dead frog take nothing. A wall takes nothing either.
/// Nothing else on the field changes.
pub proof fn a_burst_wounds_what_it_struck<
    A: Fn(Tank, Scalar) -> Tank,
    B: Fn(Frog, Scalar) -> Frog,
    C: Fn(Tile, Scalar) -> Blow,
>(
    wound: A,
    hurt: B,
    wear: C,
    pieces: Map<u64, Piece>,
    f: Record,
    target: ShellTarget,
    at: Point,
    damage: Scalar,
    makes_hop: bool,
    cause: DamageCause,
    after: Map<u64, Piece>,
    f_after: Record,
    hit: HitResult,
    e: u64,
)
    requires
        hit_applied(
            wound,
            hurt,
            wear,
            pieces,
            f,
            target,
            at,
            damage,
            makes_hop,
            cause,
            after,
            f_after,
            hit,
        ),
        pieces.contains_key(e),
    ensures
        (target == ShellTarget::PlayerTank(e) || target == ShellTarget::EnemyTank(e))
            && pieces[e] is Tank ==> {
            let t = pieces[e]->Tank_0;
            &&& t.wreck ==> after == pieces && f_after == f
            &&& !t.wreck ==> {
                &&& after.contains_key(e) && after[e] is Tank
                &&& exists|out: Tank|
                    {
                        &&& #[trigger] call_ensures(wound, (t, damage), out)
                        &&& after[e]->Tank_0 == (Tank { mind: after[e]->Tank_0.mind, ..out })
                        &&& out.wreck ==> after[e]->Tank_0.mind == out.mind && f_after.kills.len()
                            == f.kills.len() + 1 && f_after.kills.last().victim == out.owner
                        &&& !out.wreck && out.mind is Some ==> after[e]->Tank_0.mind is Some
                            && after[e]->Tank_0.mind->0.hit_alerted
                        &&& !out.wreck ==> f_after.kills == f.kills
                    }
                &&& f_after.events.len() == f.events.len() + 1
            }
        },
        target == ShellTarget::Frog(e) && pieces[e] is Frog ==> {
            let g = pieces[e]->Frog_0;
            &&& g.dead ==> after == pieces && f_after == f
            &&& !g.dead ==> {
                &&& after.contains_key(e) && after[e] is Frog
                &&& call_ensures(hurt, (g, damage), after[e]->Frog_0)
                &&& f_after.events.len() == f.events.len() + 1
                &&& after[e]->Frog_0.dead ==> hit == HitResult::Frog(e, FrogHit::Killed)
                    && f_after.shocks.len() == f.shocks.len() + 1
                &&& !after[e]->Frog_0.dead && after[e]->Frog_0.can_hop && makes_hop ==> hit
                    == HitResult::Frog(e, FrogHit::Hops)
                &&& !after[e]->Frog_0.dead && !(after[e]->Frog_0.can_hop && makes_hop) ==> hit
                    == HitResult::Frog(e, FrogHit::Stays)
            }
        },
        target == ShellTarget::Obstacle(e) && pieces[e] is Tile ==> after.contains_key(e)
            && after[e] is Tile && (pieces[e]->Tile_0.destroyed || pieces[e]->Tile_0.burning
            || pieces[e]->Tile_0.fuse is Some ==> after[e] == pieces[e]),
        target is Wall ==> after == pieces,
        !(target == ShellTarget::PlayerTank(e)) && !(target == ShellTarget::EnemyTank(e)) && !(target
            == ShellTarget::Frog(e)) && !(target == ShellTarget::Obstacle(e))
            ==> after.contains_key(e) && after[e] == pieces[e],
{
    if target == ShellTarget::PlayerTank(e) || target == ShellTarget::EnemyTank(e) {
        if pieces[e] is Tank {
            let t = pieces[e]->Tank_0;
            assert(thing::<Tank>(pieces, e) == Some(t));
            if !t.wreck {
                let out = choose|out: Tank|
                    {
                        &&& #[trigger] call_ensures(wound, (t, damage), out)
                        &&& f_after == tank_hit(f, t, damage, out, at)
                        &&& if out.wreck {
                            after == pieces.insert(e, out.as_piece()) && hit == HitResult::Tank(
                                e,
                                TankHit::Killed,
                            )
                        } else {
                            after == pieces.insert(
                                e,
                                Tank { mind: alerted(out.mind), ..out }.as_piece(),
                            ) && hit == HitResult::Tank(e, TankHit::Survived)
                        }
                    };
                assert(call_ensures(wound, (t, damage), out));
            }
        }
    }
    if target == ShellTarget::Frog(e) && pieces[e] is Frog {
        assert(thing::<Frog>(pieces, e) == Some(pieces[e]->Frog_0));
    }
    if target == ShellTarget::Obstacle(e) && pieces[e] is Tile {
        assert(thing::<Tile>(pieces, e) == Some(pieces[e]->Tile_0));
    }
}

/// A shot thrown back by a shield belongs to that shield's tank from there on,
/// and the shield is charged for it; the hull is not touched.
pub proof fn a_shot_thrown_back_changes_hands<
    T: Fn(Shot, Point) -> Shot,
    D: Fn(Tank, Shot) -> (Scalar, Scalar),
>(
    turn: T,
    spend: D,
    pieces: Map<u64, Piece>,
    entity: u64,
    s: Shot,
    e: u64,
    after: Map<u64, Piece>,
)
    requires
        thrown_back(turn, spend, pieces, entity, s, e, after),
        pieces.contains_key(e),
        pieces[e] is Tank,
        entity != e,
    ensures
        after.contains_key(entity) && after[entity] is Shot,
        after[entity]->Shot_0.owner == pieces[e]->Tank_0.owner,
        after.contains_key(e) && after[e] is Tank,
        after[e]->Tank_0.damage == pieces[e]->Tank_0.damage,
        after[e]->Tank_0.wreck == pieces[e]->Tank_0.wreck,
        exists|cost: (Scalar, Scalar)| #[trigger]
            call_ensures(spend, (pieces[e]->Tank_0, s), cost) && after[e]->Tank_0.shield == cost.0
                && after[e]->Tank_0.shield_delay == cost.1,
        forall|id: u64|
            id != e && id != entity ==> (#[trigger] after.contains_key(id)) == pieces.contains_key(
                id,
            ) && after[id] == pieces[id],
{
    let t = pieces[e]->Tank_0;
    assert(thing::<Tank>(pieces, e) == Some(t));
    let (turned, cost) = choose|turned: Shot, cost: (Scalar, Scalar)|
        {
            &&& #[trigger] call_ensures(turn, (s, t.position), turned)
            &&& #[trigger] call_ensures(spend, (t, s), cost)
            &&& after == pieces.insert(e, shield_spent(t, cost.0, cost.1).as_piece()).insert(
                entity,
                Shot { owner: t.owner, ..turned }.as_piece(),
            )
        };
    assert(call_ensures(spend, (t, s), cost));
}

/// A shot that bursts stays where it struck, flies no more and keeps its owner.
pub proof fn a_burst_shot_stays_where_it_struck(s: Shot, at: Point)
    ensures
        burst_at(s, at).position == at,
        burst_at(s, at).state is Bursting,
        burst_at(s, at).owner == s.owner && burst_at(s, at).id == s.id && burst_at(s, at).kind
            == s.kind,
{
}

/// Only a live tank, a live frog or a tile rolls for damage.
pub proof fn a_hit_rolls_for_what_can_be_hurt(pieces: Map<u64, Piece>, target: ShellTarget)
    ensures
        target is Wall ==> !rolls(pieces, target),
        target is Obstacle ==> rolls(pieces, target),
        target matches ShellTarget::Frog(e) ==> (rolls(pieces, target) <==> pieces.contains_key(e)
            && pieces[e] is Frog && !pieces[e]->Frog_0.dead),
        target matches ShellTarget::PlayerTank(e) ==> (rolls(pieces, target)
            <==> pieces.contains_key(e) && pieces[e] is Tank && !pieces[e]->Tank_0.wreck),
        target matches ShellTarget::EnemyTank(e) ==> (rolls(pieces, target)
            <==> pieces.contains_key(e) && pieces[e] is Tank && !pieces[e]->Tank_0.wreck),
{
}

proof fn lemma_cancelled_elsewhere(
    pieces: Map<u64, Piece>,
    shells: Seq<(u64, Shot)>,
    pairs: Seq<(int, int)>,
    n: int,
    id: u64,
)
    requires
        0 <= n <= pairs.len(),
        forall|p: int|
            0 <= p < n ==> shells[(#[trigger] pairs[p]).0].0 != id && shells[pairs[p].1].0 != id,
    ensures
        cancelled(pieces, shells, pairs, n).contains_key(id) == pieces.contains_key(id),
        cancelled(pieces, shells, pairs, n)[id] == pieces[id],
    decreases n,
{
    if n > 0 {
        assert(shells[pairs[n - 1].0].0 != id && shells[pairs[n - 1].1].0 != id);
        lemma_cancelled_elsewhere(pieces, shells, pairs, n - 1, id);
    }
}

proof fn lemma_cancelled(
    pieces: Map<u64, Piece>,
    shells: Seq<(u64, Shot)>,
    pairs: Seq<(int, int)>,
    n: int,
    p: int,
)
    requires
        0 <= p < n <= pairs.len(),
        forall|q: int|
            0 <= q < pairs.len() ==> 0 <= (#[trigger] pairs[q]).0 < shells.len() && 0
                <= pairs[q].1 < shells.len(),
        forall|i: int, j: int|
            0 <= i < j < shells.len() ==> (#[trigger] shells[i]).0 != (#[trigger] shells[j]).0,
    ensures
        ({
            let after = cancelled(pieces, shells, pairs, n);
            let (a, b) = (shells[pairs[p].0].0, shells[pairs[p].1].0);
            &&& after.contains_key(a) && after[a] is Shot && after[a]->Shot_0.state is Bursting
            &&& after.contains_key(b) && after[b] is Shot && after[b]->Shot_0.state is Bursting
        }),
    decreases n,
{
    if p < n - 1 {
        lemma_cancelled(pieces, shells, pairs, n - 1, p);
    }
}

/// Two shells that cancel both burst, and everything else on the field stays as
/// it was; each collision is told where it was.
pub proof fn shells_that_cancel_both_burst(
    pieces: Map<u64, Piece>,
    shells: Seq<(u64, Shot)>,
    pairs: Seq<(int, int)>,
    p: int,
    id: u64,
)
    requires
        0 <= p < pairs.len(),
        forall|q: int|
            0 <= q < pairs.len() ==> 0 <= (#[trigger] pairs[q]).0 < shells.len() && 0
                <= pairs[q].1 < shells.len(),
        forall|i: int, j: int|
            0 <= i < j < shells.len() ==> (#[trigger] shells[i]).0 != (#[trigger] shells[j]).0,
    ensures
        ({
            let after = cancelled(pieces, shells, pairs, pairs.len() as int);
            let (a, b) = (shells[pairs[p].0].0, shells[pairs[p].1].0);
            &&& after.contains_key(a) && after[a] is Shot && after[a]->Shot_0.state is Bursting
            &&& after.contains_key(b) && after[b] is Shot && after[b]->Shot_0.state is Bursting
            &&& (forall|q: int|
                0 <= q < pairs.len() ==> shells[(#[trigger] pairs[q]).0].0 != id
                    && shells[pairs[q].1].0 != id) ==> after.contains_key(id)
                == pieces.contains_key(id) && after[id] == pieces[id]
        }),
{
    lemma_cancelled(pieces, shells, pairs, pairs.len() as int, p);
    if forall|q: int|
        0 <= q < pairs.len() ==> shells[(#[trigger] pairs[q]).0].0 != id && shells[pairs[q].1].0
            != id {
        lemma_cancelled_elsewhere(pieces, shells, pairs, pairs.len() as int, id);
    }
}

/// Only shells in the air cancel.
pub proof fn only_flying_shells_cancel(s: Shot)
    ensures
        shell_flies()(s) <==> s.kind is Shell && s.state is Flying,
{
}

/// A shot may be thrown back by a rule of its own off a tile in the snapshot,
/// and off nothing else.
pub proof fn only_a_tile_throws_back_by_its_own_rule<R: Fn(Shot, TerrainBox) -> bool>(
    ricochets: R,
    boxes: Seq<TerrainBox>,
    s: Shot,
    target: ShellTarget,
    own: bool,
)
    requires
        own_rule(ricochets, boxes, s, target, own),
    ensures
        !(target is Obstacle) ==> !own,
        target matches ShellTarget::Obstacle(tile) ==> (match find_box(boxes, tile) {
            Some(b) => call_ensures(ricochets, (s, b), own),
            None => !own,
        }),
{
}

} // verus!
