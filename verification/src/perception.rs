//! What the pack sees at the start of its turn: the players, whom each enemy
//! fights, where a player was last seen, and who is in the fight at all.
//!
//! The host measures distances and says what hides in the grass.

use vstd::prelude::*;

use crate::enemies::{
    alert_told, fights_what, fought, guard_holds, nearest_sighting, retarget, sight, switches_to,
    target_of, Alert, Fighter, PlayerView, Quarry,
};
use crate::event::Event;
use crate::field::{selects, thing, Kind};
use crate::flame::seated;
use crate::frame::{Frame, Scene};
use crate::game::{Game, Round};
use crate::kinds::{Owner, Role, MAX_SEATS};
use crate::pieces::{Frog, Mind, Piece, Tank};
use crate::scalar::{Point, Scalar};
use crate::travel::fights;

verus! {

/// A seat's tank as the enemies see it, given what the grass hides.
pub open spec fn seen_as<H: Fn(Point) -> bool>(
    hides: H,
    pieces: Map<u64, Piece>,
    entity: u64,
    v: PlayerView,
) -> bool {
    let t = thing::<Tank>(pieces, entity)->0;
    &&& v.entity == entity
    &&& v.position == t.position
    &&& v.wreck == t.wreck
    &&& v.entering == t.rolling_in
    &&& call_ensures(hides, (t.position,), v.concealed)
}

/// The views of the first `n` seats' tanks, in seat order.
pub open spec fn seats_seen<H: Fn(Point) -> bool>(
    hides: H,
    pieces: Map<u64, Piece>,
    seats: Seq<Option<u64>>,
    views: Seq<PlayerView>,
    n: int,
) -> bool {
    let tanks = seated(seats, n);
    views.len() == tanks.len() && forall|i: int|
        0 <= i < tanks.len() ==> seen_as(hides, pieces, tanks[i], #[trigger] views[i])
}

proof fn lemma_seated_count(seats: Seq<Option<u64>>, n: int)
    requires
        0 <= n,
    ensures
        seated(seats, n).len() <= n,
    decreases n,
{
    if n > 0 {
        lemma_seated_count(seats, n - 1);
    }
}

impl Game {
    /// Every player as the enemies see it this frame; the index is the seat.
    pub fn player_views<H: Fn(Point) -> bool>(&self, hides: &H) -> (views: Vec<PlayerView>)
        requires
            self.wf(),
            forall|p: Point| call_requires(*hides, (p,)),
        ensures
            seats_seen(*hides, self.field@, self.round.seats@, views@, MAX_SEATS as int),
            views@.len() <= MAX_SEATS,
    {
        let mut views: Vec<PlayerView> = Vec::new();
        let mut i: usize = 0;
        while i < MAX_SEATS
            invariant
                i <= MAX_SEATS,
                self.wf(),
                forall|p: Point| call_requires(*hides, (p,)),
                seats_seen(*hides, self.field@, self.round.seats@, views@, i as int),
            decreases MAX_SEATS - i,
        {
            let ghost were = views@;
            if let Some(entity) = self.round.seats[i] {
                assert(self.round.seats@[i as int] == Some(entity));
                let found: Option<Tank> = self.field.get(entity);
                if let Some(t) = found {
                    let concealed: bool = hides(t.position);
                    views.push(
                        PlayerView {
                            entity,
                            position: t.position,
                            wreck: t.wreck,
                            concealed,
                            entering: t.rolling_in,
                        },
                    );
                    proof {
                        let tanks = seated(self.round.seats@, i + 1);
                        assert forall|k: int| 0 <= k < tanks.len() implies seen_as(
                            *hides,
                            self.field@,
                            tanks[k],
                            #[trigger] views@[k],
                        ) by {
                            if k < were.len() {
                                assert(views@[k] == were[k]);
                            }
                        }
                    }
                }
            }
            i += 1;
        }
        proof {
            lemma_seated_count(self.round.seats@, MAX_SEATS as int);
        }
        views
    }
}

/// How far a point is from each of the players.
pub open spec fn measured<D: Fn(Point, Point) -> Scalar>(
    dist: D,
    from: Point,
    views: Seq<PlayerView>,
    distances: Seq<Scalar>,
) -> bool {
    distances.len() == views.len() && forall|i: int|
        0 <= i < views.len() ==> call_ensures(
            dist,
            (from, views[i].position),
            #[trigger] distances[i],
        )
}

/// Each distance with the margin added.
pub open spec fn widened<W: Fn(Scalar) -> Scalar>(
    widen: W,
    distances: Seq<Scalar>,
    padded: Seq<Scalar>,
) -> bool {
    padded.len() == distances.len() && forall|i: int|
        0 <= i < distances.len() ==> call_ensures(widen, (distances[i],), #[trigger] padded[i])
}

/// The seat an enemy switches to, by the distances as measured.
pub open spec fn switch_of<D: Fn(Point, Point) -> Scalar, W: Fn(Scalar) -> Scalar>(
    dist: D,
    widen: W,
    views: Seq<PlayerView>,
    t: Tank,
    to: Option<int>,
) -> bool {
    exists|distances: Seq<Scalar>, padded: Seq<Scalar>|
        {
            &&& #[trigger] measured(dist, t.position, views, distances)
            &&& #[trigger] widened(widen, distances, padded)
            &&& to == switches_to(
                views,
                distances,
                padded,
                t.mind->0.hit_alerted,
                t.mind->0.target_player,
            )
        }
}

/// The switches of the first `n` enemies of a list.
pub open spec fn switches_of<D: Fn(Point, Point) -> Scalar, W: Fn(Scalar) -> Scalar>(
    dist: D,
    widen: W,
    views: Seq<PlayerView>,
    all: Seq<(u64, Tank)>,
    tos: Seq<Option<int>>,
    n: int,
) -> bool {
    tos.len() == n && forall|k: int|
        0 <= k < n ==> switch_of(dist, widen, views, (#[trigger] all[k]).1, tos[k])
}

/// An enemy that fights another seat now.
pub open spec fn refocused(t: Tank, player: u8) -> Tank {
    Tank { mind: Some(Mind { target_player: player, ..t.mind->0 }), ..t }
}

/// The first `n` enemies of a list have switched; a trace says so.
pub open spec fn retargeted(
    at: Scene,
    all: Seq<(u64, Tank)>,
    tos: Seq<Option<int>>,
    trace: bool,
    n: int,
) -> Scene
    decreases n,
{
    if n <= 0 {
        at
    } else {
        let now = retargeted(at, all, tos, trace, n - 1);
        let (id, t) = all[n - 1];
        match tos[n - 1] {
            Some(to) => Scene {
                pieces: now.pieces.insert(id, refocused(t, to as u8).as_piece()),
                record: if trace {
                    now.record.with_event(
                        Event::Retarget { slot: t.owner.round_slot(), player: to as u8 },
                    )
                } else {
                    now.record
                },
            },
            None => now,
        }
    }
}

/// Every enemy has decided whom to fight.
pub open spec fn retarget_done<D: Fn(Point, Point) -> Scalar, W: Fn(Scalar) -> Scalar>(
    dist: D,
    widen: W,
    views: Seq<PlayerView>,
    trace: bool,
    at: Scene,
    after: Scene,
) -> bool {
    exists|all: Seq<(u64, Tank)>, tos: Seq<Option<int>>|
        {
            &&& selects::<Tank>(at.pieces, fights(), all)
            &&& #[trigger] switches_of(dist, widen, views, all, tos, all.len() as int)
            &&& after == retargeted(at, all, tos, trace, all.len() as int)
        }
}

proof fn lemma_retargeted_same(
    at: Scene,
    all: Seq<(u64, Tank)>,
    a: Seq<Option<int>>,
    b: Seq<Option<int>>,
    trace: bool,
    n: int,
)
    requires
        0 <= n <= a.len(),
        n <= b.len(),
        forall|i: int| 0 <= i < n ==> a[i] == b[i],
    ensures
        retargeted(at, all, a, trace, n) == retargeted(at, all, b, trace, n),
    decreases n,
{
    if n > 0 {
        lemma_retargeted_same(at, all, a, b, trace, n - 1);
    }
}

proof fn lemma_nobody_switches(
    at: Scene,
    all: Seq<(u64, Tank)>,
    tos: Seq<Option<int>>,
    trace: bool,
    n: int,
)
    requires
        0 <= n <= tos.len(),
        forall|k: int| 0 <= k < n ==> (#[trigger] tos[k]) is None,
    ensures
        retargeted(at, all, tos, trace, n) == at,
    decreases n,
{
    if n > 0 {
        lemma_nobody_switches(at, all, tos, trace, n - 1);
    }
}

/// In a round with one seat the pack's choice of whom to fight changes
/// nothing.
pub proof fn a_lone_player_is_never_switched_from<
    D: Fn(Point, Point) -> Scalar,
    W: Fn(Scalar) -> Scalar,
>(dist: D, widen: W, views: Seq<PlayerView>, trace: bool, at: Scene, after: Scene)
    requires
        views.len() <= 1,
        retarget_done(dist, widen, views, trace, at, after),
    ensures
        after == at,
{
    let (all, tos) = choose|all: Seq<(u64, Tank)>, tos: Seq<Option<int>>|
        {
            &&& selects::<Tank>(at.pieces, fights(), all)
            &&& #[trigger] switches_of(dist, widen, views, all, tos, all.len() as int)
            &&& after == retargeted(at, all, tos, trace, all.len() as int)
        };
    assert forall|k: int| 0 <= k < all.len() implies (#[trigger] tos[k]) is None by {
        assert(switch_of(dist, widen, views, all[k].1, tos[k]));
    }
    lemma_nobody_switches(at, all, tos, trace, all.len() as int);
}

fn measure_all<D: Fn(Point, Point) -> Scalar>(
    dist: &D,
    from: Point,
    views: &Vec<PlayerView>,
) -> (distances: Vec<Scalar>)
    requires
        forall|a: Point, b: Point| call_requires(*dist, (a, b)),
    ensures
        measured(*dist, from, views@, distances@),
{
    let mut distances: Vec<Scalar> = Vec::new();
    let mut n: usize = 0;
    while n < views.len()
        invariant
            n <= views@.len(),
            distances@.len() == n,
            forall|a: Point, b: Point| call_requires(*dist, (a, b)),
            forall|i: int|
                0 <= i < n ==> call_ensures(
                    *dist,
                    (from, views@[i].position),
                    #[trigger] distances@[i],
                ),
        decreases views@.len() - n,
    {
        distances.push(dist(from, views[n].position));
        n += 1;
    }
    distances
}

fn widen_all<W: Fn(Scalar) -> Scalar>(widen: &W, distances: &Vec<Scalar>) -> (padded: Vec<Scalar>)
    requires
        forall|d: Scalar| call_requires(*widen, (d,)),
    ensures
        widened(*widen, distances@, padded@),
{
    let mut padded: Vec<Scalar> = Vec::new();
    let mut n: usize = 0;
    while n < distances.len()
        invariant
            n <= distances@.len(),
            padded@.len() == n,
            forall|d: Scalar| call_requires(*widen, (d,)),
            forall|i: int|
                0 <= i < n ==> call_ensures(*widen, (distances@[i],), #[trigger] padded@[i]),
        decreases distances@.len() - n,
    {
        padded.push(widen(distances[n]));
        n += 1;
    }
    padded
}

impl Game {
    /// The enemies in the fight, in no particular order.
    pub fn fighting(&self) -> (all: Vec<(u64, Tank)>)
        ensures
            selects::<Tank>(self.field@, fights(), all@),
    {
        let test = |t: Tank| -> (b: bool)
            ensures
                b == (t.mind is Some),
        { t.mind.is_some() };
        let all = self.field.select(Ghost(fights()), test);
        all
    }

    /// Every enemy decides whom to fight: the nearest seat it can, once its
    /// own cannot be fought or is further away by more than the margin. In a
    /// round with one seat nobody ever switches.
    pub fn retarget_all<D: Fn(Point, Point) -> Scalar, W: Fn(Scalar) -> Scalar>(
        &mut self,
        f: &mut Frame,
        views: &Vec<PlayerView>,
        dist: &D,
        widen: &W,
        trace: bool,
    )
        requires
            old(self).wf(),
            0 < views@.len() <= MAX_SEATS,
            forall|a: Point, b: Point| call_requires(*dist, (a, b)),
            forall|d: Scalar| call_requires(*widen, (d,)),
        ensures
            final(self).wf(),
            retarget_done(
                *dist,
                *widen,
                views@,
                trace,
                (Scene { pieces: old(self).field@, record: old(f)@ }),
                (Scene { pieces: final(self).field@, record: final(f)@ }),
            ),
            final(self).round == old(self).round,
            final(self).keeps_surroundings(old(self)),
            final(self).events == old(self).events,
    {
        let ghost start = Scene { pieces: self.field@, record: f@ };
        let ghost mut tos: Seq<Option<int>> = Seq::empty();
        let all: Vec<(u64, Tank)> = self.fighting();
        let mut n: usize = 0;
        while n < all.len()
            invariant
                n <= all@.len(),
                start == (Scene { pieces: old(self).field@, record: old(f)@ }),
                selects::<Tank>(start.pieces, fights(), all@),
                0 < views@.len() <= MAX_SEATS,
                forall|a: Point, b: Point| call_requires(*dist, (a, b)),
                forall|d: Scalar| call_requires(*widen, (d,)),
                self.wf(),
                self.round == old(self).round,
                self.keeps_surroundings(old(self)),
                self.events == old(self).events,
                self.field@.dom() == start.pieces.dom(),
                forall|k: int|
                    n <= k < all@.len() ==> thing::<Tank>(self.field@, (#[trigger] all@[k]).0)
                        == Some(all@[k].1),
                switches_of(*dist, *widen, views@, all@, tos, n as int),
                (Scene { pieces: self.field@, record: f@ }) == retargeted(
                    start,
                    all@,
                    tos,
                    trace,
                    n as int,
                ),
            decreases all@.len() - n,
        {
            let id: u64 = all[n].0;
            let t: Tank = all[n].1;
            let ghost before = self.field@;
            let ghost were = tos;
            assert(thing::<Tank>(start.pieces, all@[n as int].0) == Some(t));
            assert(fights()(all@[n as int].1));
            let distances: Vec<Scalar> = measure_all(dist, t.position, views);
            let padded: Vec<Scalar> = widen_all(widen, &distances);
            if let Some(mind) = t.mind {
                let to: Option<u8> = retarget(
                    views,
                    &distances,
                    &padded,
                    mind.hit_alerted,
                    mind.target_player,
                );
                let ghost pick = switches_to(
                    views@,
                    distances@,
                    padded@,
                    mind.hit_alerted,
                    mind.target_player,
                );
                if let Some(player) = to {
                    let mut after: Tank = t;
                    after.mind = Some(Mind { target_player: player, ..mind });
                    self.field.put(id, after);
                    if trace {
                        f.record(Event::Retarget { slot: t.owner_slot(), player });
                    }
                }
                proof {
                    tos = tos.push(pick);
                    lemma_retargeted_same(start, all@, were, tos, trace, n as int);
                    assert(switch_of(*dist, *widen, views@, t, pick));
                    assert(self.field@.dom() =~= start.pieces.dom());
                    let seats = self.round.seats@;
                    assert forall|i: int| #![trigger seats[i]] 0 <= i < MAX_SEATS implies (
                    seats[i] matches Some(e) ==> i < self.round.players.seated() && (thing::<Tank>(
                        self.field@,
                        e,
                    ) matches Some(t) && t.owner == Owner::Player(i as u8) && t.mind is None)) by {
                        assert(seats[i] == old(self).round.seats@[i]);
                        if let Some(e) = seats[i] {
                            assert(thing::<Tank>(before, e) is Some);
                            assert(thing::<Tank>(before, all@[n as int].0) == Some(t));
                        }
                    }
                    assert forall|k: int| n + 1 <= k < all@.len() implies thing::<Tank>(
                        self.field@,
                        (#[trigger] all@[k]).0,
                    ) == Some(all@[k].1) by {
                        assert(all@[k].0 != all@[n as int].0);
                    }
                }
            }
            n += 1;
        }
    }

    /// Any enemy seeing a player in the open refreshes the pack's last known
    /// position; without a sighting it runs down. `distances` holds, per
    /// player, how far each enemy is, and `decayed` is the alert's timer with
    /// this frame's time taken off.
    pub fn refresh_alert(
        &mut self,
        f: &mut Frame,
        views: &Vec<PlayerView>,
        distances: &Vec<Vec<Scalar>>,
        range: Scalar,
        decayed: Scalar,
        hold: Scalar,
        trace: bool,
    )
        requires
            old(self).wf(),
            views@.len() > 0,
            distances@.len() == views@.len(),
        ensures
            final(self).wf(),
            ({
                let seen = match nearest_sighting(
                    views@,
                    distances@,
                    range,
                    views@.len() as int,
                ) {
                    Some((_, i)) => Some(views@[i].position),
                    None => None,
                };
                let alert = old(self).round.alert.after(seen, decayed, hold);
                &&& final(self).round == (Round { alert, ..old(self).round })
                &&& final(f)@ == alert_told(
                    old(f)@,
                    old(self).round.alert.known(),
                    alert.known(),
                    trace,
                    views@[0].position,
                )
            }),
            final(self).field == old(self).field,
            final(self).keeps_surroundings(old(self)),
            final(self).events == old(self).events,
    {
        let seen: Option<Point> = sight(views, distances, range);
        let mut alert: Alert = self.round.alert;
        alert.refresh(f, seen, decayed, hold, trace, views[0].position);
        self.round.alert = alert;
    }
}

/// A frog as long as it lives: what it is and where.
pub open spec fn live_frog(pieces: Map<u64, Piece>, frog: Option<u64>) -> Option<Quarry> {
    match frog {
        Some(e) => match thing::<Frog>(pieces, e) {
            Some(g) => if g.dead {
                None
            } else {
                Some(Quarry { frog: e, position: g.position })
            },
            None => None,
        },
        None => None,
    }
}

/// Where a frog is, as long as it lives.
pub open spec fn home_of(pieces: Map<u64, Piece>, frog: Option<u64>) -> Option<Point> {
    match live_frog(pieces, frog) {
        Some(q) => Some(q.position),
        None => None,
    }
}

/// An enemy as the slot competition sees it, by the distances as measured.
pub open spec fn fights_as<D: Fn(Point, Point) -> Scalar>(
    dist: D,
    views: Seq<PlayerView>,
    quarry: Option<Quarry>,
    home: Option<Point>,
    leash: Scalar,
    entity: u64,
    t: Tank,
    e: Fighter,
) -> bool {
    let mind = t.mind->0;
    let player = views[fought(mind.target_player, views.len() as int)].position;
    let (target, frog) = fights_what(mind.role, quarry, player);
    &&& e.entity == entity
    &&& e.slot == t.owner.round_slot()
    &&& e.wreck == t.wreck
    &&& e.damage == t.damage
    &&& e.weapon == t.weapon
    &&& e.retreating == mind.retreating
    &&& e.hit_alerted == mind.hit_alerted
    &&& e.target_player == mind.target_player
    &&& e.hunting == (frog is Some)
    &&& call_ensures(dist, (t.position, target), e.distance)
    &&& match home {
        Some(at) => exists|d: Scalar| #[trigger]
            call_ensures(dist, (player, at), d) && e.held_back == (mind.role == Role::Guard
                && leash.below(d)),
        None => !e.held_back,
    }
}

/// Every enemy in the fight, as the slot competition sees it.
pub open spec fn fighters_of<D: Fn(Point, Point) -> Scalar>(
    dist: D,
    views: Seq<PlayerView>,
    pieces: Map<u64, Piece>,
    quarry: Option<Quarry>,
    home: Option<Point>,
    leash: Scalar,
    es: Seq<Fighter>,
) -> bool {
    exists|all: Seq<(u64, Tank)>|
        {
            &&& #[trigger] selects::<Tank>(pieces, fights(), all)
            &&& es.len() == all.len()
            &&& forall|i: int|
                0 <= i < all.len() ==> fights_as(
                    dist,
                    views,
                    quarry,
                    home,
                    leash,
                    all[i].0,
                    all[i].1,
                    #[trigger] es[i],
                )
        }
}

impl Game {
    /// The players' frog while it lives: what the hunters go for.
    pub fn quarry(&self) -> (q: Option<Quarry>)
        ensures
            q == live_frog(self.field@, self.round.frog),
    {
        match self.round.frog {
            Some(e) => {
                let found: Option<Frog> = self.field.get(e);
                match found {
                    Some(g) => if g.dead {
                        None
                    } else {
                        Some(Quarry { frog: e, position: g.position })
                    },
                    None => None,
                }
            },
            None => None,
        }
    }

    /// Where the enemies' own frog is while it lives: what the guards hold.
    pub fn home(&self) -> (at: Option<Point>)
        ensures
            at == home_of(self.field@, self.round.enemy_frog),
    {
        match self.round.enemy_frog {
            Some(e) => {
                let found: Option<Frog> = self.field.get(e);
                match found {
                    Some(g) => if g.dead {
                        None
                    } else {
                        Some(g.position)
                    },
                    None => None,
                }
            },
            None => None,
        }
    }

    /// The enemies as the slot competition sees them. A hunter is measured
    /// against its quarry, everyone else against the player it fights, and a
    /// guard is held back while that player is beyond its leash.
    pub fn fighters<D: Fn(Point, Point) -> Scalar>(
        &self,
        views: &Vec<PlayerView>,
        leash: Scalar,
        dist: &D,
    ) -> (es: Vec<Fighter>)
        requires
            views@.len() > 0,
            forall|a: Point, b: Point| call_requires(*dist, (a, b)),
        ensures
            fighters_of(
                *dist,
                views@,
                self.field@,
                live_frog(self.field@, self.round.frog),
                home_of(self.field@, self.round.enemy_frog),
                leash,
                es@,
            ),
    {
        let quarry: Option<Quarry> = self.quarry();
        let home: Option<Point> = self.home();
        let all: Vec<(u64, Tank)> = self.fighting();
        let mut es: Vec<Fighter> = Vec::new();
        let mut n: usize = 0;
        while n < all.len()
            invariant
                n <= all@.len(),
                es@.len() == n,
                views@.len() > 0,
                selects::<Tank>(self.field@, fights(), all@),
                forall|a: Point, b: Point| call_requires(*dist, (a, b)),
                quarry == live_frog(self.field@, self.round.frog),
                home == home_of(self.field@, self.round.enemy_frog),
                forall|i: int|
                    0 <= i < n ==> fights_as(
                        *dist,
                        views@,
                        quarry,
                        home,
                        leash,
                        all@[i].0,
                        all@[i].1,
                        #[trigger] es@[i],
                    ),
            decreases all@.len() - n,
        {
            let entity: u64 = all[n].0;
            let t: Tank = all[n].1;
            assert(fights()(all@[n as int].1));
            if let Some(mind) = t.mind {
                let at: usize = if (mind.target_player as usize) < views.len() {
                    mind.target_player as usize
                } else {
                    views.len() - 1
                };
                let player: Point = views[at].position;
                let (target, frog): (Point, Option<u64>) = target_of(mind.role, quarry, player);
                let from_home: Option<Scalar> = match home {
                    Some(h) => Some(dist(player, h)),
                    None => None,
                };
                let held_back: bool = guard_holds(mind.role, from_home, leash);
                let distance: Scalar = dist(t.position, target);
                es.push(
                    Fighter {
                        entity,
                        slot: t.owner_slot(),
                        wreck: t.wreck,
                        damage: t.damage,
                        weapon: t.weapon,
                        retreating: mind.retreating,
                        hit_alerted: mind.hit_alerted,
                        held_back,
                        distance,
                        hunting: frog.is_some(),
                        target_player: mind.target_player,
                    },
                );
                proof {
                    if let Some(h) = home {
                        assert(call_ensures(*dist, (player, h), from_home->0));
                    }
                }
            }
            n += 1;
        }
        es
    }
}

/// The frog the pack goes for is the round's, where it is, for as long as it is
/// on the field and alive; and so is the one the guards hold.
pub proof fn a_frog_is_gone_for_while_it_lives(pieces: Map<u64, Piece>, e: u64)
    ensures
        live_frog(pieces, None) is None && home_of(pieces, None) is None,
        !pieces.dom().contains(e) ==> live_frog(pieces, Some(e)) is None && home_of(
            pieces,
            Some(e),
        ) is None,
        pieces.dom().contains(e) && pieces[e] is Frog && !(pieces[e]->Frog_0).dead ==> {
            &&& live_frog(pieces, Some(e)) == Some(
                Quarry { frog: e, position: (pieces[e]->Frog_0).position },
            )
            &&& home_of(pieces, Some(e)) == Some((pieces[e]->Frog_0).position)
        },
        pieces.dom().contains(e) && pieces[e] is Frog && (pieces[e]->Frog_0).dead ==> live_frog(
            pieces,
            Some(e),
        ) is None && home_of(pieces, Some(e)) is None,
{
}

/// An enemy that switches fights the other seat and is otherwise as it was; the
/// trace says by round slot who switched to whom.
pub proof fn a_switch_is_made_and_told(
    at: Scene,
    all: Seq<(u64, Tank)>,
    tos: Seq<Option<int>>,
    trace: bool,
    n: int,
)
    requires
        0 < n <= all.len(),
        n <= tos.len(),
        all[n - 1].1.mind is Some,
        tos[n - 1] matches Some(to) ==> 0 <= to <= 255,
    ensures
        ({
            let was = retargeted(at, all, tos, trace, n - 1);
            let now = retargeted(at, all, tos, trace, n);
            let (id, t) = all[n - 1];
            match tos[n - 1] {
                Some(to) => {
                    &&& now.pieces[id] is Tank
                    &&& (now.pieces[id]->Tank_0).mind is Some
                    &&& ((now.pieces[id]->Tank_0).mind->0).target_player == to
                    &&& ((now.pieces[id]->Tank_0).mind->0).role == (t.mind->0).role
                    &&& ((now.pieces[id]->Tank_0).mind->0).hit_alerted == (t.mind->0).hit_alerted
                    &&& ((now.pieces[id]->Tank_0).mind->0).retreating == (t.mind->0).retreating
                    &&& (now.pieces[id]->Tank_0).position == t.position
                    &&& (now.pieces[id]->Tank_0).damage == t.damage
                    &&& (now.pieces[id]->Tank_0).owner == t.owner
                    &&& (now.pieces[id]->Tank_0).wreck == t.wreck
                    &&& now.pieces.dom() == was.pieces.dom().insert(id)
                    &&& forall|e: u64|
                        e != id && was.pieces.dom().contains(e) ==> #[trigger] now.pieces[e]
                            == was.pieces[e]
                    &&& trace ==> now.record.events == was.record.events.push(
                        Event::Retarget { slot: t.owner.round_slot(), player: to as u8 },
                    )
                    &&& !trace ==> now.record == was.record
                },
                None => now == was,
            }
        }),
{
}

/// An enemy competes as what it is: a hunter is measured against the frog while
/// it lives, everyone else against the player it fights, and only a guard with
/// a frog to hold is ever held back, when that player is beyond the leash.
pub proof fn an_enemy_competes_as_what_it_is<D: Fn(Point, Point) -> Scalar>(
    dist: D,
    views: Seq<PlayerView>,
    quarry: Option<Quarry>,
    home: Option<Point>,
    leash: Scalar,
    entity: u64,
    t: Tank,
    e: Fighter,
    seat: int,
)
    requires
        views.len() > 0,
        t.mind is Some,
        seat == (if ((t.mind->0).target_player as int) < views.len() {
            (t.mind->0).target_player as int
        } else {
            views.len() - 1
        }),
        fights_as(dist, views, quarry, home, leash, entity, t, e),
    ensures
        ({
            let mind = t.mind->0;
            &&& e.entity == entity && e.wreck == t.wreck && e.damage == t.damage
            &&& e.weapon == t.weapon && e.retreating == mind.retreating
            &&& e.hit_alerted == mind.hit_alerted && e.target_player == mind.target_player
            &&& e.hunting <==> mind.role is Hunter && quarry is Some
            &&& mind.role is Hunter && quarry is Some ==> call_ensures(
                dist,
                (t.position, (quarry->0).position),
                e.distance,
            )
            &&& mind.role !is Hunter || quarry is None ==> call_ensures(
                dist,
                (t.position, views[seat].position),
                e.distance,
            )
            &&& mind.role !is Guard || home is None ==> !e.held_back
            &&& mind.role is Guard && home is Some ==> exists|d: Scalar| #[trigger]
                call_ensures(dist, (views[seat].position, home->0), d) && e.held_back
                    == leash.below(d)
        }),
{
}

} // verus!
