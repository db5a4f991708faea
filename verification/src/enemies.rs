//! What the enemies decide together before each of them thinks: whom to fight,
//! what the pack knows, who goes for the frog, who competes for which ring of
//! engagement slots.

use vstd::prelude::*;

use crate::engage::{
    find_tank, lemma_find_tank, EngageReport, EngageSlot, EngageStatus, EngageTank,
};
use crate::event::Event;
use crate::frame::{Frame, Record};
use crate::kinds::{ActiveWeapon, Role, MAX_SEATS};
use crate::ranking::{ranked, sort_ranked, Ranked};
use crate::scalar::{Point, Scalar};

verus! {

/// A seat's tank as the enemies see it; its position in the list is its seat.
#[derive(Clone, Copy, Debug, PartialEq, Eq, Structural)]
pub struct PlayerView {
    pub entity: u64,
    pub position: Point,
    pub wreck: bool,
    /// Hidden in tall grass.
    pub concealed: bool,
    /// Driving back in through a gate, so off the field entirely.
    pub entering: bool,
}

impl PlayerView {
    /// Can be fought: no wreck, on the field, and in the open unless it just
    /// shot this enemy.
    pub open spec fn eligible(self, hit_alerted: bool) -> bool {
        !self.wreck && !self.entering && (!self.concealed || hit_alerted)
    }

    /// Can be seen by anyone.
    pub open spec fn in_the_open(self) -> bool {
        !self.wreck && !self.entering && !self.concealed
    }

    fn is_eligible(&self, hit_alerted: bool) -> (r: bool)
        ensures
            r == self.eligible(hit_alerted),
    {
        !self.wreck && !self.entering && (!self.concealed || hit_alerted)
    }
}

/// The nearest eligible of the first `n` players, the lower seat of equals.
pub open spec fn nearest_eligible(
    players: Seq<PlayerView>,
    distances: Seq<Scalar>,
    hit_alerted: bool,
    n: int,
) -> Option<int>
    decreases n,
{
    if n <= 0 {
        None
    } else {
        let best = nearest_eligible(players, distances, hit_alerted, n - 1);
        if players[n - 1].eligible(hit_alerted) && (match best {
            Some(b) => distances[n - 1].below(distances[b]),
            None => true,
        }) {
            Some(n - 1)
        } else {
            best
        }
    }
}

/// The seat an enemy is fighting, out of `n`.
pub open spec fn fought(target_player: u8, n: int) -> int {
    if target_player < n {
        target_player as int
    } else {
        n - 1
    }
}

/// The seat an enemy switches to: the nearest eligible one, once its own is
/// not eligible any more, or is further away by more than the margin (`padded`
/// holds each distance with the margin added). Nobody switches in a round with
/// one seat.
pub open spec fn switches_to(
    players: Seq<PlayerView>,
    distances: Seq<Scalar>,
    padded: Seq<Scalar>,
    hit_alerted: bool,
    target_player: u8,
) -> Option<int> {
    let current = fought(target_player, players.len() as int);
    match nearest_eligible(players, distances, hit_alerted, players.len() as int) {
        Some(pick) => if players.len() >= 2 && pick != current && (
        !players[current].eligible(hit_alerted) || padded[pick].below(distances[current])) {
            Some(pick)
        } else {
            None
        },
        None => None,
    }
}

/// Decide whether an enemy switches to another player.
pub fn retarget(
    players: &Vec<PlayerView>,
    distances: &Vec<Scalar>,
    padded: &Vec<Scalar>,
    hit_alerted: bool,
    target_player: u8,
) -> (to: Option<u8>)
    requires
        0 < players@.len() <= MAX_SEATS,
        distances@.len() == players@.len(),
        padded@.len() == players@.len(),
    ensures
        match switches_to(players@, distances@, padded@, hit_alerted, target_player) {
            Some(pick) => to == Some(pick as u8) && 0 <= pick < players@.len(),
            None => to is None,
        },
{
    let current: usize = if (target_player as usize) < players.len() {
        target_player as usize
    } else {
        players.len() - 1
    };
    let mut best: Option<usize> = None;
    let mut n: usize = 0;
    while n < players.len()
        invariant
            n <= players@.len() == distances@.len(),
            match nearest_eligible(players@, distances@, hit_alerted, n as int) {
                Some(i) => best == Some(i as usize) && 0 <= i < n,
                None => best is None,
            },
        decreases players@.len() - n,
    {
        let nearer: bool = match best {
            Some(b) => distances[n].lt(distances[b]),
            None => true,
        };
        if players[n].is_eligible(hit_alerted) && nearer {
            best = Some(n);
        }
        n += 1;
    }
    if players.len() < 2 {
        return None;
    }
    let pick: usize = match best {
        Some(pick) => pick,
        None => return None,
    };
    let switch: bool = if !players[current].is_eligible(hit_alerted) {
        true
    } else {
        padded[pick].lt(distances[current])
    };
    if switch && pick != current {
        Some(pick as u8)
    } else {
        None
    }
}

proof fn lemma_nearest_eligible(
    players: Seq<PlayerView>,
    distances: Seq<Scalar>,
    hit_alerted: bool,
    n: int,
)
    ensures
        nearest_eligible(players, distances, hit_alerted, n) matches Some(b) ==> 0 <= b < n
            && players[b].eligible(hit_alerted),
        nearest_eligible(players, distances, hit_alerted, n) is None ==> forall|i: int|
            0 <= i < n ==> !(#[trigger] players[i]).eligible(hit_alerted),
    decreases n,
{
    if n > 0 {
        lemma_nearest_eligible(players, distances, hit_alerted, n - 1);
    }
}

/// An enemy never switches to a wreck or to a seat that is off the field, and
/// to one hidden in the grass only when that one just shot it. One whose own
/// target is no longer eligible switches whenever anyone is.
pub proof fn a_switch_is_to_someone_worth_fighting(
    players: Seq<PlayerView>,
    distances: Seq<Scalar>,
    padded: Seq<Scalar>,
    hit_alerted: bool,
    target_player: u8,
)
    requires
        players.len() >= 2,
    ensures
        switches_to(players, distances, padded, hit_alerted, target_player) matches Some(pick) ==> 0
            <= pick < players.len() && players[pick].eligible(hit_alerted) && pick != fought(
            target_player,
            players.len() as int,
        ),
        !players[fought(target_player, players.len() as int)].eligible(hit_alerted) && (exists|
            i: int,
        |
            0 <= i < players.len() && (#[trigger] players[i]).eligible(hit_alerted))
            ==> switches_to(players, distances, padded, hit_alerted, target_player) is Some,
{
    lemma_nearest_eligible(players, distances, hit_alerted, players.len() as int);
}

/// The nearest sighting so far: the distance, and the seat seen.
pub type Seen = Option<(Scalar, int)>;

/// One player's sightings by the first `n` enemies, on top of what was seen.
pub open spec fn sighted(
    seen: Seen,
    player: int,
    distances: Seq<Scalar>,
    range: Scalar,
    n: int,
) -> Seen
    decreases n,
{
    if n <= 0 {
        seen
    } else {
        let seen = sighted(seen, player, distances, range, n - 1);
        let d = distances[n - 1];
        if d.at_most(range) && (match seen {
            Some((best, _)) => d.below(best),
            None => true,
        }) {
            Some((d, player))
        } else {
            seen
        }
    }
}

/// The nearest sighting of the first `n` players: only those in the open, by
/// any enemy within range.
pub open spec fn nearest_sighting(
    players: Seq<PlayerView>,
    distances: Seq<Vec<Scalar>>,
    range: Scalar,
    n: int,
) -> Seen
    decreases n,
{
    if n <= 0 {
        None
    } else {
        let seen = nearest_sighting(players, distances, range, n - 1);
        if players[n - 1].in_the_open() {
            sighted(
                seen,
                n - 1,
                distances[n - 1]@,
                range,
                distances[n - 1]@.len() as int,
            )
        } else {
            seen
        }
    }
}

/// Where the pack sees a player: the nearest sighting. `distances` holds, per
/// player, how far each enemy is.
pub fn sight(players: &Vec<PlayerView>, distances: &Vec<Vec<Scalar>>, range: Scalar) -> (seen: Option<
    Point,
>)
    requires
        distances@.len() == players@.len(),
    ensures
        match nearest_sighting(players@, distances@, range, players@.len() as int) {
            Some((_, i)) => seen == Some(players@[i].position) && 0 <= i < players@.len(),
            None => seen is None,
        },
{
    let mut best: Option<(Scalar, usize)> = None;
    let mut n: usize = 0;
    while n < players.len()
        invariant
            n <= players@.len() == distances@.len(),
            match nearest_sighting(players@, distances@, range, n as int) {
                Some((d, i)) => best == Some((d, i as usize)) && 0 <= i < n,
                None => best is None,
            },
        decreases players@.len() - n,
    {
        let p: PlayerView = players[n];
        if !p.concealed && !p.wreck && !p.entering {
            let ghost seen = nearest_sighting(players@, distances@, range, n as int);
            let mut k: usize = 0;
            while k < distances[n].len()
                invariant
                    n < players@.len() == distances@.len(),
                    k <= distances@[n as int]@.len(),
                    match sighted(seen, n as int, distances@[n as int]@, range, k as int) {
                        Some((d, i)) => best == Some((d, i as usize)) && 0 <= i <= n,
                        None => best is None,
                    },
                decreases distances@[n as int]@.len() - k,
            {
                let d: Scalar = distances[n][k];
                let nearer: bool = match best {
                    Some(b) => d.lt(b.0),
                    None => true,
                };
                if d.le(range) && nearer {
                    best = Some((d, n));
                }
                k += 1;
            }
        }
        n += 1;
    }
    match best {
        Some(b) => Some(players[b.1].position),
        None => None,
    }
}

/// The pack's last known player position, and how long it stays good.
#[derive(Clone, Copy, Debug, PartialEq, Eq, Structural)]
pub struct Alert {
    pub position: Option<Point>,
    pub timer: Scalar,
}

/// The record once an alert has appeared or expired, at the position it has or
/// last had; nothing when nobody asked for a trace.
pub open spec fn alert_told(
    f: Record,
    before: Option<Point>,
    after: Option<Point>,
    trace: bool,
    fallback: Point,
) -> Record {
    if trace && (before is Some) != (after is Some) {
        let at = match (after, before) {
            (Some(at), _) => at,
            (None, Some(at)) => at,
            (None, None) => fallback,
        };
        f.with_event(Event::Alert { on: after is Some, x: at.x, y: at.y })
    } else {
        f
    }
}

impl Alert {
    /// What the pack acts on.
    pub open spec fn known(self) -> Option<Point> {
        if Scalar::zero().below(self.timer) {
            self.position
        } else {
            None
        }
    }

    pub fn current(&self) -> (r: Option<Point>)
        ensures
            r == self.known(),
    {
        if self.timer.positive() {
            self.position
        } else {
            None
        }
    }

    /// The alert after a frame: a sighting refreshes it, and without one it
    /// runs down and is forgotten. `decayed` is the timer with this frame's
    /// time taken off.
    pub open spec fn after(self, seen: Option<Point>, decayed: Scalar, hold: Scalar) -> Alert {
        match seen {
            Some(at) => Alert { position: Some(at), timer: hold },
            None => Alert {
                position: if decayed.at_most(Scalar::zero()) {
                    None
                } else {
                    self.position
                },
                timer: decayed,
            },
        }
    }

    /// Refresh the alert from what the pack sees. When `trace` is set, its
    /// appearing and expiring are recorded, at the position it has or last
    /// had.
    pub fn refresh(
        &mut self,
        f: &mut Frame,
        seen: Option<Point>,
        decayed: Scalar,
        hold: Scalar,
        trace: bool,
        fallback: Point,
    )
        ensures
            *final(self) == old(self).after(seen, decayed, hold),
            final(f)@ == alert_told(
                old(f)@,
                old(self).known(),
                final(self).known(),
                trace,
                fallback,
            ),
    {
        let before: Option<Point> = self.current();
        match seen {
            Some(at) => {
                self.position = Some(at);
                self.timer = hold;
            },
            None => {
                self.timer = decayed;
                if decayed.le(Scalar::zero()) {
                    self.position = None;
                }
            },
        }
        let after: Option<Point> = self.current();
        if trace && before.is_some() != after.is_some() {
            let at: Point = match (after, before) {
                (Some(at), _) => at,
                (None, Some(at)) => at,
                (None, None) => fallback,
            };
            f.record(Event::Alert { on: after.is_some(), x: at.x, y: at.y });
        }
    }
}

/// A player who stays hidden is lost once the hold runs out: with nothing seen
/// and the timer down to nothing, the pack knows nothing.
pub proof fn an_unrefreshed_alert_expires(alert: Alert, decayed: Scalar, hold: Scalar)
    requires
        decayed.at_most(Scalar::zero()),
    ensures
        alert.after(None, decayed, hold).known() is None,
        alert.after(None, decayed, hold).position is None,
{
}

/// The player's frog while it lives.
#[derive(Clone, Copy, Debug, PartialEq, Eq, Structural)]
pub struct Quarry {
    pub frog: u64,
    pub position: Point,
}

/// What an enemy fights: a hunter its quarry while there is one, everyone else
/// the player.
pub open spec fn fights_what(role: Role, quarry: Option<Quarry>, player: Point) -> (
    Point,
    Option<u64>,
) {
    match (role, quarry) {
        (Role::Hunter, Some(q)) => (q.position, Some(q.frog)),
        _ => (player, None),
    }
}

/// What an enemy fights, and the frog if it is one.
pub fn target_of(role: Role, quarry: Option<Quarry>, player: Point) -> (r: (Point, Option<u64>))
    ensures
        r == fights_what(role, quarry, player),
{
    match (role, quarry) {
        (Role::Hunter, Some(q)) => (q.position, Some(q.frog)),
        _ => (player, None),
    }
}

/// A guard holds back: its own frog lives and the player is beyond the leash
/// around it. `from_home` is how far the player is from that frog.
pub fn guard_holds(role: Role, from_home: Option<Scalar>, leash: Scalar) -> (r: bool)
    ensures
        r == (role == Role::Guard && (from_home matches Some(d) && leash.below(d))),
{
    match from_home {
        Some(d) => role == Role::Guard && leash.lt(d),
        None => false,
    }
}

/// An enemy as the slot competition sees it.
#[derive(Clone, Copy, Debug, PartialEq, Eq, Structural)]
pub struct Fighter {
    pub entity: u64,
    pub slot: usize,
    pub wreck: bool,
    pub damage: Scalar,
    pub weapon: ActiveWeapon,
    pub retreating: bool,
    pub hit_alerted: bool,
    /// A guard on its leash.
    pub held_back: bool,
    /// How far it is from what it fights.
    pub distance: Scalar,
    /// Fights the frog rather than a player.
    pub hunting: bool,
    /// The seat it fights.
    pub target_player: u8,
}

/// Whether an enemy competes for an engagement slot, and if not, why; the
/// exclusions win over the range test.
pub open spec fn status_of(e: Fighter, flee: Scalar, view_range: Scalar) -> EngageStatus {
    if e.wreck {
        EngageStatus::Wreck
    } else if flee.at_most(e.damage) {
        EngageStatus::Fleeing
    } else if e.weapon == ActiveWeapon::Shell && e.retreating {
        EngageStatus::Retreating
    } else if e.distance.at_most(view_range) || e.hit_alerted {
        EngageStatus::Engaged
    } else {
        EngageStatus::OutOfRange
    }
}

/// Whether an enemy competes for an engagement slot this frame.
pub fn engage_status(e: &Fighter, flee: Scalar, view_range: Scalar) -> (status: EngageStatus)
    ensures
        status == status_of(*e, flee, view_range),
{
    if e.wreck {
        EngageStatus::Wreck
    } else if flee.le(e.damage) {
        EngageStatus::Fleeing
    } else if e.weapon == ActiveWeapon::Shell && e.retreating {
        EngageStatus::Retreating
    } else if e.distance.le(view_range) || e.hit_alerted {
        EngageStatus::Engaged
    } else {
        EngageStatus::OutOfRange
    }
}

/// The status an enemy is reported with: a guard on its leash counts as out of
/// range.
pub open spec fn reported(e: Fighter, flee: Scalar, view_range: Scalar) -> EngageStatus {
    if e.held_back {
        EngageStatus::OutOfRange
    } else {
        status_of(e, flee, view_range)
    }
}

impl Ranked for EngageTank {
    /// By round slot.
    open spec fn ahead(self, other: EngageTank) -> bool {
        self.owner < other.owner
    }

    proof fn ranks(a: EngageTank, b: EngageTank, c: EngageTank) {
    }

    fn is_ahead(&self, other: &EngageTank) -> (r: bool) {
        self.owner < other.owner
    }
}

/// The report's entries for the first `n` enemies.
pub open spec fn entries(es: Seq<Fighter>, flee: Scalar, view_range: Scalar, n: int) -> Seq<EngageTank>
    decreases n,
{
    if n <= 0 {
        Seq::empty()
    } else {
        entries(es, flee, view_range, n - 1).push(
            EngageTank::fresh(
                es[n - 1].entity,
                es[n - 1].slot,
                reported(es[n - 1], flee, view_range),
            ),
        )
    }
}

/// The frame's report before anyone is assigned: every enemy with its status,
/// by round slot.
pub fn roster(es: &Vec<Fighter>, flee: Scalar, view_range: Scalar) -> (tanks: Vec<EngageTank>)
    ensures
        tanks@ == ranked(entries(es@, flee, view_range, es@.len() as int)),
{
    let mut tanks: Vec<EngageTank> = Vec::new();
    let mut n: usize = 0;
    while n < es.len()
        invariant
            n <= es@.len(),
            tanks@ == entries(es@, flee, view_range, n as int),
        decreases es@.len() - n,
    {
        let e: Fighter = es[n];
        let status: EngageStatus = if e.held_back {
            EngageStatus::OutOfRange
        } else {
            engage_status(&e, flee, view_range)
        };
        tanks.push(EngageTank::new(e.entity, e.slot, status));
        n += 1;
    }
    sort_ranked(&tanks)
}

/// A ring of engagement slots.
#[derive(Clone, Copy, Debug, PartialEq, Eq, Structural)]
pub enum Ring {
    /// Around a seat.
    Seat(usize),
    /// Around the player's frog.
    Frog,
}

/// The ring an enemy competes on, in a round with `seats` seats.
pub open spec fn ring_of(e: Fighter, seats: int) -> Ring {
    if e.hunting {
        Ring::Frog
    } else {
        Ring::Seat(fought(e.target_player, seats) as usize)
    }
}

/// A contender, by entity.
#[derive(Clone, Copy, Debug, PartialEq, Eq, Structural)]
pub struct Entrant {
    pub entity: u64,
    /// Its place in the enemy list.
    pub index: usize,
}

impl Ranked for Entrant {
    /// By entity, so the greedy claim order is stable frame to frame.
    open spec fn ahead(self, other: Entrant) -> bool {
        self.entity < other.entity
    }

    proof fn ranks(a: Entrant, b: Entrant, c: Entrant) {
    }

    fn is_ahead(&self, other: &Entrant) -> (r: bool) {
        self.entity < other.entity
    }
}

/// Those of the first `n` enemies that compete on a ring.
pub open spec fn entered(
    es: Seq<Fighter>,
    ring: Ring,
    seats: int,
    flee: Scalar,
    view_range: Scalar,
    n: int,
) -> Seq<Entrant>
    decreases n,
{
    if n <= 0 {
        Seq::empty()
    } else {
        let before = entered(es, ring, seats, flee, view_range, n - 1);
        let e = es[n - 1];
        if reported(e, flee, view_range) == EngageStatus::Engaged && ring_of(e, seats) == ring {
            before.push(Entrant { entity: e.entity, index: (n - 1) as usize })
        } else {
            before
        }
    }
}

/// Who competes on a ring this frame, in claim order.
pub fn ring_entrants(
    es: &Vec<Fighter>,
    ring: Ring,
    seats: usize,
    flee: Scalar,
    view_range: Scalar,
) -> (who: Vec<Entrant>)
    requires
        seats > 0,
    ensures
        who@ == ranked(entered(es@, ring, seats as int, flee, view_range, es@.len() as int)),
{
    let mut who: Vec<Entrant> = Vec::new();
    let mut n: usize = 0;
    while n < es.len()
        invariant
            n <= es@.len(),
            seats > 0,
            who@ == entered(es@, ring, seats as int, flee, view_range, n as int),
        decreases es@.len() - n,
    {
        let e: Fighter = es[n];
        let status: EngageStatus = if e.held_back {
            EngageStatus::OutOfRange
        } else {
            engage_status(&e, flee, view_range)
        };
        let own: Ring = if e.hunting {
            Ring::Frog
        } else if (e.target_player as usize) < seats {
            Ring::Seat(e.target_player as usize)
        } else {
            Ring::Seat(seats - 1)
        };
        if status == EngageStatus::Engaged && own == ring {
            who.push(Entrant { entity: e.entity, index: n });
        }
        n += 1;
    }
    sort_ranked(&who)
}

/// Whether the ring around the frog is built: with a quarry, when two hunters
/// compete or one of them has no straight route to it. The ring around a seat
/// is built only for two.
pub fn ring_wanted(ring: Ring, quarry: bool, entrants: usize, someone_blocked: bool) -> (r: bool)
    ensures
        r == (match ring {
            Ring::Seat(_) => entrants >= 2,
            Ring::Frog => quarry && (entrants >= 2 || someone_blocked),
        }),
{
    match ring {
        Ring::Seat(_) => entrants >= 2,
        Ring::Frog => quarry && (entrants >= 2 || someone_blocked),
    }
}

/// The report once the first `n` outcomes of another ring have been merged in.
pub open spec fn merged(tanks: Seq<EngageTank>, other: Seq<EngageTank>, n: int) -> Seq<EngageTank>
    decreases n,
{
    if n <= 0 {
        tanks
    } else {
        let tanks = merged(tanks, other, n - 1);
        let at = find_tank(tanks, other[n - 1].entity);
        if at < tanks.len() {
            tanks.update(at, other[n - 1])
        } else {
            tanks
        }
    }
}

/// Merge another ring's outcomes into the one report every reader consults.
pub fn merge_outcomes(report: &mut EngageReport, other: &Vec<EngageTank>)
    ensures
        final(report).tanks@ == merged(old(report).tanks@, other@, other@.len() as int),
        final(report).slots == old(report).slots,
        final(report).built == old(report).built,
{
    let mut n: usize = 0;
    while n < other.len()
        invariant
            n <= other@.len(),
            report.tanks@ == merged(old(report).tanks@, other@, n as int),
            report.slots == old(report).slots,
            report.built == old(report).built,
        decreases other@.len() - n,
    {
        let at: usize = report.find(other[n].entity);
        if at < report.tanks.len() {
            report.tanks.set(at, other[n]);
        }
        n += 1;
    }
}

/// A hunter gives the frog up for this frame: it holds no slot, has no straight
/// route, and cannot shoot from where it stands.
pub fn hunter_gives_up(no_slot: bool, direct_route: bool, can_shoot: bool) -> (r: bool)
    ensures
        r == (no_slot && !direct_route && !can_shoot),
{
    no_slot && !direct_route && !can_shoot
}

/// The frog an enemy's mind is on: a hunter's target while it hunts, a guard's
/// own frog, nobody else's.
pub fn frog_target(role: Role, hunting: Option<Point>, home: Option<Point>) -> (r: Option<Point>)
    ensures
        r == (match role {
            Role::Hunter => hunting,
            Role::Guard => home,
            Role::Player => None,
        }),
{
    match role {
        Role::Hunter => hunting,
        Role::Guard => home,
        Role::Player => None,
    }
}

/// The position of a slot in the ring's table, as an event carries it.
pub open spec fn slot_number(slot: Option<EngageSlot>) -> Option<u8> {
    match slot {
        Some(slot) => Some(slot.place() as u8),
        None => None,
    }
}

/// The events for the first `n` tanks whose slot changed.
pub open spec fn slot_changes(f: Record, before: EngageReport, now: Seq<EngageTank>, n: int) -> Record
    decreases n,
{
    if n <= 0 {
        f
    } else {
        let f = slot_changes(f, before, now, n - 1);
        let t = now[n - 1];
        let from = slot_number(
            match before.entry(t.entity) {
                Some(e) => e.slot,
                None => None,
            },
        );
        let to = slot_number(t.slot);
        if from != to {
            f.with_event(Event::EngageSlot { slot: t.owner, from, to })
        } else {
            f
        }
    }
}

/// Every slot in a report is one of the sixteen.
pub open spec fn slots_valid(tanks: Seq<EngageTank>) -> bool {
    forall|i: int|
        0 <= i < tanks.len() ==> ((#[trigger] tanks[i]).slot matches Some(s) ==> s.valid())
}

fn slot_byte(slot: Option<EngageSlot>) -> (r: Option<u8>)
    requires
        slot matches Some(s) ==> s.valid(),
    ensures
        r == slot_number(slot),
{
    match slot {
        Some(s) => Some(s.index() as u8),
        None => None,
    }
}

/// Record which enemies hold a different slot than last frame.
pub fn engage_slot_events(f: &mut Frame, before: &EngageReport, now: &EngageReport)
    requires
        slots_valid(before.tanks@),
        slots_valid(now.tanks@),
    ensures
        final(f)@ == slot_changes(old(f)@, *before, now.tanks@, now.tanks@.len() as int),
{
    let mut n: usize = 0;
    while n < now.tanks.len()
        invariant
            n <= now.tanks@.len(),
            slots_valid(before.tanks@),
            slots_valid(now.tanks@),
            f@ == slot_changes(old(f)@, *before, now.tanks@, n as int),
        decreases now.tanks@.len() - n,
    {
        let t: EngageTank = now.tanks[n];
        let old_slot: Option<EngageSlot> = before.slot_of(t.entity);
        proof {
            crate::engage::lemma_find_tank(before.tanks@, t.entity);
        }
        let from: Option<u8> = slot_byte(old_slot);
        let to: Option<u8> = slot_byte(t.slot);
        if from != to {
            f.record(Event::EngageSlot { slot: t.owner, from, to });
        }
        n += 1;
    }
}

/// What tooling remembers of an enemy's mind.
#[derive(Clone, Copy, Debug, PartialEq)]
pub struct AiMemory {
    pub last_action: Option<&'static str>,
    pub retreating: bool,
    pub breaching: Option<&'static str>,
    pub escapes: u32,
}

/// The events for one enemy's change of mind, in a fixed order.
pub open spec fn mind_changes(
    f: Record,
    slot: usize,
    before: AiMemory,
    after: AiMemory,
    acted: bool,
    breached: bool,
) -> Record {
    let f = if acted {
        f.with_event(Event::AiAction { slot, from: before.last_action, to: after.last_action })
    } else {
        f
    };
    let f = if before.retreating != after.retreating {
        f.with_event(Event::Retreat { slot, on: after.retreating })
    } else {
        f
    };
    let f = if breached {
        f.with_event(Event::Breach { slot, dir: after.breaching })
    } else {
        f
    };
    if before.escapes != after.escapes {
        f.with_event(Event::StuckEscape { slot, escapes: after.escapes })
    } else {
        f
    }
}

/// The action or breach named is another one.
pub open spec fn renamed(a: Option<&'static str>, b: Option<&'static str>) -> bool {
    match (a, b) {
        (Some(a), Some(b)) => a@ != b@,
        (None, None) => false,
        _ => true,
    }
}

fn is_renamed(a: Option<&'static str>, b: Option<&'static str>) -> (r: bool)
    ensures
        r == renamed(a, b),
{
    match (a, b) {
        (Some(a), Some(b)) => !(a.to_owned() == b.to_owned()),
        (None, None) => false,
        _ => true,
    }
}

/// Record every transition between an enemy's memory before and after it
/// thought.
pub fn ai_transition_events(f: &mut Frame, slot: usize, before: &AiMemory, after: &AiMemory)
    ensures
        final(f)@ == mind_changes(
            old(f)@,
            slot,
            *before,
            *after,
            renamed(before.last_action, after.last_action),
            renamed(before.breaching, after.breaching),
        ),
{
    if is_renamed(before.last_action, after.last_action) {
        f.record(Event::AiAction { slot, from: before.last_action, to: after.last_action });
    }
    if before.retreating != after.retreating {
        f.record(Event::Retreat { slot, on: after.retreating });
    }
    if is_renamed(before.breaching, after.breaching) {
        f.record(Event::Breach { slot, dir: after.breaching });
    }
    if before.escapes != after.escapes {
        f.record(Event::StuckEscape { slot, escapes: after.escapes });
    }
}

/// An enemy that wants to shoot does, once its weapon is ready.
pub fn enemy_fires(wants: bool, cooldown: Scalar) -> (r: bool)
    ensures
        r == (wants && cooldown.at_most(Scalar::zero())),
{
    wants && cooldown.le(Scalar::zero())
}

proof fn lemma_nearest(
    players: Seq<PlayerView>,
    distances: Seq<Scalar>,
    hit_alerted: bool,
    n: int,
)
    requires
        0 <= n <= players.len(),
    ensures
        match nearest_eligible(players, distances, hit_alerted, n) {
            Some(b) => {
                &&& 0 <= b < n
                &&& players[b].eligible(hit_alerted)
                &&& forall|i: int|
                    #![trigger players[i]]
                    0 <= i < n && players[i].eligible(hit_alerted) ==> !distances[i].below(
                        distances[b],
                    )
            },
            None => forall|i: int|
                0 <= i < n ==> !(#[trigger] players[i]).eligible(hit_alerted),
        },
    decreases n,
{
    if n > 0 {
        lemma_nearest(players, distances, hit_alerted, n - 1);
    }
}

/// Whom an enemy switches to: the nearest seat that is no wreck, is on the
/// field, and is in the open unless it just shot this enemy; and only when its
/// own seat is none of these, or is further away by more than the margin. A
/// seat nearer than all others that can be fought is the one.
pub proof fn an_enemy_goes_for_the_nearest_it_can_fight(
    players: Seq<PlayerView>,
    distances: Seq<Scalar>,
    padded: Seq<Scalar>,
    hit_alerted: bool,
    target_player: u8,
)
    requires
        players.len() > 0,
    ensures
        ({
            let to = switches_to(players, distances, padded, hit_alerted, target_player);
            let own = if (target_player as int) < players.len() {
                target_player as int
            } else {
                players.len() - 1
            };
            let can = |i: int|
                !players[i].wreck && !players[i].entering && (hit_alerted
                    || !players[i].concealed);
            &&& players.len() == 1 ==> to is None
            &&& match to {
                Some(pick) => {
                    &&& 0 <= pick < players.len() && pick != own && can(pick)
                    &&& !can(own) || padded[pick].below(distances[own])
                    &&& forall|i: int|
                        0 <= i < players.len() && #[trigger] can(i) ==> !distances[i].below(
                            distances[pick],
                        )
                },
                None => true,
            }
            &&& forall|k: int|
                #![trigger players[k]]
                0 <= k < players.len() && k != own && can(k) && (forall|i: int|
                    0 <= i < players.len() && i != k && #[trigger] can(i) ==> distances[k].below(
                        distances[i],
                    )) && (!can(own) || padded[k].below(distances[own])) ==> to == Some(k)
        }),
{
    lemma_nearest(players, distances, hit_alerted, players.len() as int);
    let can = |i: int|
        !players[i].wreck && !players[i].entering && (hit_alerted || !players[i].concealed);
    assert forall|i: int| #[trigger] can(i) == players[i].eligible(hit_alerted) by {}
    let best = nearest_eligible(players, distances, hit_alerted, players.len() as int);
    assert forall|k: int|
        #![trigger players[k]]
        0 <= k < players.len() && can(k) && (forall|i: int|
            0 <= i < players.len() && i != k && #[trigger] can(i) ==> distances[k].below(
                distances[i],
            )) implies best == Some(k) by {
        assert(players[k].eligible(hit_alerted));
        let b = best->0;
        if b != k {
            assert(can(b));
            assert(distances[k].below(distances[b]));
        }
    }
}

proof fn lemma_sighted(seen: Seen, player: int, distances: Seq<Scalar>, range: Scalar, n: int)
    requires
        0 <= n <= distances.len(),
    ensures
        ({
            let r = sighted(seen, player, distances, range, n);
            &&& r is None <==> seen is None && forall|k: int|
                0 <= k < n ==> !(#[trigger] distances[k]).at_most(range)
            &&& r matches Some((d, i)) ==> {
                &&& r == seen || (i == player && d.at_most(range) && exists|k: int|
                    0 <= k < n && #[trigger] distances[k] == d)
                &&& seen is Some ==> !((seen->0).0).below(d)
                &&& forall|k: int|
                    0 <= k < n && (#[trigger] distances[k]).at_most(range) ==> !distances[k].below(
                        d,
                    )
            }
            &&& seen is Some && !((seen->0).0).is_nan() && r is Some ==> ((r->0).0).at_most(
                (seen->0).0,
            )
        }),
    decreases n,
{
    if n > 0 {
        lemma_sighted(seen, player, distances, range, n - 1);
        let before = sighted(seen, player, distances, range, n - 1);
        let d = distances[n - 1];
        if d.at_most(range) && (match before {
            Some((best, _)) => d.below(best),
            None => true,
        }) {
            assert(distances[n - 1] == d);
        }
    }
}

proof fn lemma_sightings(
    players: Seq<PlayerView>,
    distances: Seq<Vec<Scalar>>,
    range: Scalar,
    n: int,
)
    requires
        0 <= n <= players.len(),
    ensures
        match nearest_sighting(players, distances, range, n) {
            Some((d, i)) => {
                &&& 0 <= i < n && players[i].in_the_open() && d.at_most(range)
                &&& exists|k: int| 0 <= k < distances[i]@.len() && #[trigger] distances[i]@[k] == d
                &&& forall|j: int, k: int|
                    0 <= j < n && players[j].in_the_open() && 0 <= k < distances[j]@.len() && (
                    #[trigger] distances[j]@[k]).at_most(range) ==> d.at_most(distances[j]@[k])
            },
            None => forall|j: int, k: int|
                0 <= j < n && players[j].in_the_open() && 0 <= k < distances[j]@.len()
                    ==> !(#[trigger] distances[j]@[k]).at_most(range),
        },
    decreases n,
{
    if n > 0 {
        lemma_sightings(players, distances, range, n - 1);
        let before = nearest_sighting(players, distances, range, n - 1);
        if players[n - 1].in_the_open() {
            let row = distances[n - 1]@;
            lemma_sighted(before, n - 1, row, range, row.len() as int);
            let now = sighted(before, n - 1, row, range, row.len() as int);
            if now is Some {
                let d = (now->0).0;
                if now != before {
                    let k = choose|k: int| 0 <= k < row.len() && #[trigger] row[k] == d;
                    assert(distances[n - 1]@[k] == d);
                }
                assert forall|j: int, k: int|
                    0 <= j < n && players[j].in_the_open() && 0 <= k < distances[j]@.len() && (
                    #[trigger] distances[j]@[k]).at_most(range) implies d.at_most(
                    distances[j]@[k],
                ) by {
                    if j == n - 1 {
                        assert(row[k].at_most(range));
                    }
                }
            } else {
                assert forall|j: int, k: int|
                    0 <= j < n && players[j].in_the_open() && 0 <= k
                        < distances[j]@.len() implies !(#[trigger] distances[j]@[k]).at_most(
                    range,
                ) by {
                    if j == n - 1 {
                        assert(!row[k].at_most(range));
                    }
                }
            }
        }
    }
}

/// What the pack sees: a player who is no wreck, on the field and in the open
/// is seen as soon as any enemy is within range of it, and of all the players
/// seen like that the one with an enemy nearest to it is where the alert goes.
pub proof fn a_player_in_the_open_is_seen(
    players: Seq<PlayerView>,
    distances: Seq<Vec<Scalar>>,
    range: Scalar,
)
    ensures
        ({
            let open = |i: int|
                !players[i].wreck && !players[i].entering && !players[i].concealed;
            match nearest_sighting(players, distances, range, players.len() as int) {
                Some((d, i)) => {
                    &&& 0 <= i < players.len() && open(i) && d.at_most(range)
                    &&& exists|k: int|
                        0 <= k < distances[i]@.len() && #[trigger] distances[i]@[k] == d
                    &&& forall|j: int, k: int|
                        0 <= j < players.len() && open(j) && 0 <= k < distances[j]@.len() && (
                        #[trigger] distances[j]@[k]).at_most(range) ==> d.at_most(distances[j]@[k])
                },
                None => forall|j: int, k: int|
                    0 <= j < players.len() && open(j) && 0 <= k < distances[j]@.len()
                        ==> !(#[trigger] distances[j]@[k]).at_most(range),
            }
        }),
{
    lemma_sightings(players, distances, range, players.len() as int);
}

/// A sighting is where the pack looks for as long as the hold lasts; without
/// one the last sighting stays until its time is up, and the pack acts on it
/// only while there is time left.
pub proof fn an_alert_holds_until_its_time_is_up(
    alert: Alert,
    at: Point,
    decayed: Scalar,
    hold: Scalar,
)
    ensures
        alert.after(Some(at), decayed, hold).position == Some(at),
        alert.after(Some(at), decayed, hold).timer == hold,
        alert.after(None, decayed, hold).timer == decayed,
        Scalar::zero().below(decayed) ==> {
            &&& alert.after(None, decayed, hold).position == alert.position
            &&& alert.after(None, decayed, hold).known() == alert.position
        },
        decayed.at_most(Scalar::zero()) ==> alert.after(None, decayed, hold).position is None,
        Scalar::zero().below(alert.timer) ==> alert.known() == alert.position,
        alert.timer.at_most(Scalar::zero()) ==> alert.known() is None,
        Scalar::zero().below(hold) ==> alert.after(Some(at), decayed, hold).known() == Some(at),
{
}

/// An alert that comes up is told where it is, one that runs out where it was,
/// and nothing is told of one that stays as it was or when nobody asked.
pub proof fn an_alert_is_told_when_it_comes_and_goes(
    f: Record,
    was: Point,
    now: Point,
    fallback: Point,
)
    ensures
        alert_told(f, None, Some(now), true, fallback).events == f.events.push(
            Event::Alert { on: true, x: now.x, y: now.y },
        ),
        alert_told(f, Some(was), None, true, fallback).events == f.events.push(
            Event::Alert { on: false, x: was.x, y: was.y },
        ),
        alert_told(f, Some(was), Some(now), true, fallback) == f,
        alert_told(f, None, None, true, fallback) == f,
        forall|a: Option<Point>, b: Option<Point>| #[trigger]
            alert_told(f, a, b, false, fallback) == f,
{
}

/// A hunter goes for the frog while it lives; a hunter without one, and
/// everyone else, for the player.
pub proof fn a_hunter_fights_the_living_frog(role: Role, q: Quarry, player: Point)
    ensures
        fights_what(role, None, player) == (player, None::<u64>),
        role is Hunter ==> fights_what(role, Some(q), player) == (q.position, Some(q.frog)),
        role !is Hunter ==> fights_what(role, Some(q), player) == (player, None::<u64>),
{
}

/// An enemy competes for a slot when it is no wreck, is not damaged enough to
/// flee, is not backing off with shells in its gun, and either has what it
/// fights within view or has just been shot; a guard on its leash counts as out
/// of range whatever else holds.
pub proof fn who_competes_for_a_slot(e: Fighter, flee: Scalar, view_range: Scalar)
    ensures
        ({
            let flees = flee.at_most(e.damage);
            let backs_off = e.weapon is Shell && e.retreating;
            let s = status_of(e, flee, view_range);
            &&& s is Engaged <==> !e.wreck && !flees && !backs_off && (e.hit_alerted
                || e.distance.at_most(view_range))
            &&& s is OutOfRange <==> !e.wreck && !flees && !backs_off && !e.hit_alerted
                && !e.distance.at_most(view_range)
            &&& s is Wreck <==> e.wreck
            &&& s is Fleeing <==> !e.wreck && flees
            &&& s is Retreating <==> !e.wreck && !flees && backs_off
            &&& e.held_back ==> reported(e, flee, view_range) is OutOfRange
            &&& !e.held_back ==> reported(e, flee, view_range) == s
        }),
{
}

proof fn lemma_entries(es: Seq<Fighter>, flee: Scalar, view_range: Scalar, n: int)
    requires
        0 <= n <= es.len(),
    ensures
        entries(es, flee, view_range, n).len() == n,
        forall|i: int|
            0 <= i < n ==> #[trigger] entries(es, flee, view_range, n)[i] == EngageTank::fresh(
                es[i].entity,
                es[i].slot,
                reported(es[i], flee, view_range),
            ),
    decreases n,
{
    if n > 0 {
        lemma_entries(es, flee, view_range, n - 1);
    }
}

/// Every enemy is in the report, by its own entity and round slot, with no
/// engagement slot yet.
pub proof fn every_enemy_is_in_the_report(es: Seq<Fighter>, flee: Scalar, view_range: Scalar)
    ensures
        ({
            let all = entries(es, flee, view_range, es.len() as int);
            &&& all.len() == es.len()
            &&& forall|i: int|
                0 <= i < es.len() ==> {
                    let t = #[trigger] all[i];
                    &&& t.entity == es[i].entity && t.owner == es[i].slot
                    &&& t.slot is None && t.target is None && !t.sticky
                    &&& es[i].wreck && !es[i].held_back ==> t.status is Wreck
                    &&& es[i].held_back ==> t.status is OutOfRange
                    &&& t.status is Engaged <==> !es[i].held_back && !es[i].wreck && !flee.at_most(
                        es[i].damage,
                    ) && !(es[i].weapon is Shell && es[i].retreating) && (es[i].hit_alerted
                        || es[i].distance.at_most(view_range))
                }
        }),
{
    lemma_entries(es, flee, view_range, es.len() as int);
}

/// A hunter competes around the frog, anyone else around the seat it fights,
/// and the last seat stands for one that is not there.
pub proof fn the_ring_is_around_what_one_fights(e: Fighter, seats: int)
    requires
        0 < seats <= 255,
    ensures
        e.hunting ==> ring_of(e, seats) is Frog,
        !e.hunting && e.target_player < seats ==> ring_of(e, seats) == Ring::Seat(
            e.target_player as usize,
        ),
        !e.hunting && e.target_player >= seats ==> ring_of(e, seats) == Ring::Seat(
            (seats - 1) as usize,
        ),
        (e.target_player as int) < seats ==> fought(e.target_player, seats) == e.target_player,
        e.target_player >= seats ==> fought(e.target_player, seats) == seats - 1,
{
}

proof fn lemma_entered(
    es: Seq<Fighter>,
    ring: Ring,
    seats: int,
    flee: Scalar,
    view_range: Scalar,
    n: int,
)
    requires
        0 <= n <= es.len() <= usize::MAX,
    ensures
        ({
            let who = entered(es, ring, seats, flee, view_range, n);
            &&& forall|p: int|
                0 <= p < who.len() ==> {
                    let i = (#[trigger] who[p]).index as int;
                    &&& 0 <= i < n && who[p].entity == es[i].entity
                    &&& reported(es[i], flee, view_range) is Engaged
                    &&& ring_of(es[i], seats) == ring
                }
            &&& forall|i: int|
                0 <= i < n && reported(#[trigger] es[i], flee, view_range) is Engaged && ring_of(
                    es[i],
                    seats,
                ) == ring ==> who.contains(Entrant { entity: es[i].entity, index: i as usize })
        }),
    decreases n,
{
    if n > 0 {
        lemma_entered(es, ring, seats, flee, view_range, n - 1);
        let before = entered(es, ring, seats, flee, view_range, n - 1);
        let who = entered(es, ring, seats, flee, view_range, n);
        assert forall|i: int|
            0 <= i < n && reported(#[trigger] es[i], flee, view_range) is Engaged && ring_of(
                es[i],
                seats,
            ) == ring implies who.contains(
            Entrant { entity: es[i].entity, index: i as usize },
        ) by {
            let entrant = Entrant { entity: es[i].entity, index: i as usize };
            if i < n - 1 {
                let p = choose|p: int| 0 <= p < before.len() && before[p] == entrant;
                assert(who[p] == entrant);
            } else {
                assert(who[who.len() - 1] == entrant);
            }
        }
    }
}

/// Everyone in the fight for a frog, and everyone in the fight for a seat, is
/// among that ring's contenders, and nobody else is.
pub proof fn everyone_in_the_fight_contends_on_its_ring(
    es: Seq<Fighter>,
    ring: Ring,
    seats: int,
    flee: Scalar,
    view_range: Scalar,
)
    requires
        0 < seats <= 255,
        es.len() <= usize::MAX,
    ensures
        ({
            let who = entered(es, ring, seats, flee, view_range, es.len() as int);
            let fit = |e: Fighter|
                !e.held_back && !e.wreck && !flee.at_most(e.damage) && !(e.weapon is Shell
                    && e.retreating) && (e.hit_alerted || e.distance.at_most(view_range));
            let here = |e: Fighter|
                match ring {
                    Ring::Frog => e.hunting,
                    Ring::Seat(s) => !e.hunting && (e.target_player == s || (e.target_player
                        >= seats && s == seats - 1)),
                };
            &&& forall|p: int|
                0 <= p < who.len() ==> {
                    let i = (#[trigger] who[p]).index as int;
                    0 <= i < es.len() && who[p].entity == es[i].entity && fit(es[i]) && here(es[i])
                }
            &&& forall|i: int|
                0 <= i < es.len() && fit(#[trigger] es[i]) && here(es[i]) && (ring matches Ring::Seat(s)
                    ==> s < seats) ==> who.contains(
                    Entrant { entity: es[i].entity, index: i as usize },
                )
        }),
{
    lemma_entered(es, ring, seats, flee, view_range, es.len() as int);
}

proof fn lemma_merged(tanks: Seq<EngageTank>, other: Seq<EngageTank>, n: int)
    requires
        0 <= n <= other.len(),
        forall|i: int, j: int|
            0 <= i < j < tanks.len() ==> (#[trigger] tanks[i]).entity != (
            #[trigger] tanks[j]).entity,
        forall|i: int, j: int|
            0 <= i < j < other.len() ==> (#[trigger] other[i]).entity != (
            #[trigger] other[j]).entity,
    ensures
        ({
            let r = merged(tanks, other, n);
            &&& r.len() == tanks.len()
            &&& forall|i: int|
                0 <= i < tanks.len() ==> (#[trigger] r[i]).entity == tanks[i].entity
            &&& forall|i: int, k: int|
                0 <= i < tanks.len() && 0 <= k < n && (#[trigger] tanks[i]).entity == (
                #[trigger] other[k]).entity ==> r[i] == other[k]
            &&& forall|i: int|
                0 <= i < tanks.len() && (forall|k: int|
                    0 <= k < n ==> (#[trigger] other[k]).entity != tanks[i].entity)
                    ==> #[trigger] r[i] == tanks[i]
        }),
    decreases n,
{
    if n > 0 {
        lemma_merged(tanks, other, n - 1);
        let before = merged(tanks, other, n - 1);
        lemma_find_tank(before, other[n - 1].entity);
        let at = find_tank(before, other[n - 1].entity);
        let r = merged(tanks, other, n);
        assert forall|i: int, k: int|
            0 <= i < tanks.len() && 0 <= k < n && (#[trigger] tanks[i]).entity == (
            #[trigger] other[k]).entity implies r[i] == other[k] by {
            assert(before[i].entity == tanks[i].entity);
            if k == n - 1 {
                if at < before.len() {
                    assert(before[at].entity == tanks[at].entity);
                    assert(at == i);
                }
            } else if at == i {
                assert(other[k].entity == other[n - 1].entity);
            }
        }
        assert forall|i: int|
            0 <= i < tanks.len() && (forall|k: int|
                0 <= k < n ==> (#[trigger] other[k]).entity
                    != tanks[i].entity) implies #[trigger] r[i] == tanks[i] by {
            assert(before[i] == tanks[i]);
            assert(other[n - 1].entity != tanks[i].entity);
        }
    }
}

/// The one report holds what each ring decided: an outcome replaces the entry
/// of the same enemy, and whoever was on no ring keeps its entry.
pub proof fn an_outcome_replaces_its_own_entry(tanks: Seq<EngageTank>, other: Seq<EngageTank>)
    requires
        forall|i: int, j: int|
            0 <= i < j < tanks.len() ==> (#[trigger] tanks[i]).entity != (
            #[trigger] tanks[j]).entity,
        forall|i: int, j: int|
            0 <= i < j < other.len() ==> (#[trigger] other[i]).entity != (
            #[trigger] other[j]).entity,
    ensures
        ({
            let r = merged(tanks, other, other.len() as int);
            &&& r.len() == tanks.len()
            &&& forall|i: int, k: int|
                0 <= i < tanks.len() && 0 <= k < other.len() && (#[trigger] tanks[i]).entity == (
                #[trigger] other[k]).entity ==> r[i] == other[k]
            &&& forall|i: int|
                0 <= i < tanks.len() && (forall|k: int|
                    0 <= k < other.len() ==> (#[trigger] other[k]).entity != tanks[i].entity)
                    ==> #[trigger] r[i] == tanks[i]
        }),
{
    lemma_merged(tanks, other, other.len() as int);
}

proof fn lemma_slot_changes(f: Record, before: EngageReport, now: Seq<EngageTank>, n: int, k: int)
    requires
        0 <= k < n <= now.len(),
        slot_number(
            match before.entry(now[k].entity) {
                Some(e) => e.slot,
                None => None,
            },
        ) != slot_number(now[k].slot),
    ensures
        slot_changes(f, before, now, n).events.contains(
            Event::EngageSlot {
                slot: now[k].owner,
                from: slot_number(
                    match before.entry(now[k].entity) {
                        Some(e) => e.slot,
                        None => None,
                    },
                ),
                to: slot_number(now[k].slot),
            },
        ),
    decreases n,
{
    let told = Event::EngageSlot {
        slot: now[k].owner,
        from: slot_number(
            match before.entry(now[k].entity) {
                Some(e) => e.slot,
                None => None,
            },
        ),
        to: slot_number(now[k].slot),
    };
    let r = slot_changes(f, before, now, n);
    if k == n - 1 {
        assert(r.events[r.events.len() - 1] == told);
    } else {
        lemma_slot_changes(f, before, now, n - 1, k);
        let s = slot_changes(f, before, now, n - 1);
        let p = choose|p: int| 0 <= p < s.events.len() && s.events[p] == told;
        assert(r.events[p] == told);
    }
}

/// An enemy that gains, loses or changes its slot is told of by round slot,
/// with the place it had and the one it has.
pub proof fn a_changed_slot_is_told(
    f: Record,
    before: EngageReport,
    now: Seq<EngageTank>,
    i: int,
    k: int,
)
    requires
        0 <= i < before.tanks@.len(),
        0 <= k < now.len(),
        before.tanks@[i].entity == now[k].entity,
        forall|j: int| 0 <= j < i ==> (#[trigger] before.tanks@[j]).entity != now[k].entity,
    ensures
        ({
            let r = slot_changes(f, before, now, now.len() as int);
            match (before.tanks@[i].slot, now[k].slot) {
                (None, Some(s)) => r.events.contains(
                    Event::EngageSlot { slot: now[k].owner, from: None, to: Some(s.place() as u8) },
                ),
                (Some(s), None) => r.events.contains(
                    Event::EngageSlot { slot: now[k].owner, from: Some(s.place() as u8), to: None },
                ),
                (Some(s), Some(t)) => s.place() as u8 != t.place() as u8 ==> r.events.contains(
                    Event::EngageSlot {
                        slot: now[k].owner,
                        from: Some(s.place() as u8),
                        to: Some(t.place() as u8),
                    },
                ),
                (None, None) => true,
            }
        }),
{
    let entity = now[k].entity;
    lemma_find_tank(before.tanks@, entity);
    let at = find_tank(before.tanks@, entity);
    assert(at == i) by {
        if at < i {
            assert(before.tanks@[at].entity != entity);
        }
    }
    assert(before.entry(entity) == Some(before.tanks@[i]));
    if slot_number(before.tanks@[i].slot) != slot_number(now[k].slot) {
        lemma_slot_changes(f, before, now, now.len() as int, k);
    }
}

/// A change of mind is told: another action, a retreat begun or ended, another
/// breach, one more escape, in that order, and nothing that stayed the same.
pub proof fn a_change_of_mind_is_told(f: Record, slot: usize, before: AiMemory, after: AiMemory)
    ensures
        ({
            let acted = renamed(before.last_action, after.last_action);
            let breached = renamed(before.breaching, after.breaching);
            let none = Seq::<Event>::empty();
            mind_changes(f, slot, before, after, acted, breached).events =~= f.events + (if acted {
                seq![
                    Event::AiAction { slot, from: before.last_action, to: after.last_action },
                ]
            } else {
                none
            }) + (if before.retreating != after.retreating {
                seq![Event::Retreat { slot, on: after.retreating }]
            } else {
                none
            }) + (if breached {
                seq![Event::Breach { slot, dir: after.breaching }]
            } else {
                none
            }) + (if before.escapes != after.escapes {
                seq![Event::StuckEscape { slot, escapes: after.escapes }]
            } else {
                none
            })
        }),
        before.last_action is None && after.last_action is None ==> !renamed(
            before.last_action,
            after.last_action,
        ),
        before.last_action is Some != after.last_action is Some ==> renamed(
            before.last_action,
            after.last_action,
        ),
        before.last_action is Some && after.last_action is Some ==> (renamed(
            before.last_action,
            after.last_action,
        ) <==> (before.last_action->0)@ != (after.last_action->0)@),
{
}

/// Contenders come by entity, the report by round slot.
pub proof fn contenders_come_by_entity(a: Entrant, b: Entrant, s: EngageTank, t: EngageTank)
    ensures
        a.ahead(b) <==> a.entity < b.entity,
        s.ahead(t) <==> s.owner < t.owner,
{
}

} // verus!
