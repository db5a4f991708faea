//! Triggers, shots and shields.

use vstd::prelude::*;

use crate::event::Event;
use crate::field::{thing, Kind};
use crate::flame::{burn_order, seated};
use crate::frame::{Frame, Record, ShockKind};
use crate::game::{on_field, seats_hold, Game, Round};
use crate::kinds::{ActiveWeapon, Intent, Owner, MAX_SEATS};
use crate::pieces::{Missile, Piece, Shot, Tank};
use crate::scalar::{Point, Scalar};

verus! {

/// Fires for as long as the key is held; the others fire once per press.
#[verifier::allow_in_spec]
pub fn full_auto(weapon: ActiveWeapon) -> bool
    returns
        (weapon == ActiveWeapon::Laser || weapon == ActiveWeapon::Minigun || weapon
            == ActiveWeapon::Missiles || weapon == ActiveWeapon::Flamethrower),
{
    weapon == ActiveWeapon::Laser || weapon == ActiveWeapon::Minigun || weapon
        == ActiveWeapon::Missiles || weapon == ActiveWeapon::Flamethrower
}

/// A seat's trigger this frame.
#[verifier::ext_equal]
pub struct Pull {
    pub tank: Tank,
    /// The key's state, for next frame.
    pub held: bool,
    /// What is launched.
    pub shot: Option<ActiveWeapon>,
}

/// What a seat's fire key does. A wreck's is dead. A flamethrower streams
/// every held frame with no cooldown at all; any other weapon waits for its
/// own, and one that is not full-auto for a fresh press too.
pub open spec fn pulled(tank: Tank, fire: bool, held: bool) -> Pull {
    let wanted = fire && (full_auto(tank.weapon) || !held);
    if tank.wreck {
        Pull { tank, held, shot: None }
    } else if tank.weapon == ActiveWeapon::Flamethrower {
        if wanted {
            Pull { tank, held: fire, shot: Some(tank.weapon) }
        } else {
            Pull { tank: Tank { flame_held: false, ..tank }, held: fire, shot: None }
        }
    } else if wanted && tank.fire_cooldown.at_most(Scalar::zero()) {
        Pull { tank: Tank { flame_held: false, ..tank }, held: fire, shot: Some(tank.weapon) }
    } else {
        Pull { tank, held: fire, shot: None }
    }
}

/// Read one seat's fire key.
pub fn pull_trigger(tank: Tank, fire: bool, held: bool) -> (r: (Tank, bool, Option<ActiveWeapon>))
    ensures
        (Pull { tank: r.0, held: r.1, shot: r.2 }) == pulled(tank, fire, held),
{
    if tank.wreck {
        return (tank, held, None);
    }
    let wanted: bool = fire && (full_auto(tank.weapon) || !held);
    if tank.weapon == ActiveWeapon::Flamethrower {
        if wanted {
            (tank, fire, Some(tank.weapon))
        } else {
            (Tank { flame_held: false, ..tank }, fire, None)
        }
    } else if wanted && tank.fire_cooldown.le(Scalar::zero()) {
        (Tank { flame_held: false, ..tank }, fire, Some(tank.weapon))
    } else {
        (tank, fire, None)
    }
}

/// A key that stays down fires shells and plasma only once, however ready the
/// gun is by the next frame.
pub proof fn a_held_key_fires_once(tank: Tank, next: Tank, held: bool)
    requires
        !tank.wreck,
        !full_auto(next.weapon),
    ensures
        pulled(next, true, pulled(tank, true, held).held).shot is None,
{
}

impl Game {
    /// One seat's trigger for one frame, by its own key. A wreck is left
    /// alone.
    pub fn drive_player(&mut self, index: usize, intent: &Intent) -> (shot: Option<ActiveWeapon>)
        requires
            old(self).wf(),
            index < MAX_SEATS,
        ensures
            final(self).wf(),
            final(self).keeps_surroundings(old(self)),
            final(self).events == old(self).events,
            match old(self).round.seats@[index as int] {
                None => shot is None && final(self).round == old(self).round && final(self).field@
                    == old(self).field@,
                Some(entity) => {
                    let tank = thing::<Tank>(old(self).field@, entity)->0;
                    let pull = pulled(tank, intent.fire, old(self).round.fire_held@[index as int]);
                    &&& shot == pull.shot
                    &&& final(self).field@ == old(self).field@.insert(entity, pull.tank.as_piece())
                    &&& final(self).round.fire_held@ == old(self).round.fire_held@.update(
                        index as int,
                        pull.held,
                    )
                    &&& final(self).round == (Round {
                        fire_held: final(self).round.fire_held,
                        ..old(self).round
                    })
                },
            },
    {
        let entity: u64 = match self.round.seats[index] {
            Some(e) => e,
            None => return None,
        };
        let tank: Option<Tank> = self.field.get(entity);
        let ghost before = self.field@;
        assert(old(self).round.seats@[index as int] == Some(entity));
        if let Some(tank) = tank {
            let (after, held, shot) = pull_trigger(tank, intent.fire, self.round.fire_held[index]);
            self.field.put(entity, after);
            self.round.fire_held[index] = held;
            proof {
                let seats = self.round.seats@;
                assert forall|i: int| #![trigger seats[i]] 0 <= i < MAX_SEATS implies (
                seats[i] matches Some(e) ==> i < self.round.players.seated() && (thing::<Tank>(
                    self.field@,
                    e,
                ) matches Some(t) && t.owner == Owner::Player(i as u8) && t.mind is None)) by {
                    assert(seats[i] == old(self).round.seats@[i]);
                }
            }
            return shot;
        }
        None
    }
}

/// The seats' tanks, keys and shots, part of the way through the players'
/// turn.
#[verifier::ext_equal]
pub struct Triggers {
    pub pieces: Map<u64, Piece>,
    pub held: Seq<bool>,
    pub shots: Seq<Option<ActiveWeapon>>,
}

/// The first `n` seats have had their turn. A seat whose tank is not on the
/// battlefield has none.
pub open spec fn players_driven(
    at: Triggers,
    seats: Seq<Option<u64>>,
    intents: Seq<Intent>,
    n: int,
) -> Triggers
    decreases n,
{
    if n <= 0 {
        at
    } else {
        let now = players_driven(at, seats, intents, n - 1);
        match on_field(seats[n - 1], at.pieces) {
            Some(e) => {
                let pull = pulled(
                    thing::<Tank>(now.pieces, e)->0,
                    intents[n - 1].fire,
                    now.held[n - 1],
                );
                Triggers {
                    pieces: now.pieces.insert(e, pull.tank.as_piece()),
                    held: now.held.update(n - 1, pull.held),
                    shots: now.shots.push(pull.shot),
                }
            },
            None => Triggers { shots: now.shots.push(None), ..now },
        }
    }
}

impl Game {
    /// Every seat's trigger for one frame, in seat order. A seat driving back
    /// in through a gate is not the stick's: it has no turn until it arrives.
    /// Returns what each seat shot with.
    pub fn player_phase(&mut self, intents: &Vec<Intent>) -> (shots: Vec<Option<ActiveWeapon>>)
        requires
            old(self).wf(),
            intents@.len() <= MAX_SEATS,
        ensures
            final(self).wf(),
            (Triggers {
                pieces: final(self).field@,
                held: final(self).round.fire_held@,
                shots: shots@,
            }) == players_driven(
                Triggers {
                    pieces: old(self).field@,
                    held: old(self).round.fire_held@,
                    shots: Seq::empty(),
                },
                old(self).round.seats@,
                intents@,
                intents@.len() as int,
            ),
            final(self).round == (Round {
                fire_held: final(self).round.fire_held,
                ..old(self).round
            }),
            final(self).keeps_surroundings(old(self)),
            final(self).events == old(self).events,
    {
        let seats: [Option<u64>; 8] = self.seats_on_field();
        let mut shots: Vec<Option<ActiveWeapon>> = Vec::new();
        let ghost start = Triggers {
            pieces: self.field@,
            held: self.round.fire_held@,
            shots: Seq::empty(),
        };
        let mut n: usize = 0;
        while n < intents.len()
            invariant
                n <= intents@.len() <= MAX_SEATS,
                start == (Triggers {
                    pieces: old(self).field@,
                    held: old(self).round.fire_held@,
                    shots: Seq::empty(),
                }),
                forall|i: int|
                    0 <= i < MAX_SEATS ==> #[trigger] seats@[i] == on_field(
                        old(self).round.seats@[i],
                        start.pieces,
                    ),
                self.wf(),
                self.round == (Round { fire_held: self.round.fire_held, ..old(self).round }),
                self.keeps_surroundings(old(self)),
                self.events == old(self).events,
                (Triggers {
                    pieces: self.field@,
                    held: self.round.fire_held@,
                    shots: shots@,
                }) == players_driven(start, old(self).round.seats@, intents@, n as int),
            decreases intents@.len() - n,
        {
            assert(seats@[n as int] == on_field(old(self).round.seats@[n as int], start.pieces));
            let mut shot: Option<ActiveWeapon> = None;
            if seats[n].is_some() {
                shot = self.drive_player(n, &intents[n]);
            }
            shots.push(shot);
            n += 1;
        }
        shots
    }
}

/// A shot's or missile's own number.
pub open spec fn shot_id(piece: Piece) -> Option<u32> {
    match piece {
        Piece::Shot(s) => Some(s.id),
        Piece::Missile(m) => Some(m.id),
        _ => None,
    }
}

/// Every projectile on the field has a number the round has given out, and no
/// two have the same.
pub open spec fn numbered(pieces: Map<u64, Piece>, given: u32) -> bool {
    &&& forall|a: u64| #[trigger]
        pieces.contains_key(a) ==> (shot_id(pieces[a]) matches Some(n) ==> 1 <= n <= given)
    &&& forall|a: u64, b: u64| #[trigger]
        pieces.contains_key(a) && #[trigger] pieces.contains_key(b) && a != b && shot_id(
            pieces[a],
        ) is Some ==> shot_id(pieces[a]) != shot_id(pieces[b])
}

/// The field once the first `n` of a volley are in the air, numbered from
/// `given` on.
pub open spec fn launched(
    pieces: Map<u64, Piece>,
    ids: Seq<u64>,
    shots: Seq<Piece>,
    given: int,
    n: int,
) -> Map<u64, Piece>
    decreases n,
{
    if n <= 0 {
        pieces
    } else {
        launched(pieces, ids, shots, given, n - 1).insert(
            ids[n - 1],
            with_id(shots[n - 1], (given + n) as u32),
        )
    }
}

/// A projectile with its number.
pub open spec fn with_id(piece: Piece, id: u32) -> Piece {
    match piece {
        Piece::Shot(s) => Piece::Shot(Shot { id, ..s }),
        Piece::Missile(m) => Piece::Missile(Missile { id, ..m }),
        _ => piece,
    }
}

/// A frame's volley in the order it is launched: shells, plasma, bullets and
/// then missiles.
pub open spec fn volley(
    shells: Seq<Shot>,
    plasmas: Seq<Shot>,
    bullets: Seq<Shot>,
    missiles: Seq<Missile>,
) -> Seq<Piece> {
    shells.map_values(|s: Shot| Piece::Shot(s)) + plasmas.map_values(|s: Shot| Piece::Shot(s))
        + bullets.map_values(|s: Shot| Piece::Shot(s)) + missiles.map_values(
        |m: Missile| Piece::Missile(m),
    )
}

impl Game {
    /// The next projectile number: one counter for everything fired, from one
    /// each round, never reused.
    pub fn take_shot_id(&mut self) -> (id: u32)
        requires
            old(self).round.next_shot_id < u32::MAX,
        ensures
            id == old(self).round.next_shot_id + 1,
            final(self).round == (Round { next_shot_id: id, ..old(self).round }),
            final(self).field == old(self).field,
            final(self).keeps_surroundings(old(self)),
            final(self).events == old(self).events,
    {
        self.round.next_shot_id = self.round.next_shot_id + 1;
        self.round.next_shot_id
    }

    fn launch(&mut self, piece: Piece, Ghost(before): Ghost<Game>, ids: &mut Vec<u64>, Ghost(
        shots,
    ): Ghost<Seq<Piece>>)
        requires
            old(self).wf(),
            old(self).field@.dom().len() < u32::MAX,
            old(self).round.next_shot_id < u32::MAX,
            old(self).keeps_surroundings(&before),
            old(self).events == before.events,
            old(ids)@.len() < shots.len(),
            shots[old(ids)@.len() as int] == piece,
            shot_id(piece) is Some,
            old(self).round == (Round {
                next_shot_id: old(self).round.next_shot_id,
                ..before.round
            }),
            old(self).round.next_shot_id == before.round.next_shot_id + old(ids)@.len(),
            old(self).field@ == launched(
                before.field@,
                old(ids)@,
                shots,
                before.round.next_shot_id as int,
                old(ids)@.len() as int,
            ),
        ensures
            final(self).wf(),
            final(self).keeps_surroundings(&before),
            final(self).events == before.events,
            final(ids)@.len() == old(ids)@.len() + 1,
            final(self).field@.dom().len() == old(self).field@.dom().len() + 1,
            final(self).round == (Round {
                next_shot_id: final(self).round.next_shot_id,
                ..before.round
            }),
            final(self).round.next_shot_id == before.round.next_shot_id + final(ids)@.len(),
            !old(self).field@.contains_key(final(ids)@.last()),
            final(ids)@.drop_last() == old(ids)@,
            final(self).field@ == launched(
                before.field@,
                final(ids)@,
                shots,
                before.round.next_shot_id as int,
                final(ids)@.len() as int,
            ),
            numbered(old(self).field@, old(self).round.next_shot_id) ==> numbered(
                final(self).field@,
                final(self).round.next_shot_id,
            ),
    {
        let ghost mid = self.field@;
        let ghost were = ids@;
        let id: u32 = self.take_shot_id();
        let entity: u64 = match piece {
            Piece::Shot(s) => self.field.spawn(Shot { id, ..s }),
            Piece::Missile(m) => self.field.spawn(Missile { id, ..m }),
            _ => 0,
        };
        ids.push(entity);
        proof {
            lemma_launched_prefix(
                before.field@,
                were,
                ids@,
                shots,
                before.round.next_shot_id as int,
                were.len() as int,
            );
            assert(ids@.drop_last() =~= were);
            let seats = self.round.seats@;
            assert forall|i: int| #![trigger seats[i]] 0 <= i < MAX_SEATS implies (
            seats[i] matches Some(e) ==> i < self.round.players.seated() && (thing::<Tank>(
                self.field@,
                e,
            ) matches Some(t) && t.owner == Owner::Player(i as u8) && t.mind is None)) by {
                assert(seats[i] == old(self).round.seats@[i]);
            }
            if numbered(mid, old(self).round.next_shot_id) {
                assert forall|a: u64, b: u64| #[trigger]
                    self.field@.contains_key(a) && #[trigger] self.field@.contains_key(b) && a != b
                        && shot_id(self.field@[a]) is Some implies shot_id(self.field@[a])
                    != shot_id(self.field@[b]) by {
                    if a != entity {
                        assert(mid.contains_key(a));
                    }
                    if b != entity {
                        assert(mid.contains_key(b));
                    }
                }
                assert forall|a: u64| #[trigger] self.field@.contains_key(a) implies (shot_id(
                    self.field@[a],
                ) matches Some(n) ==> 1 <= n <= self.round.next_shot_id) by {
                    if a != entity {
                        assert(mid.contains_key(a));
                    }
                }
            }
        }
    }
}

proof fn lemma_launched_prefix(
    pieces: Map<u64, Piece>,
    a: Seq<u64>,
    b: Seq<u64>,
    shots: Seq<Piece>,
    given: int,
    n: int,
)
    requires
        0 <= n <= a.len() <= b.len(),
        forall|i: int| 0 <= i < a.len() ==> a[i] == b[i],
    ensures
        launched(pieces, a, shots, given, n) == launched(pieces, b, shots, given, n),
    decreases n,
{
    if n > 0 {
        lemma_launched_prefix(pieces, a, b, shots, given, n - 1);
    }
}

impl Game {
    /// Put a frame's volley in the air, each projectile with the next number.
    /// Returns the entities in launch order.
    pub fn spawn_pending(
        &mut self,
        shells: &Vec<Shot>,
        plasmas: &Vec<Shot>,
        bullets: &Vec<Shot>,
        missiles: &Vec<Missile>,
    ) -> (ids: Vec<u64>)
        requires
            old(self).wf(),
            ({
                let n = shells@.len() + plasmas@.len() + bullets@.len() + missiles@.len();
                &&& old(self).field@.dom().len() + n <= u32::MAX
                &&& old(self).round.next_shot_id + n <= u32::MAX
            }),
        ensures
            final(self).wf(),
            final(self).keeps_surroundings(old(self)),
            final(self).events == old(self).events,
            ({
                let shots = volley(shells@, plasmas@, bullets@, missiles@);
                &&& ids@.len() == shots.len()
                &&& ids@.no_duplicates()
                &&& forall|i: int|
                    0 <= i < ids@.len() ==> !old(self).field@.contains_key(#[trigger] ids@[i])
                &&& final(self).round == (Round {
                    next_shot_id: (old(self).round.next_shot_id + shots.len()) as u32,
                    ..old(self).round
                })
                &&& final(self).field@ == launched(
                    old(self).field@,
                    ids@,
                    shots,
                    old(self).round.next_shot_id as int,
                    shots.len() as int,
                )
            }),
            numbered(old(self).field@, old(self).round.next_shot_id) ==> numbered(
                final(self).field@,
                final(self).round.next_shot_id,
            ),
    {
        let mut ids: Vec<u64> = Vec::new();
        let ghost shots = volley(shells@, plasmas@, bullets@, missiles@);
        let ghost before = *self;
        let ghost room = self.field@.dom().len();
        proof {
            assert(shots.len() == shells@.len() + plasmas@.len() + bullets@.len()
                + missiles@.len());
        }
        let mut n: usize = 0;
        while n < shells.len()
            invariant
                n <= shells@.len(),
                ids@.len() == n,
                self.in_volley(&before, ids@, shots, room),
                shots == volley(shells@, plasmas@, bullets@, missiles@),
                shots.len() == shells@.len() + plasmas@.len() + bullets@.len() + missiles@.len(),
                room + shots.len() <= u32::MAX,
                before.round.next_shot_id + shots.len() <= u32::MAX,
            decreases shells@.len() - n,
        {
            let piece: Piece = Piece::Shot(shells[n]);
            let ghost were = *self;
            let ghost had = ids@;
            assert(shots[n as int] == piece);
            self.launch(piece, Ghost(before), &mut ids, Ghost(shots));
            proof {
                lemma_volley_step(&were, self, &before, had, ids@, shots, room);
            }
            n += 1;
        }
        let mut n: usize = 0;
        while n < plasmas.len()
            invariant
                n <= plasmas@.len(),
                ids@.len() == shells@.len() + n,
                self.in_volley(&before, ids@, shots, room),
                shots == volley(shells@, plasmas@, bullets@, missiles@),
                shots.len() == shells@.len() + plasmas@.len() + bullets@.len() + missiles@.len(),
                room + shots.len() <= u32::MAX,
                before.round.next_shot_id + shots.len() <= u32::MAX,
            decreases plasmas@.len() - n,
        {
            let piece: Piece = Piece::Shot(plasmas[n]);
            let ghost were = *self;
            let ghost had = ids@;
            assert(shots[shells@.len() + n] == piece);
            self.launch(piece, Ghost(before), &mut ids, Ghost(shots));
            proof {
                lemma_volley_step(&were, self, &before, had, ids@, shots, room);
            }
            n += 1;
        }
        let mut n: usize = 0;
        while n < bullets.len()
            invariant
                n <= bullets@.len(),
                ids@.len() == shells@.len() + plasmas@.len() + n,
                self.in_volley(&before, ids@, shots, room),
                shots == volley(shells@, plasmas@, bullets@, missiles@),
                shots.len() == shells@.len() + plasmas@.len() + bullets@.len() + missiles@.len(),
                room + shots.len() <= u32::MAX,
                before.round.next_shot_id + shots.len() <= u32::MAX,
            decreases bullets@.len() - n,
        {
            let piece: Piece = Piece::Shot(bullets[n]);
            let ghost were = *self;
            let ghost had = ids@;
            assert(shots[shells@.len() + plasmas@.len() + n] == piece);
            self.launch(piece, Ghost(before), &mut ids, Ghost(shots));
            proof {
                lemma_volley_step(&were, self, &before, had, ids@, shots, room);
            }
            n += 1;
        }
        let mut n: usize = 0;
        while n < missiles.len()
            invariant
                n <= missiles@.len(),
                ids@.len() == shells@.len() + plasmas@.len() + bullets@.len() + n,
                self.in_volley(&before, ids@, shots, room),
                shots == volley(shells@, plasmas@, bullets@, missiles@),
                shots.len() == shells@.len() + plasmas@.len() + bullets@.len() + missiles@.len(),
                room + shots.len() <= u32::MAX,
                before.round.next_shot_id + shots.len() <= u32::MAX,
            decreases missiles@.len() - n,
        {
            let piece: Piece = Piece::Missile(missiles[n]);
            let ghost were = *self;
            let ghost had = ids@;
            assert(shots[shells@.len() + plasmas@.len() + bullets@.len() + n] == piece);
            self.launch(piece, Ghost(before), &mut ids, Ghost(shots));
            proof {
                lemma_volley_step(&were, self, &before, had, ids@, shots, room);
            }
            n += 1;
        }
        ids
    }

    /// Part of a volley is in the air.
    spec fn in_volley(&self, before: &Game, ids: Seq<u64>, shots: Seq<Piece>, room: nat) -> bool {
        &&& self.wf()
        &&& self.keeps_surroundings(before)
        &&& self.events == before.events
        &&& ids.len() <= shots.len()
        &&& self.field@.dom().len() == room + ids.len()
        &&& ids.no_duplicates()
        &&& forall|i: int|
            0 <= i < ids.len() ==> self.field@.contains_key(#[trigger] ids[i])
                && !before.field@.contains_key(ids[i])
        &&& forall|id: u64| #[trigger]
            before.field@.contains_key(id) ==> self.field@.contains_key(id)
        &&& self.round == (Round { next_shot_id: self.round.next_shot_id, ..before.round })
        &&& self.round.next_shot_id == before.round.next_shot_id + ids.len()
        &&& self.field@ == launched(
            before.field@,
            ids,
            shots,
            before.round.next_shot_id as int,
            ids.len() as int,
        )
        &&& numbered(before.field@, before.round.next_shot_id) ==> numbered(
            self.field@,
            self.round.next_shot_id,
        )
    }
}

proof fn lemma_volley_step(
    were: &Game,
    now: &Game,
    before: &Game,
    had: Seq<u64>,
    ids: Seq<u64>,
    shots: Seq<Piece>,
    room: nat,
)
    requires
        were.in_volley(before, had, shots, room),
        had.len() < shots.len(),
        now.wf(),
        now.keeps_surroundings(before),
        now.events == before.events,
        ids.len() == had.len() + 1,
        now.field@.dom().len() == were.field@.dom().len() + 1,
        ids.drop_last() == had,
        !were.field@.contains_key(ids.last()),
        now.round == (Round { next_shot_id: now.round.next_shot_id, ..before.round }),
        now.round.next_shot_id == before.round.next_shot_id + ids.len(),
        now.field@ == launched(
            before.field@,
            ids,
            shots,
            before.round.next_shot_id as int,
            ids.len() as int,
        ),
        numbered(were.field@, were.round.next_shot_id) ==> numbered(
            now.field@,
            now.round.next_shot_id,
        ),
    ensures
        now.in_volley(before, ids, shots, room),
{
    let given = before.round.next_shot_id as int;
    assert forall|i: int| 0 <= i < had.len() implies had[i] == ids[i] by {
        assert(ids.drop_last()[i] == ids[i]);
    }
    lemma_launched_prefix(before.field@, had, ids, shots, given, had.len() as int);
    assert(now.field@ == were.field@.insert(
        ids[ids.len() - 1],
        with_id(shots[ids.len() - 1], (given + ids.len()) as u32),
    ));
    assert forall|i: int, j: int| 0 <= i < j < ids.len() implies ids[i] != ids[j] by {
        if j == ids.len() - 1 {
            assert(were.field@.contains_key(had[i]));
        } else {
            assert(had[i] != had[j]);
        }
    }
    assert forall|i: int| 0 <= i < ids.len() implies now.field@.contains_key(#[trigger] ids[i])
        && !before.field@.contains_key(ids[i]) by {
        if i < had.len() {
            assert(had[i] == ids[i]);
        } else if before.field@.contains_key(ids[i]) {
            assert(were.field@.contains_key(ids[i]));
        }
    }
}

/// A walk over the tanks in the fight: the seats in order, and then every
/// enemy once, in no particular order.
pub open spec fn is_walk(seats: Seq<Option<u64>>, pieces: Map<u64, Piece>, walk: Seq<u64>) -> bool {
    let players = seated(seats, 8);
    &&& players.len() <= walk.len()
    &&& walk.take(players.len() as int) == players
    &&& walk.no_duplicates()
    &&& forall|i: int|
        players.len() <= i < walk.len() ==> (thing::<Tank>(
            pieces,
            #[trigger] walk[i],
        ) matches Some(t) && t.mind is Some)
    &&& forall|id: u64|
        (#[trigger] thing::<Tank>(pieces, id)) matches Some(t) && t.mind is Some ==> walk.contains(
            id,
        )
}

/// The seats' tanks are tanks without minds, each once.
proof fn lemma_seated(seats: Seq<Option<u64>>, count: int, pieces: Map<u64, Piece>, n: int)
    requires
        0 <= n <= 8,
        seats.len() == 8,
        seats_hold(seats, count, pieces),
    ensures
        seated(seats, n).no_duplicates(),
        forall|i: int|
            0 <= i < seated(seats, n).len() ==> (thing::<Tank>(
                pieces,
                #[trigger] seated(seats, n)[i],
            ) matches Some(t) && t.mind is None && t.owner is Player && t.owner->Player_0 < n),
    decreases n,
{
    if n > 0 {
        lemma_seated(seats, count, pieces, n - 1);
        let before = seated(seats, n - 1);
        let after = seated(seats, n);
        if let Some(e) = seats[n - 1] {
            assert(after =~= before.push(e));
            let t = thing::<Tank>(pieces, e)->0;
            assert(t.owner == Owner::Player((n - 1) as u8));
            assert forall|i: int| 0 <= i < before.len() implies before[i] != e by {
                let o = thing::<Tank>(pieces, before[i])->0;
                assert(o.owner->Player_0 < n - 1);
            }
            assert forall|i: int, j: int| 0 <= i < j < after.len() implies after[i] != after[j] by {
                if j < before.len() {
                    assert(before[i] != before[j]);
                } else {
                    assert(before[i] != e);
                }
            }
            assert forall|i: int| 0 <= i < after.len() implies (thing::<Tank>(
                pieces,
                #[trigger] after[i],
            ) matches Some(t) && t.mind is None && t.owner is Player && t.owner->Player_0 < n) by {
                if i < before.len() {
                    assert(after[i] == before[i]);
                }
            }
        }
    }
}

impl Game {
    /// A walk over the tanks in the fight.
    pub fn walk_order(&self) -> (walk: Vec<u64>)
        requires
            self.wf(),
        ensures
            is_walk(self.round.seats@, self.field@, walk@),
    {
        let ghost enemy = |t: Tank| t.mind is Some;
        let test = |t: Tank| -> (b: bool)
            ensures
                b == (t.mind is Some),
        { t.mind.is_some() };
        let found = self.field.select(Ghost(enemy), test);
        let mut enemies: Vec<u64> = Vec::new();
        let mut n: usize = 0;
        while n < found.len()
            invariant
                n <= found@.len(),
                enemies@.len() == n,
                forall|i: int| 0 <= i < n ==> #[trigger] enemies@[i] == found@[i].0,
            decreases found@.len() - n,
        {
            enemies.push(found[n].0);
            n += 1;
        }
        let walk: Vec<u64> = burn_order(&self.round.seats, &enemies);
        proof {
            let players = seated(self.round.seats@, 8);
            lemma_seated(self.round.seats@, self.round.players.seated(), self.field@, 8);
            assert(walk@ == players + enemies@);
            assert(walk@.take(players.len() as int) =~= players);
            assert forall|i: int| players.len() <= i < walk@.len() implies (thing::<Tank>(
                self.field@,
                #[trigger] walk@[i],
            ) matches Some(t) && t.mind is Some) by {
                let k = i - players.len();
                assert(walk@[i] == enemies@[k]);
                assert(enemies@[k] == found@[k].0);
                assert(enemy(found@[k].1));
            }
            assert forall|i: int, j: int| 0 <= i < j < walk@.len() implies walk@[i] != walk@[j] by {
                if j < players.len() {
                    assert(players[i] != players[j]);
                } else if i < players.len() {
                    let a = thing::<Tank>(self.field@, players[i])->0;
                    let b = thing::<Tank>(self.field@, walk@[j])->0;
                    assert(a.mind is None && b.mind is Some);
                } else {
                    let x = i - players.len();
                    let y = j - players.len();
                    assert(walk@[i] == enemies@[x] && walk@[j] == enemies@[y]);
                    assert(found@[x].0 != found@[y].0);
                }
            }
            assert forall|id: u64|
                (#[trigger] thing::<Tank>(self.field@, id)) is Some && thing::<Tank>(
                    self.field@,
                    id,
                )->0.mind is Some implies walk@.contains(id) by {
                let t = thing::<Tank>(self.field@, id)->0;
                assert(enemy(t));
                let k = choose|k: int| 0 <= k < found@.len() && (#[trigger] found@[k]).0 == id;
                assert(enemies@[k] == id);
                assert(walk@[players.len() + k] == id);
            }
        }
        walk
    }
}

impl Game {
    /// Every entity of a walk is a tank on the field.
    pub(crate) proof fn lemma_walk_there(&self, walk: Seq<u64>)
        requires
            self.wf(),
            is_walk(self.round.seats@, self.field@, walk),
        ensures
            forall|k: int|
                0 <= k < walk.len() ==> thing::<Tank>(self.field@, #[trigger] walk[k]) is Some,
    {
        let players = seated(self.round.seats@, 8);
        lemma_seated(self.round.seats@, self.round.players.seated(), self.field@, 8);
        assert forall|k: int| 0 <= k < walk.len() implies thing::<Tank>(
            self.field@,
            #[trigger] walk[k],
        ) is Some by {
            if k < players.len() {
                assert(walk.take(players.len() as int)[k] == players[k]);
            }
        }
    }
}

/// What the first `n` of a walk record: each shattered shield once, with a
/// ripple where the tank stands.
pub open spec fn breaks_told(f: Record, pieces: Map<u64, Piece>, walk: Seq<u64>, n: int) -> Record
    decreases n,
{
    if n <= 0 {
        f
    } else {
        let f = breaks_told(f, pieces, walk, n - 1);
        match thing::<Tank>(pieces, walk[n - 1]) {
            Some(t) => if t.shield_broke {
                f.with_event(
                    Event::ShieldBroken { slot: t.slot(), x: t.position.x, y: t.position.y },
                ).with_shock(t.position, ShockKind::ShieldBreak)
            } else {
                f
            },
            None => f,
        }
    }
}

/// A piece nobody need announce a shield of.
pub open spec fn told(piece: Piece) -> Piece {
    match piece {
        Piece::Tank(t) => Piece::Tank(Tank { shield_broke: false, ..t }),
        _ => piece,
    }
}

/// The field once a walk's shields have been announced.
pub open spec fn all_told(pieces: Map<u64, Piece>, walk: Seq<u64>) -> Map<u64, Piece> {
    Map::new(
        |id: u64| pieces.contains_key(id),
        |id: u64|
            if walk.contains(id) {
                told(pieces[id])
            } else {
                pieces[id]
            },
    )
}

impl Game {
    /// Announce every shield that shattered this frame, one event and one
    /// ripple per tank, players in seat order before the enemies.
    pub fn drain_shield_breaks(&mut self, f: &mut Frame)
        requires
            old(self).wf(),
        ensures
            final(self).wf(),
            final(self).keeps_surroundings(old(self)),
            final(self).events == old(self).events,
            final(self).round == old(self).round,
            exists|walk: Seq<u64>| #[trigger]
                is_walk(old(self).round.seats@, old(self).field@, walk) && final(self).field@
                    == all_told(old(self).field@, walk) && final(f)@ == breaks_told(
                    old(f)@,
                    old(self).field@,
                    walk,
                    walk.len() as int,
                ),
    {
        let walk: Vec<u64> = self.walk_order();
        let ghost before = self.field@;
        let mut n: usize = 0;
        assert(self.field@ =~= all_told(before, walk@.take(0)));
        while n < walk.len()
            invariant
                n <= walk@.len(),
                walk@.no_duplicates(),
                self.field.wf(),
                self.round == old(self).round,
                self.pack == old(self).pack,
                self.keeps_surroundings(old(self)),
                self.events == old(self).events,
                self.field@ == all_told(before, walk@.take(n as int)),
                f@ == breaks_told(old(f)@, before, walk@, n as int),
            decreases walk@.len() - n,
        {
            let entity: u64 = walk[n];
            let ghost less = walk@.take(n as int);
            let ghost more = walk@.take(n + 1);
            assert(!less.contains(entity)) by {
                if less.contains(entity) {
                    let k = choose|k: int| 0 <= k < less.len() && less[k] == entity;
                    assert(walk@[k] == walk@[n as int]);
                }
            }
            assert(thing::<Tank>(self.field@, entity) == thing::<Tank>(before, entity));
            let tank: Option<Tank> = self.field.get(entity);
            if let Some(t) = tank {
                if t.shield_broke {
                    f.record(
                        Event::ShieldBroken {
                            slot: t.owner_slot(),
                            x: t.position.x,
                            y: t.position.y,
                        },
                    );
                    f.shock(t.position, ShockKind::ShieldBreak);
                    self.field.put(entity, Tank { shield_broke: false, ..t });
                }
            }
            proof {
                assert(more[n as int] == entity);
                assert forall|id: u64| more.contains(id) == (less.contains(id) || id == entity) by {
                    if less.contains(id) {
                        let k = choose|k: int| 0 <= k < less.len() && less[k] == id;
                        assert(more[k] == id);
                    }
                    if more.contains(id) {
                        let k = choose|k: int| 0 <= k < more.len() && more[k] == id;
                        if k < n {
                            assert(less[k] == id);
                        }
                    }
                    if id == entity {
                        assert(more.contains(entity));
                    }
                }
                assert(self.field@ =~= all_told(before, more));
            }
            n += 1;
        }
        proof {
            assert(walk@.take(n as int) =~= walk@);
            let seats = self.round.seats@;
            assert forall|i: int| #![trigger seats[i]] 0 <= i < MAX_SEATS implies (
            seats[i] matches Some(e) ==> i < self.round.players.seated() && (thing::<Tank>(
                self.field@,
                e,
            ) matches Some(t) && t.owner == Owner::Player(i as u8) && t.mind is None)) by {
                assert(seats[i] == old(self).round.seats@[i]);
            }
            assert(is_walk(old(self).round.seats@, before, walk@));
        }
    }
}

/// Once the breaks have been told nobody in the fight has one left to tell.
pub proof fn a_break_is_told_once(
    seats: Seq<Option<u64>>,
    pieces: Map<u64, Piece>,
    walk: Seq<u64>,
    id: u64,
)
    requires
        is_walk(seats, pieces, walk),
        thing::<Tank>(pieces, id) matches Some(t) && (t.mind is Some || seated(seats, 8).contains(id)),
    ensures
        thing::<Tank>(all_told(pieces, walk), id) matches Some(t) && !t.shield_broke,
{
    if seated(seats, 8).contains(id) {
        let players = seated(seats, 8);
        let k = choose|k: int| 0 <= k < players.len() && players[k] == id;
        assert(walk.take(players.len() as int)[k] == walk[k]);
    }
    assert(walk.contains(id));
}

/// A shield on the tank throws a shot back, and the shot becomes that tank's.
pub open spec fn deflector(pieces: Map<u64, Piece>, entity: u64) -> Option<(Point, Owner)> {
    match thing::<Tank>(pieces, entity) {
        Some(t) => if t.deflects() {
            Some((t.position, t.owner))
        } else {
            None
        },
        None => None,
    }
}

impl Game {
    /// Whose shield a shot that strikes a tank bounces off, and around where.
    pub fn shield_deflector(&self, entity: u64) -> (r: Option<(Point, Owner)>)
        ensures
            r == deflector(self.field@, entity),
    {
        let tank: Option<Tank> = self.field.get(entity);
        match tank {
            Some(t) => if t.shield.positive() && !t.wreck {
                Some((t.position, t.owner))
            } else {
                None
            },
            None => None,
        }
    }
}

/// A tank's motion as the pack's avoidance sees it.
#[derive(Clone, Copy, Debug, PartialEq, Eq, Structural)]
pub struct Mover {
    pub entity: u64,
    pub position: Point,
    /// What it was told to drive at; a wreck stands still.
    pub velocity: Point,
    pub is_player: bool,
}

/// How one tank moves.
pub open spec fn mover_of(pieces: Map<u64, Piece>, entity: u64) -> Mover {
    let t = thing::<Tank>(pieces, entity)->0;
    Mover {
        entity,
        position: t.position,
        velocity: if t.wreck {
            Point { x: Scalar::zero(), y: Scalar::zero() }
        } else {
            t.commanded
        },
        is_player: t.owner.is_seat(),
    }
}

impl Game {
    /// Every tank's motion, the players first in seat order. A wreck is there
    /// too, standing still, so others steer around it.
    pub fn motion_snapshot(&self) -> (movers: Vec<Mover>)
        requires
            self.wf(),
        ensures
            exists|walk: Seq<u64>| #[trigger]
                is_walk(self.round.seats@, self.field@, walk) && movers@ == walk.map_values(
                    |e: u64| mover_of(self.field@, e),
                ),
    {
        let walk: Vec<u64> = self.walk_order();
        let mut movers: Vec<Mover> = Vec::new();
        let mut n: usize = 0;
        proof {
            lemma_seated(self.round.seats@, self.round.players.seated(), self.field@, 8);
        }
        let ghost players = seated(self.round.seats@, 8);
        while n < walk.len()
            invariant
                n <= walk@.len(),
                players == seated(self.round.seats@, 8),
                is_walk(self.round.seats@, self.field@, walk@),
                forall|i: int|
                    0 <= i < players.len() ==> (thing::<Tank>(
                        self.field@,
                        #[trigger] players[i],
                    ) is Some),
                movers@.len() == n,
                forall|i: int|
                    0 <= i < n ==> #[trigger] movers@[i] == mover_of(self.field@, walk@[i]),
            decreases walk@.len() - n,
        {
            let entity: u64 = walk[n];
            assert(thing::<Tank>(self.field@, entity) is Some) by {
                if n < players.len() {
                    assert(walk@.take(players.len() as int)[n as int] == players[n as int]);
                }
            }
            let tank: Option<Tank> = self.field.get(entity);
            if let Some(t) = tank {
                let zero: Scalar = Scalar::zero();
                movers.push(
                    Mover {
                        entity,
                        position: t.position,
                        velocity: if t.wreck {
                            Point { x: zero, y: zero }
                        } else {
                            t.commanded
                        },
                        is_player: t.owner.is_player(),
                    },
                );
            }
            n += 1;
        }
        assert(movers@ =~= walk@.map_values(|e: u64| mover_of(self.field@, e)));
        movers
    }
}

/// What a seat's fire key does, by weapon. A flamethrower streams while the key
/// is down. A laser, a minigun and missiles fire while it is down and the gun has
/// cooled; a shell and plasma only on a fresh press. A wreck fires nothing.
pub proof fn a_trigger_by_weapon(tank: Tank, fire: bool, held: bool)
    ensures
        ({
            let pull = pulled(tank, fire, held);
            let cool = tank.fire_cooldown.at_most(Scalar::zero());
            let fires = !tank.wreck && fire && match tank.weapon {
                ActiveWeapon::Flamethrower => true,
                ActiveWeapon::Laser | ActiveWeapon::Minigun | ActiveWeapon::Missiles => cool,
                ActiveWeapon::Shell | ActiveWeapon::Plasma => cool && !held,
            };
            &&& pull.shot == (if fires {
                Some(tank.weapon)
            } else {
                None
            })
            &&& tank.wreck ==> pull.tank == tank && pull.held == held
            &&& !tank.wreck ==> pull.held == fire
            &&& pull.tank == (Tank { flame_held: pull.tank.flame_held, ..tank })
            &&& tank.weapon is Flamethrower && !tank.wreck && !fire ==> !pull.tank.flame_held
            &&& tank.weapon is Flamethrower && fires ==> pull.tank.flame_held == tank.flame_held
        }),
{
}

/// A seat on the field has its turn by its own key, and one that is not has
/// none.
pub proof fn each_seat_has_its_own_trigger(
    at: Triggers,
    seats: Seq<Option<u64>>,
    intents: Seq<Intent>,
    n: int,
)
    requires
        0 < n <= seats.len(),
        n <= intents.len(),
    ensures
        ({
            let before = players_driven(at, seats, intents, n - 1);
            let after = players_driven(at, seats, intents, n);
            &&& after.shots.len() == before.shots.len() + 1
            &&& seats[n - 1] is None ==> after.shots.last() is None && after.pieces
                == before.pieces && after.held == before.held
            &&& (seats[n - 1] matches Some(e) && at.pieces.contains_key(e) && at.pieces[e] is Tank
                && at.pieces[e]->Tank_0.rolling_in) ==> after.shots.last() is None && after.pieces
                == before.pieces && after.held == before.held
            &&& (seats[n - 1] matches Some(e) && at.pieces.contains_key(e) && at.pieces[e] is Tank
                && !at.pieces[e]->Tank_0.rolling_in && before.pieces.contains_key(e)
                && before.pieces[e] is Tank) ==> {
                let e = seats[n - 1]->0;
                let pull = pulled(
                    before.pieces[e]->Tank_0,
                    intents[n - 1].fire,
                    before.held[n - 1],
                );
                &&& after.shots.last() == pull.shot
                &&& after.pieces == before.pieces.insert(e, Piece::Tank(pull.tank))
                &&& after.held == before.held.update(n - 1, pull.held)
            }
        }),
{
    if let Some(e) = seats[n - 1] {
        if at.pieces.contains_key(e) && at.pieces[e] is Tank {
            assert(thing::<Tank>(at.pieces, e) == Some(at.pieces[e]->Tank_0));
        }
    }
}

/// A volley holds everything that was fired, shells first, then plasma, bullets
/// and missiles.
pub proof fn a_volley_launches_everything(
    shells: Seq<Shot>,
    plasmas: Seq<Shot>,
    bullets: Seq<Shot>,
    missiles: Seq<Missile>,
)
    ensures
        ({
            let all = volley(shells, plasmas, bullets, missiles);
            let (a, b, c) = (
                shells.len(),
                shells.len() + plasmas.len(),
                shells.len() + plasmas.len() + bullets.len(),
            );
            &&& all.len() == c + missiles.len()
            &&& forall|i: int| 0 <= i < shells.len() ==> #[trigger] all[i] == Piece::Shot(shells[i])
            &&& forall|i: int|
                0 <= i < plasmas.len() ==> all[a + i] == Piece::Shot(#[trigger] plasmas[i])
            &&& forall|i: int|
                0 <= i < bullets.len() ==> all[b + i] == Piece::Shot(#[trigger] bullets[i])
            &&& forall|i: int|
                0 <= i < missiles.len() ==> all[c + i] == Piece::Missile(#[trigger] missiles[i])
        }),
{
}

/// Each of a volley is on the field under its own entity, as it was fired, and
/// with the next number of the round.
pub proof fn each_of_a_volley_has_the_next_number(
    pieces: Map<u64, Piece>,
    ids: Seq<u64>,
    shots: Seq<Piece>,
    given: int,
    n: int,
    k: int,
)
    requires
        0 <= k < n <= ids.len() == shots.len(),
        ids.no_duplicates(),
        0 <= given,
        given + n <= u32::MAX,
    ensures
        ({
            let after = launched(pieces, ids, shots, given, n);
            &&& after.contains_key(ids[k])
            &&& shots[k] matches Piece::Shot(s) ==> after[ids[k]] is Shot
                && after[ids[k]]->Shot_0.id == given + k + 1 && after[ids[k]] == Piece::Shot(
                Shot { id: after[ids[k]]->Shot_0.id, ..s },
            )
            &&& shots[k] matches Piece::Missile(m) ==> after[ids[k]] is Missile
                && after[ids[k]]->Missile_0.id == given + k + 1 && after[ids[k]] == Piece::Missile(
                Missile { id: after[ids[k]]->Missile_0.id, ..m },
            )
        }),
    decreases n,
{
    if k < n - 1 {
        each_of_a_volley_has_the_next_number(pieces, ids, shots, given, n - 1, k);
        assert(ids[k] != ids[n - 1]);
    }
}

/// A shattered shield is told once, with a ripple where its tank stands; nobody
/// else's is.
pub proof fn each_shattered_shield_is_told(
    f: Record,
    pieces: Map<u64, Piece>,
    walk: Seq<u64>,
    n: int,
)
    requires
        0 < n <= walk.len(),
        pieces.contains_key(walk[n - 1]),
        pieces[walk[n - 1]] is Tank,
    ensures
        ({
            let t = pieces[walk[n - 1]]->Tank_0;
            let before = breaks_told(f, pieces, walk, n - 1);
            let after = breaks_told(f, pieces, walk, n);
            &&& !t.shield_broke ==> after == before
            &&& t.shield_broke ==> {
                &&& after.events == before.events.push(
                    Event::ShieldBroken { slot: t.slot(), x: t.position.x, y: t.position.y },
                )
                &&& after.shocks.len() == before.shocks.len() + 1
                &&& after.shocks.last().at == t.position && after.shocks.last().kind is ShieldBreak
            }
        }),
{
    assert(thing::<Tank>(pieces, walk[n - 1]) == Some(pieces[walk[n - 1]]->Tank_0));
}

/// A running tank with charge in its shield throws a shot back under its own
/// name; a wreck, and a tank without charge, does not.
pub proof fn a_charged_shield_throws_back(pieces: Map<u64, Piece>, entity: u64)
    requires
        pieces.contains_key(entity),
        pieces[entity] is Tank,
    ensures
        ({
            let t = pieces[entity]->Tank_0;
            &&& !t.wreck && Scalar::zero().below(t.shield) ==> deflector(pieces, entity) == Some(
                (t.position, t.owner),
            )
            &&& t.wreck || !Scalar::zero().below(t.shield) ==> deflector(pieces, entity) is None
        }),
{
    assert(thing::<Tank>(pieces, entity) == Some(pieces[entity]->Tank_0));
}

/// A wreck stands still to the others; any other tank moves as it was told to.
pub proof fn a_wreck_stands_still(pieces: Map<u64, Piece>, entity: u64)
    requires
        pieces.contains_key(entity),
        pieces[entity] is Tank,
    ensures
        ({
            let t = pieces[entity]->Tank_0;
            let m = mover_of(pieces, entity);
            &&& m.entity == entity && m.position == t.position
            &&& m.is_player <==> t.owner is Player
            &&& !t.wreck ==> m.velocity == t.commanded
            &&& t.wreck ==> m.velocity.x.bits == 0 && m.velocity.y.bits == 0
        }),
{
    assert(thing::<Tank>(pieces, entity) == Some(pieces[entity]->Tank_0));
}

/// Everybody in the fight is on a walk over it: each seat's tank and each enemy,
/// once, the seats first.
pub proof fn a_walk_visits_everybody(
    seats: Seq<Option<u64>>,
    pieces: Map<u64, Piece>,
    walk: Seq<u64>,
    id: u64,
)
    requires
        is_walk(seats, pieces, walk),
        seats.len() == 8,
    ensures
        (exists|s: int| 0 <= s < 8 && #[trigger] seats[s] == Some(id)) ==> walk.contains(id),
        pieces.contains_key(id) && pieces[id] is Tank && pieces[id]->Tank_0.mind is Some
            ==> walk.contains(id),
        walk.no_duplicates(),
{
    if exists|s: int| 0 <= s < 8 && #[trigger] seats[s] == Some(id) {
        let s = choose|s: int| 0 <= s < 8 && #[trigger] seats[s] == Some(id);
        crate::flame::a_seated_tank_is_listed(seats, 8, s);
        let players = seated(seats, 8);
        let p = choose|p: int| 0 <= p < players.len() && players[p] == id;
        assert(walk.take(players.len() as int)[p] == id);
        assert(walk[p] == id);
    }
    if pieces.contains_key(id) && pieces[id] is Tank {
        assert(thing::<Tank>(pieces, id) == Some(pieces[id]->Tank_0));
    }
}

} // verus!
