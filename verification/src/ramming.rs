//! Tanks after the physics has moved them: the ones in contact ram.
//!
//! The host knows who touches whom and what a ram takes off; which contacts
//! count and in what order they are resolved is decided here.

use vstd::prelude::*;

use crate::combat::{
    may_ram, pair_contacts, player_contacts, ram_enemy_pairs, seat_rams, Contact, EnemyAt, Rammed,
    SeatAt,
};
use crate::field::{lists, selects, thing, Kind};
use crate::frame::{Frame, Scene};
use crate::game::{keeps_identities, lemma_identities, on_field, Game};
use crate::kinds::MAX_SEATS;
use crate::pieces::{Piece, Tank};
use crate::ranking::ranked;
use crate::scalar::{Point, Scalar};
use crate::seeking::{ram_told, rams_well};
use crate::travel::fights;

verus! {

/// What one contact came to. Between two players the `ally` strike counts. A
/// contact with nobody, or with itself, comes to nothing.
pub open spec fn contact_done<
    S: Fn(Tank, Tank) -> (Scalar, Tank, Tank),
    A: Fn(Tank, Tank) -> (Scalar, Tank, Tank),
>(
    strike: S,
    ally: A,
    cooldown: Scalar,
    pairs: bool,
    c: Contact,
    before: Scene,
    after: Scene,
    r: Option<Rammed>,
) -> bool {
    match (thing::<Tank>(before.pieces, c.a), thing::<Tank>(before.pieces, c.b)) {
        (Some(ta), Some(tb)) => if c.a != c.b && may_ram(ta, tb) {
            exists|damage: Scalar, x: Tank, y: Tank|
                {
                    &&& #[trigger] exchanged(strike, ally, c.friendly, ta, tb, damage, x, y)
                    &&& r == Some(
                        Rammed {
                            damage,
                            a: Tank { ram_cooldown: cooldown, ..x },
                            b: Tank { ram_cooldown: cooldown, ..y },
                        },
                    )
                    &&& after.pieces == before.pieces.insert(
                        c.a,
                        Tank { ram_cooldown: cooldown, ..x }.as_piece(),
                    ).insert(c.b, Tank { ram_cooldown: cooldown, ..y }.as_piece())
                    &&& after.record == ram_told(
                        before.record,
                        ta,
                        tb,
                        x,
                        y,
                        damage,
                        pairs || c.friendly,
                    )
                }
        } else {
            r is None && after == before
        },
        _ => r is None && after == before,
    }
}

/// What two tanks did to each other, friends more gently.
pub open spec fn exchanged<
    S: Fn(Tank, Tank) -> (Scalar, Tank, Tank),
    A: Fn(Tank, Tank) -> (Scalar, Tank, Tank),
>(
    strike: S,
    ally: A,
    friendly: bool,
    a: Tank,
    b: Tank,
    damage: Scalar,
    x: Tank,
    y: Tank,
) -> bool {
    if friendly {
        call_ensures(ally, (a, b), (damage, x, y))
    } else {
        call_ensures(strike, (a, b), (damage, x, y))
    }
}

/// The contacts were resolved in turn, by way of how things stood after each.
pub open spec fn contacts_done<
    S: Fn(Tank, Tank) -> (Scalar, Tank, Tank),
    A: Fn(Tank, Tank) -> (Scalar, Tank, Tank),
>(
    strike: S,
    ally: A,
    cooldown: Scalar,
    pairs: bool,
    contacts: Seq<Contact>,
    stages: Seq<Scene>,
    rams: Seq<Option<Rammed>>,
    n: int,
) -> bool {
    &&& stages.len() == n + 1
    &&& rams.len() == n
    &&& forall|k: int|
        0 <= k < n ==> contact_done(
            strike,
            ally,
            cooldown,
            pairs,
            #[trigger] contacts[k],
            stages[k],
            stages[k + 1],
            rams[k],
        )
}

/// A wreck neither deals nor takes ram damage, and a contact with one draws
/// nothing and says nothing.
pub proof fn a_wreck_rams_nobody<
    S: Fn(Tank, Tank) -> (Scalar, Tank, Tank),
    A: Fn(Tank, Tank) -> (Scalar, Tank, Tank),
>(
    strike: S,
    ally: A,
    cooldown: Scalar,
    pairs: bool,
    c: Contact,
    before: Scene,
    after: Scene,
    r: Option<Rammed>,
)
    requires
        contact_done(strike, ally, cooldown, pairs, c, before, after, r),
        (thing::<Tank>(before.pieces, c.a) matches Some(t) && t.wreck) || (thing::<Tank>(
            before.pieces,
            c.b,
        ) matches Some(t) && t.wreck),
    ensures
        r is None,
        after == before,
{
}

impl Game {
    /// Resolve ram contacts in turn. A tank wrecked by one of them, or cooling
    /// down after it, takes no part in the next. With `pairs` set the record
    /// names the first tank of a contact first, else the player an enemy ran
    /// into. Returns what came of each.
    pub fn resolve_contacts<
        S: Fn(Tank, Tank) -> (Scalar, Tank, Tank),
        A: Fn(Tank, Tank) -> (Scalar, Tank, Tank),
    >(
        &mut self,
        f: &mut Frame,
        contacts: &Vec<Contact>,
        cooldown: Scalar,
        pairs: bool,
        strike: &S,
        ally: &A,
    ) -> (rams: Vec<Option<Rammed>>)
        requires
            old(self).wf(),
            rams_well(*strike),
            rams_well(*ally),
        ensures
            final(self).wf(),
            exists|stages: Seq<Scene>|
                {
                    &&& #[trigger] contacts_done(
                        *strike,
                        *ally,
                        cooldown,
                        pairs,
                        contacts@,
                        stages,
                        rams@,
                        contacts@.len() as int,
                    )
                    &&& stages[0] == (Scene { pieces: old(self).field@, record: old(f)@ })
                    &&& stages[contacts@.len() as int] == (Scene {
                        pieces: final(self).field@,
                        record: final(f)@,
                    })
                },
            final(self).round == old(self).round,
            final(self).keeps_surroundings(old(self)),
            final(self).events == old(self).events,
    {
        let ghost mut stages: Seq<Scene> = seq![Scene { pieces: self.field@, record: f@ }];
        let mut rams: Vec<Option<Rammed>> = Vec::new();
        let mut n: usize = 0;
        while n < contacts.len()
            invariant
                n <= contacts@.len(),
                rams_well(*strike),
                rams_well(*ally),
                self.wf(),
                self.round == old(self).round,
                self.keeps_surroundings(old(self)),
                self.events == old(self).events,
                contacts_done(
                    *strike,
                    *ally,
                    cooldown,
                    pairs,
                    contacts@,
                    stages,
                    rams@,
                    n as int,
                ),
                stages[0] == (Scene { pieces: old(self).field@, record: old(f)@ }),
                stages[n as int] == (Scene { pieces: self.field@, record: f@ }),
            decreases contacts@.len() - n,
        {
            let c: Contact = contacts[n];
            let ghost were = (stages, rams@);
            let ghost before = Scene { pieces: self.field@, record: f@ };
            let a: Option<Tank> = self.field.get(c.a);
            let b: Option<Tank> = self.field.get(c.b);
            let mut r: Option<Rammed> = None;
            if a.is_some() && b.is_some() && c.a != c.b {
                if c.friendly {
                    r = self.ram_pair(f, c.a, c.b, cooldown, true, ally);
                    proof {
                        if r is Some {
                            let (d, x, y) = choose|d: Scalar, x: Tank, y: Tank|
                                {
                                    &&& #[trigger] call_ensures(*ally, (a->0, b->0), (d, x, y))
                                    &&& r == Some(
                                        Rammed {
                                            damage: d,
                                            a: Tank { ram_cooldown: cooldown, ..x },
                                            b: Tank { ram_cooldown: cooldown, ..y },
                                        },
                                    )
                                    &&& self.field@ == before.pieces.insert(
                                        c.a,
                                        Tank { ram_cooldown: cooldown, ..x }.as_piece(),
                                    ).insert(
                                        c.b,
                                        Tank { ram_cooldown: cooldown, ..y }.as_piece(),
                                    )
                                    &&& f@ == ram_told(before.record, a->0, b->0, x, y, d, true)
                                };
                            assert(exchanged(*strike, *ally, true, a->0, b->0, d, x, y));
                        }
                    }
                } else {
                    r = self.ram_pair(f, c.a, c.b, cooldown, pairs, strike);
                    proof {
                        if r is Some {
                            let (d, x, y) = choose|d: Scalar, x: Tank, y: Tank|
                                {
                                    &&& #[trigger] call_ensures(*strike, (a->0, b->0), (d, x, y))
                                    &&& r == Some(
                                        Rammed {
                                            damage: d,
                                            a: Tank { ram_cooldown: cooldown, ..x },
                                            b: Tank { ram_cooldown: cooldown, ..y },
                                        },
                                    )
                                    &&& self.field@ == before.pieces.insert(
                                        c.a,
                                        Tank { ram_cooldown: cooldown, ..x }.as_piece(),
                                    ).insert(
                                        c.b,
                                        Tank { ram_cooldown: cooldown, ..y }.as_piece(),
                                    )
                                    &&& f@ == ram_told(before.record, a->0, b->0, x, y, d, pairs)
                                };
                            assert(exchanged(*strike, *ally, false, a->0, b->0, d, x, y));
                        }
                    }
                }
            }
            rams.push(r);
            proof {
                let now = Scene { pieces: self.field@, record: f@ };
                stages = stages.push(now);
                assert(contact_done(*strike, *ally, cooldown, pairs, c, before, now, r));
                assert forall|k: int| 0 <= k < n + 1 implies contact_done(
                    *strike,
                    *ally,
                    cooldown,
                    pairs,
                    #[trigger] contacts@[k],
                    stages[k],
                    stages[k + 1],
                    rams@[k],
                ) by {
                    if k < n {
                        assert(stages[k] == were.0[k]);
                        assert(stages[k + 1] == were.0[k + 1]);
                        assert(rams@[k] == were.1[k]);
                    }
                }
            }
            n += 1;
        }
        rams
    }
}

/// The physics moves a tank: where it is, how fast its body goes and what its
/// hull touches are read back, and nothing else of it changes, what it was
/// told to do among the rest.
pub open spec fn syncs_well<Y: Fn(u64, Tank) -> Tank>(sync: Y) -> bool {
    &&& forall|e: u64, t: Tank| call_requires(sync, (e, t))
    &&& forall|e: u64, t: Tank, after: Tank| #[trigger]
        call_ensures(sync, (e, t), after) ==> after == (Tank {
            position: after.position,
            velocity: after.velocity,
            contact: after.contact,
            ..t
        })
}

/// What the physics made of the first `n` tanks.
pub open spec fn syncs_read<Y: Fn(u64, Tank) -> Tank>(
    sync: Y,
    all: Seq<(u64, Tank)>,
    outs: Seq<Tank>,
    n: int,
) -> bool {
    outs.len() == n && forall|k: int|
        0 <= k < n ==> call_ensures(sync, ((#[trigger] all[k]).0, all[k].1), outs[k])
}

/// The field once the first `n` tanks are where the physics put them.
pub open spec fn synced(
    pieces: Map<u64, Piece>,
    all: Seq<(u64, Tank)>,
    outs: Seq<Tank>,
    n: int,
) -> Map<u64, Piece>
    decreases n,
{
    if n <= 0 {
        pieces
    } else {
        synced(pieces, all, outs, n - 1).insert(all[n - 1].0, outs[n - 1].as_piece())
    }
}

/// Every tank is where the physics put it.
pub open spec fn all_synced<Y: Fn(u64, Tank) -> Tank>(
    sync: Y,
    before: Map<u64, Piece>,
    after: Map<u64, Piece>,
) -> bool {
    exists|all: Seq<(u64, Tank)>, outs: Seq<Tank>|
        {
            &&& lists::<Tank>(before, all)
            &&& #[trigger] syncs_read(sync, all, outs, all.len() as int)
            &&& after == synced(before, all, outs, all.len() as int)
        }
}

proof fn lemma_synced_same(
    pieces: Map<u64, Piece>,
    all: Seq<(u64, Tank)>,
    a: Seq<Tank>,
    b: Seq<Tank>,
    n: int,
)
    requires
        0 <= n <= a.len(),
        n <= b.len(),
        forall|i: int| 0 <= i < n ==> a[i] == b[i],
    ensures
        synced(pieces, all, a, n) == synced(pieces, all, b, n),
    decreases n,
{
    if n > 0 {
        lemma_synced_same(pieces, all, a, b, n - 1);
    }
}

/// Those of the first `n` seats whose tank stands on the battlefield.
pub open spec fn present(seats: Seq<Option<u64>>, pieces: Map<u64, Piece>, n: int) -> Seq<u64>
    decreases n,
{
    if n <= 0 {
        Seq::empty()
    } else {
        match on_field(seats[n - 1], pieces) {
            Some(e) => present(seats, pieces, n - 1).push(e),
            None => present(seats, pieces, n - 1),
        }
    }
}

/// Who touches whom, as the physics has it.
pub open spec fn touch_table<T: Fn(u64, u64) -> bool>(
    touching: T,
    rows: Seq<u64>,
    columns: Seq<u64>,
    table: Seq<Vec<bool>>,
) -> bool {
    table.len() == rows.len() && forall|i: int|
        0 <= i < rows.len() ==> touch_row(touching, rows[i], columns, (#[trigger] table[i])@)
}

/// Whom one tank touches.
pub open spec fn touch_row<T: Fn(u64, u64) -> bool>(
    touching: T,
    id: u64,
    columns: Seq<u64>,
    row: Seq<bool>,
) -> bool {
    row.len() == columns.len() && forall|j: int|
        0 <= j < columns.len() ==> call_ensures(touching, (id, columns[j]), #[trigger] row[j])
}

fn touches<T: Fn(u64, u64) -> bool>(touching: &T, rows: &Vec<u64>, columns: &Vec<u64>) -> (table:
    Vec<Vec<bool>>)
    requires
        forall|a: u64, b: u64| call_requires(*touching, (a, b)),
    ensures
        touch_table(*touching, rows@, columns@, table@),
{
    let mut table: Vec<Vec<bool>> = Vec::new();
    let mut i: usize = 0;
    while i < rows.len()
        invariant
            i <= rows@.len(),
            table@.len() == i,
            forall|a: u64, b: u64| call_requires(*touching, (a, b)),
            forall|k: int|
                0 <= k < i ==> touch_row(*touching, rows@[k], columns@, (#[trigger] table@[k])@),
        decreases rows@.len() - i,
    {
        let mut row: Vec<bool> = Vec::new();
        let mut j: usize = 0;
        while j < columns.len()
            invariant
                i < rows@.len(),
                j <= columns@.len(),
                row@.len() == j,
                forall|a: u64, b: u64| call_requires(*touching, (a, b)),
                forall|k: int|
                    0 <= k < j ==> call_ensures(
                        *touching,
                        (rows@[i as int], columns@[k]),
                        #[trigger] row@[k],
                    ),
            decreases columns@.len() - j,
        {
            row.push(touching(rows[i], columns[j]));
            j += 1;
        }
        table.push(row);
        i += 1;
    }
    table
}

/// The seats as the ram pass sees them, given what the grass hides.
pub open spec fn seats_at<H: Fn(Point) -> bool>(
    hides: H,
    pieces: Map<u64, Piece>,
    ids: Seq<u64>,
    seats: Seq<SeatAt>,
) -> bool {
    seats.len() == ids.len() && forall|i: int|
        0 <= i < ids.len() ==> (#[trigger] seats[i]).entity == ids[i] && call_ensures(
            hides,
            (thing::<Tank>(pieces, ids[i])->0.position,),
            seats[i].concealed,
        )
}

/// The entities of a list.
pub open spec fn ids_of(all: Seq<(u64, Tank)>) -> Seq<u64> {
    Seq::new(all.len(), |k: int| all[k].0)
}

/// The enemies of a list as the ram pass sees them.
pub open spec fn enemies_at(all: Seq<(u64, Tank)>) -> Seq<EnemyAt> {
    Seq::new(
        all.len(),
        |k: int|
            EnemyAt { entity: all[k].0, slot: all[k].1.owner.round_slot(), index: k as usize },
    )
}

/// What a frame's contacts rest on.
#[verifier::ext_equal]
pub struct Touching {
    /// The field once every tank is where the physics put it.
    pub pieces: Map<u64, Piece>,
    pub seats: Seq<SeatAt>,
    pub enemies: Seq<(u64, Tank)>,
    /// Which enemy touches which seat, and which touches which.
    pub with_seats: Seq<Vec<bool>>,
    pub with_each_other: Seq<Vec<bool>>,
    /// The two players of a two-player round touch.
    pub both: bool,
}

/// The contacts rest on what the physics and the grass say.
pub open spec fn touching_read<
    Y: Fn(u64, Tank) -> Tank,
    T: Fn(u64, u64) -> bool,
    H: Fn(Point) -> bool,
>(
    sync: Y,
    touching: T,
    hides: H,
    seats: Seq<Option<u64>>,
    before: Map<u64, Piece>,
    t: Touching,
) -> bool {
    let ids = present(seats, before, MAX_SEATS as int);
    &&& all_synced(sync, before, t.pieces)
    &&& seats_at(hides, t.pieces, ids, t.seats)
    &&& selects::<Tank>(t.pieces, fights(), t.enemies)
    &&& touch_table(touching, ids_of(t.enemies), ids, t.with_seats)
    &&& touch_table(touching, ids_of(t.enemies), ids_of(t.enemies), t.with_each_other)
    &&& if ids.len() == 2 {
        call_ensures(touching, (ids[0], ids[1]), t.both)
    } else {
        !t.both
    }
}

/// The contacts with the players were resolved, and after them those of the
/// enemies with each other, by round slot.
pub open spec fn rams_frame<
    S: Fn(Tank, Tank) -> (Scalar, Tank, Tank),
    A: Fn(Tank, Tank) -> (Scalar, Tank, Tank),
>(
    strike: S,
    ally: A,
    cooldown: Scalar,
    t: Touching,
    at: Scene,
    first: Seq<Scene>,
    second: Seq<Scene>,
    rams: (Seq<Option<Rammed>>, Seq<Option<Rammed>>),
    after: Scene,
) -> bool {
    let mine = seat_rams(ids_of(t.enemies), t.seats, t.with_seats, t.both);
    let theirs = pair_contacts(
        ranked(enemies_at(t.enemies)),
        t.with_each_other,
        t.enemies.len() as int,
    );
    &&& contacts_done(strike, ally, cooldown, false, mine, first, rams.0, mine.len() as int)
    &&& first[0] == (Scene { pieces: t.pieces, record: at.record })
    &&& contacts_done(strike, ally, cooldown, true, theirs, second, rams.1, theirs.len() as int)
    &&& second[0] == first[mine.len() as int]
    &&& second[theirs.len() as int] == after
}

impl Game {
    /// Put every tank where the physics has it.
    pub fn sync_tanks<Y: Fn(u64, Tank) -> Tank>(&mut self, sync: &Y)
        requires
            old(self).wf(),
            syncs_well(*sync),
        ensures
            final(self).wf(),
            all_synced(*sync, old(self).field@, final(self).field@),
            keeps_identities(old(self).field@, final(self).field@),
            final(self).round == old(self).round,
            final(self).keeps_surroundings(old(self)),
            final(self).events == old(self).events,
    {
        let ghost start = self.field@;
        let ghost mut outs: Seq<Tank> = Seq::empty();
        let all: Vec<(u64, Tank)> = self.field.all();
        let mut n: usize = 0;
        while n < all.len()
            invariant
                n <= all@.len(),
                start == old(self).field@,
                lists::<Tank>(start, all@),
                syncs_well(*sync),
                self.field.wf(),
                self.round == old(self).round,
                self.keeps_surroundings(old(self)),
                self.events == old(self).events,
                self.field@.dom() == start.dom(),
                keeps_identities(start, self.field@),
                syncs_read(*sync, all@, outs, n as int),
                self.field@ == synced(start, all@, outs, n as int),
            decreases all@.len() - n,
        {
            let (id, t) = all[n];
            let ghost were = outs;
            assert(thing::<Tank>(start, all@[n as int].0) == Some(t));
            assert(start.contains_key(id));
            let after: Tank = sync(id, t);
            self.field.put(id, after);
            proof {
                outs = outs.push(after);
                lemma_synced_same(start, all@, were, outs, n as int);
                assert(self.field@.dom() =~= start.dom());
            }
            n += 1;
        }
        proof {
            lemma_identities(self.round, start, self.field@);
        }
    }

    /// Put every tank where the physics has it and resolve the contacts: every
    /// enemy against every player it touches and has not lost in the grass,
    /// the two players of a two-player round against each other, and last the
    /// enemies against each other. Returns what came of the first lot and of
    /// the second.
    pub fn sync_tanks_and_ram<
        Y: Fn(u64, Tank) -> Tank,
        T: Fn(u64, u64) -> bool,
        H: Fn(Point) -> bool,
        S: Fn(Tank, Tank) -> (Scalar, Tank, Tank),
        A: Fn(Tank, Tank) -> (Scalar, Tank, Tank),
    >(
        &mut self,
        f: &mut Frame,
        cooldown: Scalar,
        sync: &Y,
        touching: &T,
        hides: &H,
        strike: &S,
        ally: &A,
    ) -> (rams: (Vec<Option<Rammed>>, Vec<Option<Rammed>>))
        requires
            old(self).wf(),
            syncs_well(*sync),
            forall|a: u64, b: u64| call_requires(*touching, (a, b)),
            forall|p: Point| call_requires(*hides, (p,)),
            rams_well(*strike),
            rams_well(*ally),
        ensures
            final(self).wf(),
            exists|t: Touching, first: Seq<Scene>, second: Seq<Scene>|
                {
                    &&& #[trigger] touching_read(
                        *sync,
                        *touching,
                        *hides,
                        old(self).round.seats@,
                        old(self).field@,
                        t,
                    )
                    &&& #[trigger] rams_frame(
                        *strike,
                        *ally,
                        cooldown,
                        t,
                        Scene { pieces: old(self).field@, record: old(f)@ },
                        first,
                        second,
                        (rams.0@, rams.1@),
                        Scene { pieces: final(self).field@, record: final(f)@ },
                    )
                },
            final(self).round == old(self).round,
            final(self).keeps_surroundings(old(self)),
            final(self).events == old(self).events,
    {
        let ghost start = self.field@;
        let seats: [Option<u64>; 8] = self.seats_on_field();
        let mut ids: Vec<u64> = Vec::new();
        let mut n: usize = 0;
        while n < MAX_SEATS
            invariant
                n <= MAX_SEATS,
                start == self.field@,
                self.wf(),
                forall|i: int|
                    0 <= i < MAX_SEATS ==> #[trigger] seats@[i] == on_field(
                        self.round.seats@[i],
                        self.field@,
                    ),
                ids@ == present(self.round.seats@, start, n as int),
                forall|i: int|
                    0 <= i < ids@.len() ==> thing::<Tank>(start, #[trigger] ids@[i]) is Some,
            decreases MAX_SEATS - n,
        {
            assert(seats@[n as int] == on_field(self.round.seats@[n as int], self.field@));
            if let Some(e) = seats[n] {
                ids.push(e);
            }
            n += 1;
        }
        self.sync_tanks(sync);
        let ghost pieces = self.field@;
        let mut shelters: Vec<SeatAt> = Vec::new();
        let mut k: usize = 0;
        while k < ids.len()
            invariant
                k <= ids@.len(),
                shelters@.len() == k,
                keeps_identities(start, self.field@),
                forall|p: Point| call_requires(*hides, (p,)),
                forall|i: int|
                    0 <= i < ids@.len() ==> thing::<Tank>(start, #[trigger] ids@[i]) is Some,
                forall|i: int|
                    0 <= i < k ==> (#[trigger] shelters@[i]).entity == ids@[i] && call_ensures(
                        *hides,
                        (thing::<Tank>(self.field@, ids@[i])->0.position,),
                        shelters@[i].concealed,
                    ),
            decreases ids@.len() - k,
        {
            let entity: u64 = ids[k];
            assert(thing::<Tank>(start, ids@[k as int]) is Some);
            let found: Option<Tank> = self.field.get(entity);
            assert(found is Some);
            if let Some(t) = found {
                shelters.push(SeatAt { entity, concealed: hides(t.position) });
            }
            k += 1;
        }
        let enemies: Vec<(u64, Tank)> = self.fighting();
        let mut names: Vec<u64> = Vec::new();
        let mut roll: Vec<EnemyAt> = Vec::new();
        let mut m: usize = 0;
        while m < enemies.len()
            invariant
                m <= enemies@.len(),
                names@ == ids_of(enemies@).take(m as int),
                roll@ == enemies_at(enemies@).take(m as int),
            decreases enemies@.len() - m,
        {
            let (entity, t) = enemies[m];
            names.push(entity);
            roll.push(EnemyAt { entity, slot: t.owner_slot(), index: m });
            m += 1;
            assert(names@ =~= ids_of(enemies@).take(m as int));
            assert(roll@ =~= enemies_at(enemies@).take(m as int));
        }
        assert(names@ =~= ids_of(enemies@));
        assert(roll@ =~= enemies_at(enemies@));
        let with_seats: Vec<Vec<bool>> = touches(touching, &names, &ids);
        let with_each_other: Vec<Vec<bool>> = touches(touching, &names, &names);
        let both: bool = if ids.len() == 2 {
            touching(ids[0], ids[1])
        } else {
            false
        };
        let ghost t = Touching {
            pieces,
            seats: shelters@,
            enemies: enemies@,
            with_seats: with_seats@,
            with_each_other: with_each_other@,
            both,
        };
        assert(touching_read(*sync, *touching, *hides, old(self).round.seats@, start, t));
        let mine: Vec<Contact> = player_contacts(&names, &shelters, &with_seats, both);
        let first_rams: Vec<Option<Rammed>> = self.resolve_contacts(
            f,
            &mine,
            cooldown,
            false,
            strike,
            ally,
        );
        let ghost mid = Scene { pieces: self.field@, record: f@ };
        let ghost first = choose|stages: Seq<Scene>|
            {
                &&& #[trigger] contacts_done(
                    *strike,
                    *ally,
                    cooldown,
                    false,
                    mine@,
                    stages,
                    first_rams@,
                    mine@.len() as int,
                )
                &&& stages[0] == (Scene { pieces, record: old(f)@ })
                &&& stages[mine@.len() as int] == mid
            };
        let theirs: Vec<Contact> = ram_enemy_pairs(&roll, &with_each_other);
        let second_rams: Vec<Option<Rammed>> = self.resolve_contacts(
            f,
            &theirs,
            cooldown,
            true,
            strike,
            ally,
        );
        let rams: (Vec<Option<Rammed>>, Vec<Option<Rammed>>) = (first_rams, second_rams);
        proof {
            let after = Scene { pieces: self.field@, record: f@ };
            let second = choose|stages: Seq<Scene>|
                {
                    &&& #[trigger] contacts_done(
                        *strike,
                        *ally,
                        cooldown,
                        true,
                        theirs@,
                        stages,
                        second_rams@,
                        theirs@.len() as int,
                    )
                    &&& stages[0] == mid
                    &&& stages[theirs@.len() as int] == after
                };
            assert(rams_frame(
                *strike,
                *ally,
                cooldown,
                t,
                Scene { pieces: start, record: old(f)@ },
                first,
                second,
                (rams.0@, rams.1@),
                after,
            ));
        }
        rams
    }
}

/// Two running tanks in contact, neither still cooling down, ram each other and
/// both cool down. Any other contact comes to nothing.
#[verifier::spinoff_prover]
pub proof fn two_tanks_in_contact_ram_each_other<
    S: Fn(Tank, Tank) -> (Scalar, Tank, Tank),
    A: Fn(Tank, Tank) -> (Scalar, Tank, Tank),
>(
    strike: S,
    ally: A,
    cooldown: Scalar,
    pairs: bool,
    c: Contact,
    before: Scene,
    after: Scene,
    r: Option<Rammed>,
)
    requires
        contact_done(strike, ally, cooldown, pairs, c, before, after, r),
        before.pieces.contains_key(c.a) && before.pieces[c.a] is Tank,
        before.pieces.contains_key(c.b) && before.pieces[c.b] is Tank,
        c.a != c.b,
    ensures
        ({
            let (a, b) = (before.pieces[c.a]->Tank_0, before.pieces[c.b]->Tank_0);
            let go = !a.wreck && !b.wreck && !Scalar::zero().below(a.ram_cooldown)
                && !Scalar::zero().below(b.ram_cooldown);
            &&& r is Some <==> go
            &&& !go ==> after == before
            &&& go ==> {
                &&& (r->0).a.ram_cooldown == cooldown && (r->0).b.ram_cooldown == cooldown
                &&& after.pieces =~= before.pieces.insert(c.a, Piece::Tank((r->0).a)).insert(
                    c.b,
                    Piece::Tank((r->0).b),
                )
            }
        }),
{
    let (a, b) = (before.pieces[c.a]->Tank_0, before.pieces[c.b]->Tank_0);
    assert(thing::<Tank>(before.pieces, c.a) == Some(a));
    assert(thing::<Tank>(before.pieces, c.b) == Some(b));
}

/// Every seat whose tank stands on the battlefield is in the ram pass, and one
/// still rolling in is not.
pub proof fn every_seat_on_the_battlefield_is_present(
    seats: Seq<Option<u64>>,
    pieces: Map<u64, Piece>,
    n: int,
    e: u64,
)
    requires
        0 <= n <= seats.len(),
        pieces.contains_key(e),
        pieces[e] is Tank,
    ensures
        present(seats, pieces, n).contains(e) <==> !pieces[e]->Tank_0.rolling_in && exists|s: int|
            0 <= s < n && #[trigger] seats[s] == Some(e),
    decreases n,
{
    assert(thing::<Tank>(pieces, e) == Some(pieces[e]->Tank_0));
    if n > 0 {
        every_seat_on_the_battlefield_is_present(seats, pieces, n - 1, e);
        let (now, before) = (present(seats, pieces, n), present(seats, pieces, n - 1));
        if before.contains(e) {
            let k = choose|k: int| 0 <= k < before.len() && before[k] == e;
            assert(now[k] == e);
        }
        if now.len() > before.len() {
            if now.contains(e) {
                let k = choose|k: int| 0 <= k < now.len() && now[k] == e;
                if k < before.len() {
                    assert(before[k] == e);
                }
            }
            if seats[n - 1] == Some(e) {
                assert(now.last() == e);
            }
        }
    }
}

/// Between friends the gentle exchange counts; otherwise the hard one does.
pub proof fn friends_ram_gently<
    S: Fn(Tank, Tank) -> (Scalar, Tank, Tank),
    A: Fn(Tank, Tank) -> (Scalar, Tank, Tank),
>(strike: S, ally: A, a: Tank, b: Tank, damage: Scalar, x: Tank, y: Tank)
    ensures
        exchanged(strike, ally, true, a, b, damage, x, y) <==> call_ensures(
            ally,
            (a, b),
            (damage, x, y),
        ),
        exchanged(strike, ally, false, a, b, damage, x, y) <==> call_ensures(
            strike,
            (a, b),
            (damage, x, y),
        ),
{
}

} // verus!
