//! The pickup phase: who drives over what, and what comes of it.

use rand::rngs::SmallRng;
use vstd::prelude::*;

use crate::field::{lists, selects, thing, Kind};
use crate::frame::{Frame, Record};
use crate::game::Game;
use crate::kinds::{Owner, PickupKind, Side, MAX_SEATS};
use crate::pickups::{
    collect, collection_recorded, grant, grant_fits, granted, record_collection,
    rolls_variant, taken, Collected, Collector, FrogsFull, Healing, Looks, Lying, PickupStock,
    Stand,
};
use crate::pieces::{Frog, Pickup, Piece, Tank};
use crate::scalar::{Point, Scalar};

verus! {

/// A live tank on the field.
pub open spec fn can_collect() -> spec_fn(Tank) -> bool {
    |t: Tank| !t.wreck && !t.rolling_in
}

/// A frog there is, alive, with nothing to heal.
pub open spec fn frog_is_full(pieces: Map<u64, Piece>, frog: Option<u64>) -> bool {
    frog matches Some(e) && (thing::<Frog>(pieces, e) matches Some(fr) && fr.full())
}

/// The list holds everything that lies on the field, each once.
pub open spec fn lies(pieces: Map<u64, Piece>, lying: Seq<Lying>) -> bool {
    exists|all: Seq<(u64, Pickup)>| #[trigger]
        lists::<Pickup>(pieces, all) && lying == all.map_values(
            |e: (u64, Pickup)| Lying { entity: e.0, kind: e.1.kind },
        )
}

impl Game {
    /// The list holds every tank that may collect, each once.
    pub open spec fn gathers(&self, tanks: Seq<Collector>) -> bool {
        exists|all: Seq<(u64, Tank)>| #[trigger]
            selects::<Tank>(self.field@, can_collect(), all) && tanks == all.map_values(
                |e: (u64, Tank)|
                    Collector {
                        entity: e.0,
                        slot: e.1.slot(),
                        is_player: self.seats_somebody(e.0),
                    },
            )
    }

    /// Everything lying on the field, in no particular order.
    pub fn lying(&self) -> (lying: Vec<Lying>)
        ensures
            lies(self.field@, lying@),
            forall|i: int|
                0 <= i < lying@.len() ==> thing::<Pickup>(
                    self.field@,
                    (#[trigger] lying@[i]).entity,
                ) is Some,
    {
        let all: Vec<(u64, Pickup)> = self.field.all();
        let mut lying: Vec<Lying> = Vec::new();
        let mut n: usize = 0;
        while n < all.len()
            invariant
                n <= all@.len(),
                lying@.len() == n,
                lists::<Pickup>(self.field@, all@),
                forall|i: int|
                    0 <= i < n ==> #[trigger] lying@[i] == (Lying {
                        entity: all@[i].0,
                        kind: all@[i].1.kind,
                    }),
            decreases all@.len() - n,
        {
            lying.push(Lying { entity: all[n].0, kind: all[n].1.kind });
            n += 1;
        }
        assert(lying@ =~= all@.map_values(
            |e: (u64, Pickup)| Lying { entity: e.0, kind: e.1.kind },
        ));
        assert forall|i: int| 0 <= i < lying@.len() implies thing::<Pickup>(
            self.field@,
            (#[trigger] lying@[i]).entity,
        ) is Some by {
            assert(thing::<Pickup>(self.field@, all@[i].0) == Some(all@[i].1));
        }
        lying
    }

    /// Every tank that may collect, in no particular order.
    pub fn collectors(&self) -> (tanks: Vec<Collector>)
        ensures
            self.gathers(tanks@),
    {
        let test = |t: Tank| -> (b: bool)
            ensures
                b == (!t.wreck && !t.rolling_in),
        { !t.wreck && !t.rolling_in };
        let all = self.field.select(Ghost(can_collect()), test);
        let mut tanks: Vec<Collector> = Vec::new();
        let mut n: usize = 0;
        while n < all.len()
            invariant
                n <= all@.len(),
                tanks@.len() == n,
                forall|i: int|
                    0 <= i < n ==> #[trigger] tanks@[i] == (Collector {
                        entity: all@[i].0,
                        slot: all@[i].1.slot(),
                        is_player: self.seats_somebody(all@[i].0),
                    }),
            decreases all@.len() - n,
        {
            let (entity, t) = all[n];
            tanks.push(
                Collector { entity, slot: t.owner_slot(), is_player: self.is_player(entity) },
            );
            n += 1;
        }
        assert(tanks@ =~= all@.map_values(
            |e: (u64, Tank)|
                Collector {
                    entity: e.0,
                    slot: e.1.slot(),
                    is_player: self.seats_somebody(e.0),
                },
        ));
        tanks
    }

    /// Whether each side's frog is alive with nothing to heal.
    pub fn frogs_full(&self) -> (full: FrogsFull)
        ensures
            full.player == frog_is_full(self.field@, self.round.frog),
            full.enemy == frog_is_full(self.field@, self.round.enemy_frog),
    {
        FrogsFull {
            player: self.is_full(self.round.frog),
            enemy: self.is_full(self.round.enemy_frog),
        }
    }

    fn is_full(&self, frog: Option<u64>) -> (r: bool)
        ensures
            r == frog_is_full(self.field@, frog),
    {
        match frog {
            Some(e) => {
                let found: Option<Frog> = self.field.get(e);
                match found {
                    Some(fr) => fr.at_full_health(),
                    None => false,
                }
            },
            None => false,
        }
    }
}

/// The field and the record part of the way through the phase.
#[verifier::ext_equal]
pub struct Haul {
    pub pieces: Map<u64, Piece>,
    pub record: Record,
}

/// The frog a pack is for: the collector's own side's, while it lives.
pub open spec fn patient(
    pieces: Map<u64, Piece>,
    c: Collected,
    frog: Option<u64>,
    enemy_frog: Option<u64>,
) -> Option<u64> {
    let own = if c.by.is_player {
        frog
    } else {
        enemy_frog
    };
    if c.kind == PickupKind::FrogHealth && (own matches Some(e) && (thing::<Frog>(
        pieces,
        e,
    ) matches Some(fr) && !fr.dead)) {
        own
    } else {
        None
    }
}

/// One collection: the pickup goes, the tank has what it held, a frog pack
/// heals the collector's own living frog, and it is recorded.
pub open spec fn hauled(
    at: Haul,
    c: Collected,
    frog: Option<u64>,
    enemy_frog: Option<u64>,
    stock: PickupStock,
    healing: Healing,
) -> Haul {
    let lifted = at.pieces.remove(c.pickup);
    let given = match thing::<Tank>(lifted, c.by.entity) {
        Some(t) => lifted.insert(c.by.entity, granted(t, c.kind, stock).as_piece()),
        None => lifted,
    };
    match patient(given, c, frog, enemy_frog) {
        Some(e) => Haul {
            pieces: given.insert(e, healing.frog.as_piece()),
            record: collection_recorded(at.record, c, Some(healing)),
        },
        None => Haul { pieces: given, record: collection_recorded(at.record, c, None) },
    }
}

/// The first `n` collections, given what each was worked out to be worth.
pub open spec fn haul(
    at: Haul,
    collected: Seq<Collected>,
    frog: Option<u64>,
    enemy_frog: Option<u64>,
    stocks: Seq<PickupStock>,
    healings: Seq<Healing>,
    n: int,
) -> Haul
    decreases n,
{
    if n <= 0 {
        at
    } else {
        hauled(
            haul(at, collected, frog, enemy_frog, stocks, healings, n - 1),
            collected[n - 1],
            frog,
            enemy_frog,
            stocks[n - 1],
            healings[n - 1],
        )
    }
}

/// What a pickup is worth fits the tank that takes it.
pub open spec fn stock_fits<S: Fn(Tank, PickupKind) -> PickupStock>(stock: S) -> bool {
    forall|t: Tank, kind: PickupKind, worth: PickupStock| #[trigger]
        call_ensures(stock, (t, kind), worth) ==> grant_fits(t, kind, worth)
}

/// What a pickup is worth to a tank is what the host says, with the look that
/// came up for its weapon. A certain look comes up, an impossible one does not,
/// and only some pickups have one.
pub open spec fn valued<S: Fn(Tank, PickupKind) -> PickupStock>(
    stock: S,
    looks: &Looks,
    t: Tank,
    kind: PickupKind,
    given: PickupStock,
) -> bool {
    &&& exists|worth: PickupStock| #[trigger]
        call_ensures(stock, (t, kind), worth) && given == (PickupStock { rare: given.rare, ..worth })
    &&& !rolls_variant(kind) ==> !given.rare
    &&& rolls_variant(kind) && looks.odds_of(kind) is Always ==> given.rare
    &&& rolls_variant(kind) && looks.odds_of(kind) is Never ==> !given.rare
}

/// A healed frog is still its side's.
pub open spec fn healing_keeps_side<H: Fn(Frog) -> Healing>(heal: H) -> bool {
    forall|fr: Frog, h: Healing| #[trigger]
        call_ensures(heal, (fr,), h) ==> h.frog.side == fr.side
}

/// What the first `n` collections were worked out to be worth is what the host
/// says of them.
pub open spec fn worth<S: Fn(Tank, PickupKind) -> PickupStock, H: Fn(Frog) -> Healing>(
    stock: S,
    looks: &Looks,
    heal: H,
    at: Haul,
    collected: Seq<Collected>,
    frog: Option<u64>,
    enemy_frog: Option<u64>,
    stocks: Seq<PickupStock>,
    healings: Seq<Healing>,
    n: int,
) -> bool
    decreases n,
{
    if n <= 0 {
        true
    } else {
        let before = haul(at, collected, frog, enemy_frog, stocks, healings, n - 1);
        let c = collected[n - 1];
        let lifted = before.pieces.remove(c.pickup);
        let given = match thing::<Tank>(lifted, c.by.entity) {
            Some(t) => lifted.insert(c.by.entity, granted(t, c.kind, stocks[n - 1]).as_piece()),
            None => lifted,
        };
        &&& worth(stock, looks, heal, at, collected, frog, enemy_frog, stocks, healings, n - 1)
        &&& thing::<Tank>(lifted, c.by.entity) matches Some(t) ==> valued(
            stock,
            looks,
            t,
            c.kind,
            stocks[n - 1],
        )
        &&& patient(given, c, frog, enemy_frog) matches Some(e) ==> call_ensures(
            heal,
            (thing::<Frog>(given, e)->0,),
            healings[n - 1],
        )
    }
}

proof fn lemma_haul_same<S: Fn(Tank, PickupKind) -> PickupStock, H: Fn(Frog) -> Healing>(
    stock: S,
    looks: &Looks,
    heal: H,
    at: Haul,
    collected: Seq<Collected>,
    frog: Option<u64>,
    enemy_frog: Option<u64>,
    a: Seq<PickupStock>,
    x: Seq<Healing>,
    b: Seq<PickupStock>,
    y: Seq<Healing>,
    n: int,
)
    requires
        0 <= n <= a.len(),
        n <= b.len(),
        n <= x.len(),
        n <= y.len(),
        forall|i: int| 0 <= i < n ==> a[i] == b[i],
        forall|i: int| 0 <= i < n ==> x[i] == y[i],
    ensures
        haul(at, collected, frog, enemy_frog, a, x, n) == haul(
            at,
            collected,
            frog,
            enemy_frog,
            b,
            y,
            n,
        ),
        worth(stock, looks, heal, at, collected, frog, enemy_frog, a, x, n) == worth(
            stock,
            looks,
            heal,
            at,
            collected,
            frog,
            enemy_frog,
            b,
            y,
            n,
        ),
    decreases n,
{
    if n > 0 {
        lemma_haul_same(stock, looks, heal, at, collected, frog, enemy_frog, a, x, b, y, n - 1);
    }
}

impl Game {
    /// Carry out one collection.
    #[verifier::spinoff_prover]
    #[verifier::rlimit(40)]
    fn carry_out<S: Fn(Tank, PickupKind) -> PickupStock, H: Fn(Frog) -> Healing>(
        &mut self,
        f: &mut Frame,
        c: &Collected,
        stock: &S,
        looks: &Looks,
        heal: &H,
        rng: &mut SmallRng,
    ) -> (r: (PickupStock, Healing))
        requires
            old(self).wf(),
            old(self).field@.contains_key(c.pickup) ==> thing::<Pickup>(
                old(self).field@,
                c.pickup,
            ) is Some,
            forall|t: Tank, kind: PickupKind| call_requires(*stock, (t, kind)),
            forall|fr: Frog| call_requires(*heal, (fr,)),
            stock_fits(*stock),
            healing_keeps_side(*heal),
        ensures
            final(self).wf(),
            final(self).round == old(self).round,
            final(self).keeps_surroundings(old(self)),
            final(self).events == old(self).events,
            (Haul { pieces: final(self).field@, record: final(f)@ }) == hauled(
                Haul { pieces: old(self).field@, record: old(f)@ },
                *c,
                old(self).round.frog,
                old(self).round.enemy_frog,
                r.0,
                r.1,
            ),
            ({
                let lifted = old(self).field@.remove(c.pickup);
                let given = match thing::<Tank>(lifted, c.by.entity) {
                    Some(t) => lifted.insert(
                        c.by.entity,
                        granted(t, c.kind, r.0).as_piece(),
                    ),
                    None => lifted,
                };
                &&& thing::<Tank>(lifted, c.by.entity) matches Some(t) ==> valued(
                    *stock,
                    looks,
                    t,
                    c.kind,
                    r.0,
                )
                &&& patient(
                    given,
                    *c,
                    old(self).round.frog,
                    old(self).round.enemy_frog,
                ) matches Some(e) ==> call_ensures(*heal, (thing::<Frog>(given, e)->0,), r.1)
            }),
            !rolls_variant(c.kind) ==> *final(rng) == *old(rng),
            forall|id: u64| #[trigger]
                final(self).field@.contains_key(id) ==> old(self).field@.contains_key(id) && (
                thing::<Pickup>(old(self).field@, id) is Some ==> thing::<Pickup>(
                    final(self).field@,
                    id,
                ) is Some),
    {
        let ghost before = self.field@;
        self.field.despawn(c.pickup);
        let ghost lifted = self.field@;
        let zero: Scalar = Scalar::zero();
        let mut given: PickupStock = PickupStock {
            shells: 0,
            laser: 0,
            minigun: 0,
            missiles: 0,
            plasma: 0,
            healed: zero,
            fuel: zero,
            boost: zero,
            shield: zero,
            rare: false,
        };
        let tank: Option<Tank> = self.field.get(c.by.entity);
        if let Some(t) = tank {
            let worth: PickupStock = stock(t, c.kind);
            given = PickupStock { rare: looks.roll(c.kind, rng), ..worth };
            assert(call_ensures(*stock, (t, c.kind), worth));
            assert(valued(*stock, looks, t, c.kind, given));
            self.field.put(c.by.entity, grant(t, c.kind, &given));
        }
        let ghost after = self.field@;
        let own: Option<u64> = if c.by.is_player {
            self.round.frog
        } else {
            self.round.enemy_frog
        };
        let nobody: Frog = Frog {
            side: Side::Player,
            position: Point { x: zero, y: zero },
            health: zero,
            max_health: zero,
            variant: 0,
            dead: true,
            can_attack: false,
            can_hop: false,
        };
        let mut healed: Healing = Healing { frog: nobody, amount: zero };
        let mut told: bool = false;
        if c.kind == PickupKind::FrogHealth {
            if let Some(e) = own {
                let frog: Option<Frog> = self.field.get(e);
                if let Some(fr) = frog {
                    if !fr.dead {
                        healed = heal(fr);
                        self.field.put(e, healed.frog);
                        record_collection(f, c, Some(healed));
                        told = true;
                    }
                }
            }
        }
        if !told {
            record_collection(f, c, None);
        }
        proof {
            let seats = self.round.seats@;
            assert forall|i: int| #![trigger seats[i]] 0 <= i < MAX_SEATS implies (
            seats[i] matches Some(e) ==> i < self.round.players.seated() && (thing::<Tank>(
                self.field@,
                e,
            ) matches Some(t) && t.owner == Owner::Player(i as u8) && t.mind is None)) by {
                assert(seats[i] == old(self).round.seats@[i]);
                if let Some(e) = seats[i] {
                    assert(thing::<Tank>(before, e) is Some);
                    assert(e != c.pickup);
                }
            }
        }
        (given, healed)
    }

    /// Resolve the pickups: each goes to the first tank that takes it, and is
    /// carried out in turn. `lying` and `tanks` come from [`Game::lying`] and
    /// [`Game::collectors`], `stands` says how each tank stands to each
    /// pickup, `stock` what a pickup is worth to a tank and `heal` what a pack
    /// makes of a frog. A pickup is taken within the radius. A weapon that
    /// comes in two looks has its look rolled anew with each pickup, and
    /// nothing else draws.
    pub fn pickup_phase<S: Fn(Tank, PickupKind) -> PickupStock, H: Fn(Frog) -> Healing>(
        &mut self,
        f: &mut Frame,
        lying: &Vec<Lying>,
        tanks: &Vec<Collector>,
        stands: &Vec<Vec<Stand>>,
        radius: Scalar,
        stock: S,
        looks: &Looks,
        heal: H,
        rng: &mut SmallRng,
    ) -> (collected: Vec<Collected>)
        requires
            old(self).wf(),
            stands@.len() == lying@.len(),
            forall|i: int|
                0 <= i < stands@.len() ==> (#[trigger] stands@[i])@.len() == tanks@.len(),
            lies(old(self).field@, lying@),
            old(self).gathers(tanks@),
            forall|t: Tank, kind: PickupKind| call_requires(stock, (t, kind)),
            forall|fr: Frog| call_requires(heal, (fr,)),
            stock_fits(stock),
            healing_keeps_side(heal),
        ensures
            final(self).wf(),
            final(self).round == old(self).round,
            final(self).keeps_surroundings(old(self)),
            final(self).events == old(self).events,
            collected@ == taken(
                lying@,
                tanks@,
                stands@,
                FrogsFull {
                    player: frog_is_full(old(self).field@, old(self).round.frog),
                    enemy: frog_is_full(old(self).field@, old(self).round.enemy_frog),
                },
                radius,
                lying@.len() as int,
            ),
            exists|stocks: Seq<PickupStock>, healings: Seq<Healing>|
                {
                    &&& #[trigger] worth(
                        stock,
                        looks,
                        heal,
                        Haul { pieces: old(self).field@, record: old(f)@ },
                        collected@,
                        old(self).round.frog,
                        old(self).round.enemy_frog,
                        stocks,
                        healings,
                        collected@.len() as int,
                    )
                    &&& (Haul { pieces: final(self).field@, record: final(f)@ }) == haul(
                        Haul { pieces: old(self).field@, record: old(f)@ },
                        collected@,
                        old(self).round.frog,
                        old(self).round.enemy_frog,
                        stocks,
                        healings,
                        collected@.len() as int,
                    )
                },
            (forall|k: int|
                0 <= k < collected@.len() ==> !rolls_variant((#[trigger] collected@[k]).kind))
                ==> *final(rng) == *old(rng),
    {
        let full: FrogsFull = self.frogs_full();
        let collected: Vec<Collected> = collect(lying, tanks, stands, full, radius);
        let ghost start = Haul { pieces: self.field@, record: f@ };
        let ghost frog = self.round.frog;
        let ghost enemy_frog = self.round.enemy_frog;
        let ghost mut stocks: Seq<PickupStock> = Seq::empty();
        let ghost mut healings: Seq<Healing> = Seq::empty();
        proof {
            lemma_taken_lay(lying@, tanks@, stands@, full, radius, lying@.len() as int);
            let all = choose|all: Seq<(u64, Pickup)>| #[trigger]
                lists::<Pickup>(self.field@, all) && lying@ == all.map_values(
                    |e: (u64, Pickup)| Lying { entity: e.0, kind: e.1.kind },
                );
            assert forall|i: int| 0 <= i < lying@.len() implies thing::<Pickup>(
                self.field@,
                (#[trigger] lying@[i]).entity,
            ) is Some by {
                assert(thing::<Pickup>(self.field@, all[i].0) == Some(all[i].1));
            }
        }
        let mut n: usize = 0;
        while n < collected.len()
            invariant
                n <= collected@.len(),
                self.wf(),
                self.round == old(self).round,
                self.keeps_surroundings(old(self)),
                self.events == old(self).events,
                frog == old(self).round.frog,
                enemy_frog == old(self).round.enemy_frog,
                start == (Haul { pieces: old(self).field@, record: old(f)@ }),
                forall|i: int|
                    0 <= i < lying@.len() ==> thing::<Pickup>(
                        start.pieces,
                        (#[trigger] lying@[i]).entity,
                    ) is Some,
                forall|k: int|
                    0 <= k < collected@.len() ==> exists|i: int|
                        0 <= i < lying@.len() && (#[trigger] lying@[i]).entity == (
                        #[trigger] collected@[k]).pickup,
                forall|id: u64| #[trigger]
                    self.field@.contains_key(id) ==> (thing::<Pickup>(start.pieces, id) is Some
                        ==> thing::<Pickup>(self.field@, id) is Some),
                forall|t: Tank, kind: PickupKind| call_requires(stock, (t, kind)),
                forall|fr: Frog| call_requires(heal, (fr,)),
                stock_fits(stock),
                healing_keeps_side(heal),
                stocks.len() == n,
                healings.len() == n,
                (forall|k: int|
                    0 <= k < n ==> !rolls_variant((#[trigger] collected@[k]).kind)) ==> *rng
                    == *old(rng),
                worth(
                    stock,
                    looks,
                    heal,
                    start,
                    collected@,
                    frog,
                    enemy_frog,
                    stocks,
                    healings,
                    n as int,
                ),
                (Haul { pieces: self.field@, record: f@ }) == haul(
                    start,
                    collected@,
                    frog,
                    enemy_frog,
                    stocks,
                    healings,
                    n as int,
                ),
            decreases collected@.len() - n,
        {
            let c: Collected = collected[n];
            let ghost a = stocks;
            let ghost x = healings;
            proof {
                let i = choose|i: int|
                    0 <= i < lying@.len() && (#[trigger] lying@[i]).entity
                        == collected@[n as int].pickup;
                assert(thing::<Pickup>(start.pieces, lying@[i].entity) is Some);
            }
            let (given, healed) = self.carry_out(f, &c, &stock, looks, &heal, rng);
            proof {
                stocks = stocks.push(given);
                healings = healings.push(healed);
                lemma_haul_same(
                    stock,
                    looks,
                    heal,
                    start,
                    collected@,
                    frog,
                    enemy_frog,
                    a,
                    x,
                    stocks,
                    healings,
                    n as int,
                );
            }
            n += 1;
        }
        collected
    }
}

proof fn lemma_taken_lay(
    lying: Seq<Lying>,
    tanks: Seq<Collector>,
    stands: Seq<Vec<Stand>>,
    full: FrogsFull,
    radius: Scalar,
    n: int,
)
    requires
        0 <= n <= lying.len(),
    ensures
        forall|k: int|
            0 <= k < taken(lying, tanks, stands, full, radius, n).len() ==> exists|i: int|
                0 <= i < lying.len() && (#[trigger] lying[i]).entity == (#[trigger] taken(
                    lying,
                    tanks,
                    stands,
                    full,
                    radius,
                    n,
                )[k]).pickup,
    decreases n,
{
    if n > 0 {
        lemma_taken_lay(lying, tanks, stands, full, radius, n - 1);
        let before = taken(lying, tanks, stands, full, radius, n - 1);
        let after = taken(lying, tanks, stands, full, radius, n);
        assert forall|k: int| 0 <= k < after.len() implies exists|i: int|
            0 <= i < lying.len() && (#[trigger] lying[i]).entity == (#[trigger] after[k]).pickup by {
            if k < before.len() {
                assert(after[k] == before[k]);
                let i = choose|i: int|
                    0 <= i < lying.len() && (#[trigger] lying[i]).entity == before[k].pickup;
                assert(lying[i].entity == after[k].pickup);
            } else {
                assert(lying[n - 1].entity == after[k].pickup);
            }
        }
    }
}

/// A pack heals only the collector's own side's frog, and never one that is
/// dead; a side without one wastes it.
pub proof fn a_pack_heals_its_own_sides_frog(
    pieces: Map<u64, Piece>,
    c: Collected,
    frog: Option<u64>,
    enemy_frog: Option<u64>,
)
    ensures
        patient(pieces, c, frog, enemy_frog) matches Some(e) ==> (if c.by.is_player {
            frog == Some(e)
        } else {
            enemy_frog == Some(e)
        }) && (thing::<Frog>(pieces, e) matches Some(fr) && !fr.dead),
{
}

/// One collection over the field. The pickup is gone, the collector has what it
/// held and nothing else, a pack heals the collector's own living frog, and
/// everything else on the field stays as it was.
pub proof fn a_collection_touches_nothing_else(
    at: Haul,
    c: Collected,
    frog: Option<u64>,
    enemy_frog: Option<u64>,
    stock: PickupStock,
    healing: Healing,
    t: Tank,
)
    requires
        at.pieces.contains_key(c.by.entity),
        at.pieces[c.by.entity] == Piece::Tank(t),
        c.pickup != c.by.entity,
        frog != Some(c.pickup),
        enemy_frog != Some(c.pickup),
        crate::pickups::grant_fits(t, c.kind, stock),
    ensures
        ({
            let after = hauled(at, c, frog, enemy_frog, stock, healing).pieces;
            let own = if c.by.is_player {
                frog
            } else {
                enemy_frog
            };
            let lives = own matches Some(e) && at.pieces.contains_key(e) && at.pieces[e] is Frog
                && !at.pieces[e]->Frog_0.dead;
            &&& !after.contains_key(c.pickup)
            &&& after.contains_key(c.by.entity) && after[c.by.entity] is Tank
            &&& c.kind is Health ==> after[c.by.entity] == Piece::Tank(
                Tank { damage: stock.healed, ..t },
            )
            &&& c.kind is Shield ==> after[c.by.entity] == Piece::Tank(
                Tank { damage: Scalar { bits: 0 }, shield: stock.shield, ..t },
            )
            &&& c.kind is SpeedUp ==> after[c.by.entity] == Piece::Tank(
                Tank { speed_boost: stock.boost, ..t },
            )
            &&& c.kind is Ammo ==> after[c.by.entity]->Tank_0.shells == t.shells + stock.shells
            &&& c.kind is Laser ==> after[c.by.entity]->Tank_0.laser_charges == t.laser_charges
                + stock.laser
            &&& c.kind is Minigun ==> after[c.by.entity]->Tank_0.minigun_ammo == t.minigun_ammo
                + stock.minigun
            &&& c.kind is Missiles ==> after[c.by.entity]->Tank_0.missile_ammo == t.missile_ammo
                + stock.missiles
            &&& c.kind is Plasma ==> after[c.by.entity]->Tank_0.plasma_ammo == t.plasma_ammo
                + stock.plasma
            &&& c.kind is Flamethrower ==> after[c.by.entity]->Tank_0.flame_fuel == stock.fuel
            &&& c.kind is FrogHealth ==> after[c.by.entity] == Piece::Tank(t)
            &&& c.kind is FrogHealth && lives ==> after[own->0] == Piece::Frog(healing.frog)
            &&& forall|id: u64|
                id != c.pickup && id != c.by.entity && !(c.kind is FrogHealth && own == Some(id)
                    && lives) ==> {
                    &&& #[trigger] after.contains_key(id) == at.pieces.contains_key(id)
                    &&& at.pieces.contains_key(id) ==> after[id] == at.pieces[id]
                }
        }),
{
    crate::pickups::a_pickup_gives_what_it_holds(t, c.kind, stock);
}

/// A frog pack is for the collector's own side's frog whenever that one lives.
pub proof fn a_living_frog_gets_its_sides_pack(
    pieces: Map<u64, Piece>,
    c: Collected,
    frog: Option<u64>,
    enemy_frog: Option<u64>,
)
    requires
        c.kind is FrogHealth,
    ensures
        c.by.is_player ==> (frog matches Some(e) && pieces.contains_key(e) && pieces[e] is Frog
            && !pieces[e]->Frog_0.dead ==> patient(pieces, c, frog, enemy_frog) == frog),
        !c.by.is_player ==> (enemy_frog matches Some(e) && pieces.contains_key(e)
            && pieces[e] is Frog && !pieces[e]->Frog_0.dead ==> patient(
            pieces,
            c,
            frog,
            enemy_frog,
        ) == enemy_frog),
{
}

/// Every running tank that is on the field may collect, whoever drives it, and
/// no wreck and nobody still rolling in; a seat's tank counts as a player's.
pub proof fn every_running_tank_may_collect(g: Game, tanks: Seq<Collector>, id: u64)
    requires
        g.gathers(tanks),
    ensures
        (exists|i: int| 0 <= i < tanks.len() && (#[trigger] tanks[i]).entity == id) <==> (
        g.field@.contains_key(id) && g.field@[id] is Tank && !g.field@[id]->Tank_0.wreck
            && !g.field@[id]->Tank_0.rolling_in),
        forall|i: int|
            0 <= i < tanks.len() ==> ((#[trigger] tanks[i]).is_player <==> exists|s: int|
                0 <= s < 8 && #[trigger] g.round.seats@[s] == Some(tanks[i].entity)),
        forall|i: int, j: int|
            0 <= i < j < tanks.len() ==> (#[trigger] tanks[i]).entity != (
            #[trigger] tanks[j]).entity,
{
    let all = choose|all: Seq<(u64, Tank)>| #[trigger]
        selects::<Tank>(g.field@, can_collect(), all) && tanks == all.map_values(
            |e: (u64, Tank)|
                Collector {
                    entity: e.0,
                    slot: e.1.slot(),
                    is_player: g.seats_somebody(e.0),
                },
        );
    if g.field@.contains_key(id) && g.field@[id] is Tank && !g.field@[id]->Tank_0.wreck
        && !g.field@[id]->Tank_0.rolling_in {
        assert(thing::<Tank>(g.field@, id) == Some(g.field@[id]->Tank_0));
        let i = choose|i: int| 0 <= i < all.len() && (#[trigger] all[i]).0 == id;
        assert(tanks[i].entity == id);
    }
    if exists|i: int| 0 <= i < tanks.len() && (#[trigger] tanks[i]).entity == id {
        let i = choose|i: int| 0 <= i < tanks.len() && (#[trigger] tanks[i]).entity == id;
        assert(all[i].0 == id);
        assert(thing::<Tank>(g.field@, all[i].0) == Some(all[i].1));
        assert(can_collect()(all[i].1));
    }
    assert forall|i: int| 0 <= i < tanks.len() implies ((#[trigger] tanks[i]).is_player
        <==> exists|s: int| 0 <= s < 8 && #[trigger] g.round.seats@[s] == Some(tanks[i].entity)) by {
        assert(tanks[i].is_player == g.seats_somebody(tanks[i].entity));
    }
    assert forall|i: int, j: int| 0 <= i < j < tanks.len() implies (#[trigger] tanks[i]).entity != (
    #[trigger] tanks[j]).entity by {
        assert(all[i].0 != all[j].0);
    }
}

/// A tank may collect while it runs and is on the battlefield; a frog has
/// nothing to heal when it is there and says so.
pub proof fn a_running_tank_on_the_field_may_collect(pieces: Map<u64, Piece>, t: Tank, e: u64)
    ensures
        can_collect()(t) <==> !t.wreck && !t.rolling_in,
        !frog_is_full(pieces, None),
        !pieces.contains_key(e) ==> !frog_is_full(pieces, Some(e)),
        pieces.contains_key(e) && pieces[e] is Frog ==> (frog_is_full(pieces, Some(e))
            <==> pieces[e]->Frog_0.full()),
{
}

} // verus!
