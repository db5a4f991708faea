//! Pickups: who collects what, what it gives, when the field is topped up and
//! where a bonus may drop.

use rand::rngs::SmallRng;
use vstd::prelude::*;

use crate::dice::{chance, pick_index, Odds};
use crate::event::Event;
use crate::frame::{Frame, Record};
use crate::kinds::{ActiveWeapon, Cell, LaserVariant, PickupKind, PlasmaVariant};
use crate::pieces::{armed_with, Frog, Tank};
use crate::scalar::{Point, Scalar};

verus! {

/// A live tank that may collect.
#[derive(Clone, Copy, Debug, PartialEq, Eq, Structural)]
pub struct Collector {
    pub entity: u64,
    pub slot: usize,
    pub is_player: bool,
}

/// How one tank stands to one pickup.
#[derive(Clone, Copy, Debug, PartialEq, Eq, Structural)]
pub struct Stand {
    /// The tank would use it; a player always would.
    pub wants: bool,
    /// How far off it is.
    pub distance: Scalar,
}

/// A pickup lying on the field.
#[derive(Clone, Copy, Debug, PartialEq, Eq, Structural)]
pub struct Lying {
    pub entity: u64,
    pub kind: PickupKind,
}

/// A pickup taken.
#[derive(Clone, Copy, Debug, PartialEq, Eq, Structural)]
pub struct Collected {
    pub pickup: u64,
    pub kind: PickupKind,
    pub by: Collector,
}

/// The two frogs' state, as far as a frog pack cares.
#[derive(Clone, Copy, Debug, PartialEq, Eq, Structural)]
pub struct FrogsFull {
    pub player: bool,
    pub enemy: bool,
}

/// The tank takes the pickup: it wants it, is no
/// further off than the radius, and for a frog pack its
/// own side's frog is not alive at full health.
pub open spec fn takes(c: Collector, s: Stand, kind: PickupKind, full: FrogsFull, radius: Scalar) -> bool {
    s.wants && s.distance.at_most(radius) && (kind != PickupKind::FrogHealth || !(if c.is_player {
        full.player
    } else {
        full.enemy
    }))
}

/// The first tank from `from` on that takes the pickup.
pub open spec fn taker(
    tanks: Seq<Collector>,
    stands: Seq<Stand>,
    kind: PickupKind,
    full: FrogsFull,
    radius: Scalar,
    from: int,
) -> Option<Collector>
    decreases tanks.len() - from,
{
    if from >= tanks.len() {
        None
    } else if takes(tanks[from], stands[from], kind, full, radius) {
        Some(tanks[from])
    } else {
        taker(tanks, stands, kind, full, radius, from + 1)
    }
}

/// What is taken of the first `n` pickups.
pub open spec fn taken(
    lying: Seq<Lying>,
    tanks: Seq<Collector>,
    stands: Seq<Vec<Stand>>,
    full: FrogsFull,
    radius: Scalar,
    n: int,
) -> Seq<Collected>
    decreases n,
{
    if n <= 0 {
        Seq::empty()
    } else {
        let before = taken(lying, tanks, stands, full, radius, n - 1);
        let p = lying[n - 1];
        match taker(tanks, stands[n - 1]@, p.kind, full, radius, 0) {
            Some(by) => before.push(Collected { pickup: p.entity, kind: p.kind, by }),
            None => before,
        }
    }
}

/// Who collects what this frame: each pickup goes to the first live tank that
/// takes it.
pub fn collect(
    lying: &Vec<Lying>,
    tanks: &Vec<Collector>,
    stands: &Vec<Vec<Stand>>,
    full: FrogsFull,
    radius: Scalar,
) -> (collected: Vec<Collected>)
    requires
        stands@.len() == lying@.len(),
        forall|i: int| 0 <= i < stands@.len() ==> (#[trigger] stands@[i])@.len() == tanks@.len(),
    ensures
        collected@ == taken(lying@, tanks@, stands@, full, radius, lying@.len() as int),
{
    let mut collected: Vec<Collected> = Vec::new();
    let mut n: usize = 0;
    while n < lying.len()
        invariant
            n <= lying@.len() == stands@.len(),
            forall|i: int|
                0 <= i < stands@.len() ==> (#[trigger] stands@[i])@.len() == tanks@.len(),
            collected@ == taken(lying@, tanks@, stands@, full, radius, n as int),
        decreases lying@.len() - n,
    {
        let p: Lying = lying[n];
        let mut by: Option<Collector> = None;
        let mut k: usize = 0;
        assert(stands@[n as int]@.len() == tanks@.len());
        while k < tanks.len() && by.is_none()
            invariant
                k <= tanks@.len(),
                n < lying@.len() == stands@.len(),
                stands@[n as int]@.len() == tanks@.len(),
                p == lying@[n as int],
                by is None ==> taker(tanks@, stands@[n as int]@, p.kind, full, radius, 0) == taker(
                    tanks@,
                    stands@[n as int]@,
                    p.kind,
                    full,
                    radius,
                    k as int,
                ),
                by is Some ==> taker(tanks@, stands@[n as int]@, p.kind, full, radius, 0) == by,
            decreases tanks@.len() - k, (if by is None { 1int } else { 0 }),
        {
            let c: Collector = tanks[k];
            let s: Stand = stands[n][k];
            let frog_full: bool = if c.is_player {
                full.player
            } else {
                full.enemy
            };
            if s.wants && s.distance.le(radius) && (p.kind != PickupKind::FrogHealth || !frog_full) {
                by = Some(c);
            } else {
                k += 1;
            }
        }
        if let Some(c) = by {
            collected.push(Collected { pickup: p.entity, kind: p.kind, by: c });
        }
        n += 1;
    }
    collected
}

/// What a pickup holds, and the tank's clocks with it added.
#[derive(Clone, Copy, Debug, PartialEq, Eq, Structural)]
pub struct PickupStock {
    pub shells: i32,
    pub laser: i32,
    pub minigun: i32,
    pub missiles: i32,
    pub plasma: i32,
    /// The tank's damage once healed.
    pub healed: Scalar,
    /// The tank's fuel with a tank's worth more.
    pub fuel: Scalar,
    pub boost: Scalar,
    pub shield: Scalar,
    /// The weapon's look comes up rare: a blue laser, purple plasma.
    pub rare: bool,
}

/// How often a weapon's look comes up rare.
pub struct Looks {
    /// A blue laser.
    pub laser: Odds,
    /// Purple plasma.
    pub plasma: Odds,
}

impl Looks {
    /// How often a pickup's look comes up rare.
    pub open spec fn odds_of(&self, kind: PickupKind) -> Odds {
        if kind == PickupKind::Laser {
            self.laser
        } else {
            self.plasma
        }
    }

    /// Roll a pickup's look.
    pub fn roll(&self, kind: PickupKind, rng: &mut SmallRng) -> (rare: bool)
        ensures
            !rolls_variant(kind) ==> !rare && *final(rng) == *old(rng),
            rolls_variant(kind) && self.odds_of(kind) is Always ==> rare,
            rolls_variant(kind) && self.odds_of(kind) is Never ==> !rare,
    {
        if kind == PickupKind::Laser {
            chance(rng, &self.laser)
        } else if kind == PickupKind::Plasma {
            chance(rng, &self.plasma)
        } else {
            false
        }
    }
}

/// A laser's look.
#[verifier::allow_in_spec]
pub fn laser_look(rare: bool) -> LaserVariant
    returns
        (if rare {
            LaserVariant::Blue
        } else {
            LaserVariant::Red
        }),
{
    if rare {
        LaserVariant::Blue
    } else {
        LaserVariant::Red
    }
}

/// Plasma's look.
#[verifier::allow_in_spec]
pub fn plasma_look(rare: bool) -> PlasmaVariant
    returns
        (if rare {
            PlasmaVariant::Purple
        } else {
            PlasmaVariant::Teal
        }),
{
    if rare {
        PlasmaVariant::Purple
    } else {
        PlasmaVariant::Teal
    }
}

/// The weapon a pickup queues, before its ammunition is counted.
#[verifier::allow_in_spec]
pub fn queued_weapon(kind: PickupKind) -> Option<ActiveWeapon>
    returns
        (match kind {
            PickupKind::Laser => Some(ActiveWeapon::Laser),
            PickupKind::Minigun => Some(ActiveWeapon::Minigun),
            PickupKind::Missiles => Some(ActiveWeapon::Missiles),
            PickupKind::Flamethrower => Some(ActiveWeapon::Flamethrower),
            PickupKind::Plasma => Some(ActiveWeapon::Plasma),
            _ => None,
        }),
{
    match kind {
        PickupKind::Laser => Some(ActiveWeapon::Laser),
        PickupKind::Minigun => Some(ActiveWeapon::Minigun),
        PickupKind::Missiles => Some(ActiveWeapon::Missiles),
        PickupKind::Flamethrower => Some(ActiveWeapon::Flamethrower),
        PickupKind::Plasma => Some(ActiveWeapon::Plasma),
        _ => None,
    }
}

/// The weapon's look is rolled anew with each pickup of these; nothing else
/// draws a random number.
#[verifier::allow_in_spec]
pub fn rolls_variant(kind: PickupKind) -> bool
    returns
        (kind == PickupKind::Laser || kind == PickupKind::Plasma),
{
    kind == PickupKind::Laser || kind == PickupKind::Plasma
}

/// The counts fit their type.
pub open spec fn grant_fits(tank: Tank, kind: PickupKind, stock: PickupStock) -> bool {
    let fits = |a: int, b: int| i32::MIN <= a + b <= i32::MAX;
    match kind {
        PickupKind::Ammo => fits(tank.shells as int, stock.shells as int),
        PickupKind::Laser => fits(tank.laser_charges as int, stock.laser as int),
        PickupKind::Minigun => fits(tank.minigun_ammo as int, stock.minigun as int),
        PickupKind::Missiles => fits(tank.missile_ammo as int, stock.missiles as int),
        PickupKind::Plasma => fits(tank.plasma_ammo as int, stock.plasma as int),
        _ => true,
    }
}

/// A tank that queues the weapon a pickup brings, if it brings one.
pub open spec fn queued(tank: Tank, kind: PickupKind) -> Tank {
    match queued_weapon(kind) {
        Some(w) => armed_with(tank, w),
        None => tank,
    }
}

fn queue_up(tank: Tank, kind: PickupKind) -> (t: Tank)
    ensures
        t == queued(tank, kind),
        t == (Tank { weapon: t.weapon, queue: t.queue, ..tank }),
{
    let mut t: Tank = tank;
    if let Some(w) = queued_weapon(kind) {
        t.enqueue_weapon(w);
    }
    t
}

/// A tank once it has a pickup: a weapon is queued, and then ammunition and
/// fuel stack, a laser and a plasma gun look as they came up, a boost and a shield are refreshed and never stack, a shield
/// also heals in full, and a frog pack does nothing for the tank.
pub open spec fn granted(tank: Tank, kind: PickupKind, stock: PickupStock) -> Tank {
    with_stock(queued(tank, kind), kind, stock)
}

/// A tank with what a pickup holds.
pub open spec fn with_stock(tank: Tank, kind: PickupKind, stock: PickupStock) -> Tank {
    match kind {
        PickupKind::Health => Tank { damage: stock.healed, ..tank },
        PickupKind::Ammo => Tank { shells: (tank.shells + stock.shells) as i32, ..tank },
        PickupKind::Laser => Tank {
            laser_charges: (tank.laser_charges + stock.laser) as i32,
            laser_variant: laser_look(stock.rare),
            ..tank
        },
        PickupKind::Minigun => Tank {
            minigun_ammo: (tank.minigun_ammo + stock.minigun) as i32,
            ..tank
        },
        PickupKind::Missiles => Tank {
            missile_ammo: (tank.missile_ammo + stock.missiles) as i32,
            ..tank
        },
        PickupKind::Flamethrower => Tank { flame_fuel: stock.fuel, ..tank },
        PickupKind::Plasma => Tank {
            plasma_ammo: (tank.plasma_ammo + stock.plasma) as i32,
            plasma_variant: plasma_look(stock.rare),
            ..tank
        },
        PickupKind::SpeedUp => Tank { speed_boost: stock.boost, ..tank },
        PickupKind::Shield => Tank { damage: Scalar::zero(), shield: stock.shield, ..tank },
        PickupKind::FrogHealth => tank,
    }
}

fn stock_up(t: Tank, kind: PickupKind, stock: &PickupStock) -> (after: Tank)
    requires
        grant_fits(t, kind, *stock),
    ensures
        after == with_stock(t, kind, *stock),
{
    match kind {
        PickupKind::Health => Tank { damage: stock.healed, ..t },
        PickupKind::Ammo => Tank { shells: t.shells + stock.shells, ..t },
        PickupKind::Laser => Tank {
            laser_charges: t.laser_charges + stock.laser,
            laser_variant: laser_look(stock.rare),
            ..t
        },
        PickupKind::Minigun => Tank { minigun_ammo: t.minigun_ammo + stock.minigun, ..t },
        PickupKind::Missiles => Tank { missile_ammo: t.missile_ammo + stock.missiles, ..t },
        PickupKind::Flamethrower => Tank { flame_fuel: stock.fuel, ..t },
        PickupKind::Plasma => Tank {
            plasma_ammo: t.plasma_ammo + stock.plasma,
            plasma_variant: plasma_look(stock.rare),
            ..t
        },
        PickupKind::SpeedUp => Tank { speed_boost: stock.boost, ..t },
        PickupKind::Shield => Tank { damage: Scalar::zero(), shield: stock.shield, ..t },
        PickupKind::FrogHealth => t,
    }
}

/// Give a tank what it drove over.
pub fn grant(tank: Tank, kind: PickupKind, stock: &PickupStock) -> (after: Tank)
    requires
        grant_fits(tank, kind, *stock),
    ensures
        after == granted(tank, kind, *stock),
        kind is Health ==> after == (Tank { damage: stock.healed, ..tank }),
        kind is Ammo ==> after.shells == tank.shells + stock.shells,
        kind is Laser ==> after.laser_charges == tank.laser_charges + stock.laser,
        kind is Minigun ==> after.minigun_ammo == tank.minigun_ammo + stock.minigun,
        kind is Missiles ==> after.missile_ammo == tank.missile_ammo + stock.missiles,
        kind is Plasma ==> after.plasma_ammo == tank.plasma_ammo + stock.plasma,
        kind is Flamethrower ==> after.flame_fuel == stock.fuel,
        kind is SpeedUp ==> after == (Tank { speed_boost: stock.boost, ..tank }),
        kind is Shield ==> after == (Tank {
            damage: Scalar { bits: 0 },
            shield: stock.shield,
            ..tank
        }),
        kind is FrogHealth ==> after == tank,
{
    let t: Tank = queue_up(tank, kind);
    stock_up(t, kind, stock)
}

/// What a frog pack did: the frog afterwards and how much it gained.
#[derive(Clone, Copy, Debug, PartialEq, Eq, Structural)]
pub struct Healing {
    pub frog: Frog,
    pub amount: Scalar,
}

/// What a collection records: a frog's healing, when there was any, at the
/// frog's own position, and then the collection.
pub open spec fn collection_recorded(f: Record, c: Collected, healing: Option<Healing>) -> Record {
    let f = match healing {
        Some(h) => if c.kind == PickupKind::FrogHealth && Scalar::zero().below(h.amount) {
            f.with_event(
                Event::FrogHealed {
                    side: h.frog.side,
                    slot: c.by.slot,
                    amount: h.amount,
                    x: h.frog.position.x,
                    y: h.frog.position.y,
                },
            )
        } else {
            f
        },
        None => f,
    };
    f.with_event(Event::PickupCollected { slot: c.by.slot, kind: c.kind })
}

/// Record a collection. `healing` is what it did to the collector's own
/// side's frog, if it has one.
pub fn record_collection(f: &mut Frame, c: &Collected, healing: Option<Healing>)
    ensures
        final(f)@ == collection_recorded(old(f)@, *c, healing),
{
    if let Some(h) = healing {
        if c.kind == PickupKind::FrogHealth && h.amount.positive() {
            f.record(
                Event::FrogHealed {
                    side: h.frog.side,
                    slot: c.by.slot,
                    amount: h.amount,
                    x: h.frog.position.x,
                    y: h.frog.position.y,
                },
            );
        }
    }
    f.record(Event::PickupCollected { slot: c.by.slot, kind: c.kind });
}

/// How many are true.
pub open spec fn count_true(s: Seq<bool>, n: int) -> nat
    decreases n,
{
    if n <= 0 {
        0
    } else {
        count_true(s, n - 1) + (if s[n - 1] {
            1nat
        } else {
            0
        })
    }
}

/// Live pickups sitting on a map slot. A bonus that sits on none does not
/// count, so it can never make the field look full.
pub fn slot_backed_count(on_slot: &Vec<bool>) -> (count: usize)
    ensures
        count == count_true(on_slot@, on_slot@.len() as int),
{
    let mut count: usize = 0;
    let mut n: usize = 0;
    while n < on_slot.len()
        invariant
            n <= on_slot@.len(),
            count <= n,
            count == count_true(on_slot@, n as int),
        decreases on_slot@.len() - n,
    {
        if on_slot[n] {
            count += 1;
        }
        n += 1;
    }
    count
}

/// The respawn clock after the frame, and whether a pickup is due. It runs
/// only while the field is short of its slots and is held full otherwise, so
/// the first respawn after a collection waits the whole delay. `next` is the
/// clock with this frame's time taken off.
pub fn respawn_clock(live: usize, slots: usize, next: Scalar, whole: Scalar) -> (r: (Scalar, bool))
    ensures
        r.1 == (live < slots && next.at_most(Scalar::zero())),
        r.0 == (if live < slots && !next.at_most(Scalar::zero()) {
            next
        } else {
            whole
        }),
{
    if live < slots {
        if next.le(Scalar::zero()) {
            (whole, true)
        } else {
            (next, false)
        }
    } else {
        (whole, false)
    }
}

/// One of the free positions, each as likely as any other; none, and nothing
/// drawn, when every one is taken.
pub fn pick_free(taken: &Vec<bool>, rng: &mut SmallRng) -> (pick: Option<usize>)
    ensures
        pick matches Some(i) ==> i < taken@.len() && !taken@[i as int],
        pick is None ==> *final(rng) == *old(rng) && forall|i: int|
            0 <= i < taken@.len() ==> #[trigger] taken@[i],
{
    let mut free: Vec<usize> = Vec::new();
    let mut n: usize = 0;
    while n < taken.len()
        invariant
            n <= taken@.len(),
            forall|k: int|
                0 <= k < free@.len() ==> (#[trigger] free@[k]) < taken@.len()
                    && !taken@[free@[k] as int],
            free@.len() == 0 ==> forall|i: int| 0 <= i < n ==> #[trigger] taken@[i],
        decreases taken@.len() - n,
    {
        if !taken[n] {
            free.push(n);
        }
        n += 1;
    }
    match pick_index(rng, free.len()) {
        Some(k) => Some(free[k]),
        None => None,
    }
}

/// The eight cells around a cell, row by row.
pub open spec fn around(cell: Cell) -> Seq<Cell> {
    let at = |dx: int, dy: int| Cell { col: (cell.col + dx) as i32, row: (cell.row + dy) as i32 };
    seq![
        at(-1, -1),
        at(0, -1),
        at(1, -1),
        at(-1, 0),
        at(1, 0),
        at(-1, 1),
        at(0, 1),
        at(1, 1),
    ]
}

/// The eight cells around a cell, row by row.
pub fn bonus_cells(cell: Cell) -> (cells: [Cell; 8])
    requires
        cell.interior(),
    ensures
        cells@ == around(cell),
{
    let (c, r): (i32, i32) = (cell.col, cell.row);
    let cells: [Cell; 8] = [
        Cell { col: c - 1, row: r - 1 },
        Cell { col: c, row: r - 1 },
        Cell { col: c + 1, row: r - 1 },
        Cell { col: c - 1, row: r },
        Cell { col: c + 1, row: r },
        Cell { col: c - 1, row: r + 1 },
        Cell { col: c, row: r + 1 },
        Cell { col: c + 1, row: r + 1 },
    ];
    assert(cells@ =~= around(cell));
    cells
}

/// A cell a bonus might drop in.
#[derive(Clone, Copy, Debug, PartialEq, Eq, Structural)]
pub struct BonusCell {
    pub at: Point,
    /// Empty, road or water in the map.
    pub open: bool,
    /// Its centre is inside the border walls.
    pub inside: bool,
    /// No live pickup on it.
    pub free: bool,
}

impl BonusCell {
    /// A bonus may drop here.
    pub open spec fn eligible(self) -> bool {
        self.open && self.inside && self.free
    }
}

/// One of the eligible cells, each as likely as any other; none, and nothing
/// drawn, when there is none.
pub fn bonus_pickup_cell(cells: &Vec<BonusCell>, rng: &mut SmallRng) -> (at: Option<Point>)
    ensures
        at matches Some(p) ==> exists|i: int|
            0 <= i < cells@.len() && (#[trigger] cells@[i]).eligible() && cells@[i].at == p,
        at is None ==> *final(rng) == *old(rng) && forall|i: int|
            0 <= i < cells@.len() ==> !(#[trigger] cells@[i]).eligible(),
{
    let mut taken: Vec<bool> = Vec::new();
    let mut n: usize = 0;
    while n < cells.len()
        invariant
            n <= cells@.len(),
            taken@.len() == n,
            forall|i: int| 0 <= i < n ==> #[trigger] taken@[i] == !cells@[i].eligible(),
        decreases cells@.len() - n,
    {
        let c: BonusCell = cells[n];
        taken.push(!(c.open && c.inside && c.free));
        n += 1;
    }
    match pick_free(&taken, rng) {
        Some(i) => {
            assert(cells@[i as int].eligible());
            Some(cells[i].at)
        },
        None => {
            assert forall|i: int| 0 <= i < cells@.len() implies !(#[trigger] cells@[i]).eligible() by {
                assert(taken@[i]);
            }
            None
        },
    }
}

/// A map's pickup slot.
#[derive(Clone, Copy, Debug, PartialEq, Eq, Structural)]
pub struct PickupSlot {
    pub at: Point,
    pub kind: PickupKind,
}

/// Top up one pickup at a free slot, each as likely as any other; none, and
/// nothing drawn, when every slot is occupied. Says so in the frame.
pub fn respawn_from_slots(
    f: &mut Frame,
    slots: &Vec<PickupSlot>,
    occupied: &Vec<bool>,
    rng: &mut SmallRng,
) -> (spawned: Option<PickupSlot>)
    requires
        occupied@.len() == slots@.len(),
    ensures
        spawned matches Some(s) ==> (exists|i: int|
            0 <= i < slots@.len() && #[trigger] slots@[i] == s && !occupied@[i]) && final(f)@
            == old(f)@.with_event(
            Event::PickupRespawned { kind: s.kind, x: s.at.x, y: s.at.y },
        ),
        spawned is None ==> *final(rng) == *old(rng) && final(f)@ == old(f)@ && forall|i: int|
            0 <= i < slots@.len() ==> #[trigger] occupied@[i],
{
    match pick_free(occupied, rng) {
        Some(i) => {
            let s: PickupSlot = slots[i];
            assert(slots@[i as int] == s);
            f.record(Event::PickupRespawned { kind: s.kind, x: s.at.x, y: s.at.y });
            Some(s)
        },
        None => None,
    }
}

/// Whether the player's frog is hurt enough to be worth a bonus pack. Asked
/// before anything is rolled for one.
pub fn frog_wants_a_pack(frog: Option<Frog>, below: bool) -> (r: bool)
    ensures
        r == (frog matches Some(fr) && !fr.dead && below),
{
    match frog {
        Some(frog) => !frog.dead && below,
        None => false,
    }
}

/// A side whose frog is alive and unhurt leaves frog packs where they are; a
/// side whose frog is hurt, dead or absent takes them like anything else.
pub proof fn a_full_frog_leaves_the_pack(
    c: Collector,
    s: Stand,
    full: FrogsFull,
    radius: Scalar,
)
    ensures
        takes(c, s, PickupKind::FrogHealth, full, radius) ==> !(if c.is_player {
            full.player
        } else {
            full.enemy
        }),
        takes(
            c,
            s,
            PickupKind::FrogHealth,
            FrogsFull { player: false, enemy: false },
            radius,
        ) == (s.wants && s.distance.at_most(radius)),
{
}

/// What each kind of pickup does to the tank that drives over it, and that it
/// does nothing else. A weapon comes with a place in the queue.
pub proof fn a_pickup_gives_what_it_holds(tank: Tank, kind: PickupKind, stock: PickupStock)
    requires
        grant_fits(tank, kind, stock),
    ensures
        ({
            let after = granted(tank, kind, stock);
            let (weapon, queue) = (after.weapon, after.queue);
            &&& kind is Health ==> after == (Tank { damage: stock.healed, ..tank })
            &&& kind is Ammo ==> after.shells == tank.shells + stock.shells && after == (Tank {
                shells: after.shells,
                ..tank
            })
            &&& kind is Laser ==> after.laser_charges == tank.laser_charges + stock.laser && after
                == (Tank {
                laser_charges: after.laser_charges,
                laser_variant: if stock.rare {
                    LaserVariant::Blue
                } else {
                    LaserVariant::Red
                },
                weapon,
                queue,
                ..tank
            })
            &&& kind is Minigun ==> after.minigun_ammo == tank.minigun_ammo + stock.minigun
                && after == (Tank { minigun_ammo: after.minigun_ammo, weapon, queue, ..tank })
            &&& kind is Missiles ==> after.missile_ammo == tank.missile_ammo + stock.missiles
                && after == (Tank { missile_ammo: after.missile_ammo, weapon, queue, ..tank })
            &&& kind is Flamethrower ==> after == (Tank {
                flame_fuel: stock.fuel,
                weapon,
                queue,
                ..tank
            })
            &&& kind is Plasma ==> after.plasma_ammo == tank.plasma_ammo + stock.plasma && after
                == (Tank {
                plasma_ammo: after.plasma_ammo,
                plasma_variant: if stock.rare {
                    PlasmaVariant::Purple
                } else {
                    PlasmaVariant::Teal
                },
                weapon,
                queue,
                ..tank
            })
            &&& kind is SpeedUp ==> after == (Tank { speed_boost: stock.boost, ..tank })
            &&& kind is Shield ==> after == (Tank {
                damage: Scalar { bits: 0 },
                shield: stock.shield,
                ..tank
            })
            &&& kind is FrogHealth ==> after == tank
        }),
{
}

/// A tank on shells takes a collected weapon up at once; one that fires another
/// special weapon keeps firing it and has the new one waiting.
pub proof fn a_collected_weapon_is_taken_up_or_waits(
    tank: Tank,
    kind: PickupKind,
    stock: PickupStock,
    w: ActiveWeapon,
)
    requires
        match kind {
            PickupKind::Laser => w == ActiveWeapon::Laser,
            PickupKind::Minigun => w == ActiveWeapon::Minigun,
            PickupKind::Missiles => w == ActiveWeapon::Missiles,
            PickupKind::Flamethrower => w == ActiveWeapon::Flamethrower,
            PickupKind::Plasma => w == ActiveWeapon::Plasma,
            _ => false,
        },
    ensures
        ({
            let after = granted(tank, kind, stock);
            let waits = |q: crate::pieces::WeaponQueue|
                q.first == Some(w) || q.second == Some(w) || q.third == Some(w) || q.fourth == Some(
                    w,
                );
            &&& tank.weapon == ActiveWeapon::Shell && !waits(tank.queue) ==> after.weapon == w
                && after.queue == tank.queue
            &&& tank.weapon == w || waits(tank.queue) ==> after.weapon == tank.weapon
                && after.queue == tank.queue
            &&& tank.weapon != ActiveWeapon::Shell ==> after.weapon == tank.weapon
            &&& tank.weapon != ActiveWeapon::Shell && tank.weapon != w && (tank.queue.first is None
                || tank.queue.second is None || tank.queue.third is None
                || tank.queue.fourth is None) ==> waits(after.queue)
        }),
{
}

proof fn lemma_taker(
    tanks: Seq<Collector>,
    stands: Seq<Stand>,
    kind: PickupKind,
    full: FrogsFull,
    radius: Scalar,
    from: int,
)
    requires
        0 <= from <= tanks.len() == stands.len(),
    ensures
        match taker(tanks, stands, kind, full, radius, from) {
            Some(by) => exists|k: int|
                from <= k < tanks.len() && #[trigger] tanks[k] == by && takes(
                    tanks[k],
                    stands[k],
                    kind,
                    full,
                    radius,
                ) && forall|j: int|
                    from <= j < k ==> !takes(#[trigger] tanks[j], stands[j], kind, full, radius),
            None => forall|j: int|
                from <= j < tanks.len() ==> !takes(
                    #[trigger] tanks[j],
                    stands[j],
                    kind,
                    full,
                    radius,
                ),
        },
    decreases tanks.len() - from,
{
    if from < tanks.len() {
        if takes(tanks[from], stands[from], kind, full, radius) {
            assert(tanks[from] == taker(tanks, stands, kind, full, radius, from)->0);
        } else {
            lemma_taker(tanks, stands, kind, full, radius, from + 1);
        }
    }
}

proof fn lemma_taken(
    lying: Seq<Lying>,
    tanks: Seq<Collector>,
    stands: Seq<Vec<Stand>>,
    full: FrogsFull,
    radius: Scalar,
    n: int,
)
    requires
        0 <= n <= lying.len() == stands.len(),
    ensures
        forall|p: int|
            0 <= p < n && taker(tanks, stands[p]@, (#[trigger] lying[p]).kind, full, radius, 0)
                is Some ==> taken(lying, tanks, stands, full, radius, n).contains(
                Collected {
                    pickup: lying[p].entity,
                    kind: lying[p].kind,
                    by: taker(tanks, stands[p]@, lying[p].kind, full, radius, 0)->0,
                },
            ),
        forall|c: Collected| #[trigger]
            taken(lying, tanks, stands, full, radius, n).contains(c) ==> exists|p: int|
                0 <= p < n && (#[trigger] lying[p]).entity == c.pickup && lying[p].kind == c.kind
                    && taker(tanks, stands[p]@, lying[p].kind, full, radius, 0) == Some(c.by),
    decreases n,
{
    if n > 0 {
        lemma_taken(lying, tanks, stands, full, radius, n - 1);
        let before = taken(lying, tanks, stands, full, radius, n - 1);
        let now = taken(lying, tanks, stands, full, radius, n);
        assert forall|p: int|
            0 <= p < n && taker(tanks, stands[p]@, (#[trigger] lying[p]).kind, full, radius, 0)
                is Some implies now.contains(
            Collected {
                pickup: lying[p].entity,
                kind: lying[p].kind,
                by: taker(tanks, stands[p]@, lying[p].kind, full, radius, 0)->0,
            },
        ) by {
            let c = Collected {
                pickup: lying[p].entity,
                kind: lying[p].kind,
                by: taker(tanks, stands[p]@, lying[p].kind, full, radius, 0)->0,
            };
            if p == n - 1 {
                assert(now[before.len() as int] == c);
            } else {
                assert(before.contains(c));
                let k = choose|k: int| 0 <= k < before.len() && before[k] == c;
                assert(now[k] == c);
            }
        }
        assert forall|c: Collected| #[trigger] now.contains(c) implies exists|p: int|
            0 <= p < n && (#[trigger] lying[p]).entity == c.pickup && lying[p].kind == c.kind
                && taker(tanks, stands[p]@, lying[p].kind, full, radius, 0) == Some(c.by) by {
            let k = choose|k: int| 0 <= k < now.len() && now[k] == c;
            if k < before.len() {
                assert(before[k] == c);
                assert(before.contains(c));
            } else {
                assert(lying[n - 1].entity == c.pickup);
            }
        }
    }
}

/// A pickup that a tank wants and is near enough to is collected, unless it is a
/// frog pack and the tank's own side's frog is full; and only by such a tank.
pub proof fn a_wanted_pickup_in_reach_is_collected(
    lying: Seq<Lying>,
    tanks: Seq<Collector>,
    stands: Seq<Vec<Stand>>,
    full: FrogsFull,
    radius: Scalar,
    p: int,
    k: int,
)
    requires
        stands.len() == lying.len(),
        forall|i: int| 0 <= i < stands.len() ==> (#[trigger] stands[i])@.len() == tanks.len(),
        0 <= p < lying.len(),
        0 <= k < tanks.len(),
    ensures
        ({
            let got = taken(lying, tanks, stands, full, radius, lying.len() as int);
            stands[p]@[k].wants && stands[p]@[k].distance.at_most(radius) && (
            lying[p].kind is FrogHealth ==> if tanks[k].is_player {
                !full.player
            } else {
                !full.enemy
            }) ==> exists|i: int|
                0 <= i < got.len() && (#[trigger] got[i]).pickup == lying[p].entity && got[i].kind
                    == lying[p].kind
        }),
        forall|i: int|
            0 <= i < taken(lying, tanks, stands, full, radius, lying.len() as int).len()
                ==> collected_fairly(
                lying,
                tanks,
                stands,
                full,
                radius,
                #[trigger] taken(lying, tanks, stands, full, radius, lying.len() as int)[i],
            ),
{
    let n = lying.len() as int;
    let got = taken(lying, tanks, stands, full, radius, n);
    lemma_taken(lying, tanks, stands, full, radius, n);
    assert(stands[p]@.len() == tanks.len());
    lemma_taker(tanks, stands[p]@, lying[p].kind, full, radius, 0);
    if takes(tanks[k], stands[p]@[k], lying[p].kind, full, radius) {
        let c = Collected {
            pickup: lying[p].entity,
            kind: lying[p].kind,
            by: taker(tanks, stands[p]@, lying[p].kind, full, radius, 0)->0,
        };
        assert(got.contains(c));
        let i = choose|i: int| 0 <= i < got.len() && got[i] == c;
        assert(got[i].pickup == lying[p].entity);
    }
    assert forall|i: int| 0 <= i < got.len() implies collected_fairly(
        lying,
        tanks,
        stands,
        full,
        radius,
        #[trigger] got[i],
    ) by {
        let c = got[i];
        assert(got.contains(c));
        let q = choose|q: int|
            0 <= q < n && (#[trigger] lying[q]).entity == c.pickup && lying[q].kind == c.kind
                && taker(tanks, stands[q]@, lying[q].kind, full, radius, 0) == Some(c.by);
        assert(stands[q]@.len() == tanks.len());
        lemma_taker(tanks, stands[q]@, lying[q].kind, full, radius, 0);
        let m = choose|m: int|
            0 <= m < tanks.len() && #[trigger] tanks[m] == c.by && takes(
                tanks[m],
                stands[q]@[m],
                lying[q].kind,
                full,
                radius,
            );
        assert(collects(lying, tanks, stands, full, radius, c, q, m));
    }
}

/// The pickup at `p` went to the tank at `k`, which wanted it, was no further
/// off than the radius and, for a frog pack, has a frog to heal or none.
pub open spec fn collects(
    lying: Seq<Lying>,
    tanks: Seq<Collector>,
    stands: Seq<Vec<Stand>>,
    full: FrogsFull,
    radius: Scalar,
    c: Collected,
    p: int,
    k: int,
) -> bool {
    &&& 0 <= p < lying.len() && 0 <= k < tanks.len()
    &&& c.pickup == lying[p].entity && c.kind == lying[p].kind && c.by == tanks[k]
    &&& stands[p]@[k].wants && stands[p]@[k].distance.at_most(radius)
    &&& c.kind is FrogHealth ==> if c.by.is_player {
        !full.player
    } else {
        !full.enemy
    }
}

/// Some pickup went to some tank that may have it.
pub open spec fn collected_fairly(
    lying: Seq<Lying>,
    tanks: Seq<Collector>,
    stands: Seq<Vec<Stand>>,
    full: FrogsFull,
    radius: Scalar,
    c: Collected,
) -> bool {
    exists|p: int, k: int| #[trigger] collects(lying, tanks, stands, full, radius, c, p, k)
}

/// A collection is told, and before it what a pack healed, if it healed
/// anything.
pub proof fn a_collection_is_told(f: Record, c: Collected, healing: Option<Healing>)
    ensures
        ({
            let after = collection_recorded(f, c, healing);
            let told = Event::PickupCollected { slot: c.by.slot, kind: c.kind };
            &&& c.kind is FrogHealth && (healing matches Some(h) && Scalar::zero().below(h.amount))
                ==> after.events == f.events.push(
                Event::FrogHealed {
                    side: healing->0.frog.side,
                    slot: c.by.slot,
                    amount: healing->0.amount,
                    x: healing->0.frog.position.x,
                    y: healing->0.frog.position.y,
                },
            ).push(told)
            &&& !(c.kind is FrogHealth && (healing matches Some(h) && Scalar::zero().below(
                h.amount,
            ))) ==> after.events == f.events.push(told)
            &&& after == (Record { events: after.events, ..f })
        }),
{
}

/// The cells a bonus may drop in are the eight that touch the slot's own.
pub proof fn a_bonus_drops_beside_its_slot(cell: Cell, c: Cell)
    requires
        cell.interior(),
    ensures
        around(cell).contains(c) <==> c != cell && -1 <= c.col - cell.col <= 1 && -1 <= c.row
            - cell.row <= 1,
{
    let s = around(cell);
    assert(s[0] == Cell { col: (cell.col - 1) as i32, row: (cell.row - 1) as i32 });
    assert(s[1] == Cell { col: cell.col, row: (cell.row - 1) as i32 });
    assert(s[2] == Cell { col: (cell.col + 1) as i32, row: (cell.row - 1) as i32 });
    assert(s[3] == Cell { col: (cell.col - 1) as i32, row: cell.row });
    assert(s[4] == Cell { col: (cell.col + 1) as i32, row: cell.row });
    assert(s[5] == Cell { col: (cell.col - 1) as i32, row: (cell.row + 1) as i32 });
    assert(s[6] == Cell { col: cell.col, row: (cell.row + 1) as i32 });
    assert(s[7] == Cell { col: (cell.col + 1) as i32, row: (cell.row + 1) as i32 });
}

} // verus!
