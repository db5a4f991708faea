//! Damage: what a resolved hit does to whatever it struck, a wreck's or a
//! barrel's blast, ram contact, shells meeting in the air, and the order in
//! which a frame's explosions are worked off.
//!
//! How much a blow hurts is rolled and applied by the host; a rule takes it as
//! a function it calls only when the blow lands, so that its contract says
//! exactly when a roll is made.

use rand::distr::Bernoulli;
use rand::rngs::SmallRng;
use vstd::prelude::*;

use crate::event::{Event, HitTarget};
use crate::frame::{Frame, Record, ShockKind};
use crate::kinds::{Cell, Material, Owner};
use crate::pieces::{Frog, Mind, Tank, Tile};
use crate::props::{
    blow, coin_decides, damage_obstacle, mourned, obstacle_died, shape_of, Blow, DamageCause,
    DeadTile,
};
use crate::ranking::{ranked, sort_ranked, Ranked};
use crate::scalar::{Point, Scalar};

verus! {

/// How a tank's owner is named in a hit.
#[verifier::allow_in_spec]
pub fn target_of(owner: Owner) -> HitTarget
    returns
        (match owner {
            Owner::Player(player) => HitTarget::Player { player },
            Owner::Enemy(slot) => HitTarget::Enemy { slot },
        }),
{
    match owner {
        Owner::Player(player) => HitTarget::Player { player },
        Owner::Enemy(slot) => HitTarget::Enemy { slot },
    }
}

/// What became of a tank that was hit.
#[derive(Clone, Copy, Debug, PartialEq, Eq, Structural)]
pub enum TankHit {
    /// It was a wreck already.
    Ignored,
    Killed,
    /// It lives, and is shoved if the shot shoves.
    Survived,
}

/// An enemy's mind once it has been shot.
pub open spec fn alerted(mind: Option<Mind>) -> Option<Mind> {
    match mind {
        Some(mind) => Some(Mind { hit_alerted: true, ..mind }),
        None => None,
    }
}

/// What a landed hit records: the hit, and the kill if it was one.
pub open spec fn tank_hit(f: Record, before: Tank, damage: Scalar, after: Tank, at: Point) -> Record {
    let f = f.with_event(
        Event::Hit {
            target: target_of(before.owner),
            damage,
            killed: after.wreck,
            x: at.x,
            y: at.y,
        },
    );
    if after.wreck {
        f.with_kill(after.position, after.owner)
    } else {
        f
    }
}

/// A projectile or beam strikes a tank. A wreck ignores it and nothing is
/// rolled; anyone else takes what `strike` rolls, and an enemy that survives
/// knows it was shot.
pub fn hit_tank<F: FnOnce(Tank) -> (Scalar, Tank)>(
    f: &mut Frame,
    tank: Tank,
    at: Point,
    strike: F,
) -> (r: (Tank, TankHit))
    requires
        !tank.wreck ==> call_requires(strike, (tank,)),
    ensures
        tank.wreck ==> r == (tank, TankHit::Ignored) && final(f)@ == old(f)@,
        !tank.wreck ==> exists|damage: Scalar, after: Tank| #[trigger]
            call_ensures(strike, (tank,), (damage, after)) && final(f)@ == tank_hit(
                old(f)@,
                tank,
                damage,
                after,
                at,
            ) && r == (if after.wreck {
                (after, TankHit::Killed)
            } else {
                (Tank { mind: alerted(after.mind), ..after }, TankHit::Survived)
            }),
{
    if tank.wreck {
        return (tank, TankHit::Ignored);
    }
    let (damage, after): (Scalar, Tank) = strike(tank);
    f.record(
        Event::Hit {
            target: target_of(tank.owner),
            damage,
            killed: after.wreck,
            x: at.x,
            y: at.y,
        },
    );
    if after.wreck {
        f.kill(after.position, after.owner);
        return (after, TankHit::Killed);
    }
    let mut survivor: Tank = after;
    if let Some(mind) = after.mind {
        survivor.mind = Some(Mind { hit_alerted: true, ..mind });
    }
    (survivor, TankHit::Survived)
}

/// What became of a frog that was hit.
#[derive(Clone, Copy, Debug, PartialEq, Eq, Structural)]
pub enum FrogHit {
    /// It was dead already.
    Ignored,
    Killed,
    /// It lives and tries to hop away.
    Hops,
    /// It lives and stays.
    Stays,
}

/// A projectile or beam strikes a frog, of either side. A dead frog ignores
/// it and nothing is rolled; any other takes what `strike` rolls and either
/// dies with a ripple or, when the shot makes frogs hop and it can, hops away.
pub fn hit_frog<F: FnOnce(Frog) -> (Scalar, Frog)>(
    f: &mut Frame,
    frog: Frog,
    at: Point,
    makes_hop: bool,
    strike: F,
) -> (r: (Frog, FrogHit))
    requires
        !frog.dead ==> call_requires(strike, (frog,)),
    ensures
        frog.dead ==> r == (frog, FrogHit::Ignored) && final(f)@ == old(f)@,
        !frog.dead ==> exists|damage: Scalar, after: Frog| #[trigger]
            call_ensures(strike, (frog,), (damage, after)) && ({
                let hit = old(f)@.with_event(
                    Event::Hit {
                        target: HitTarget::Frog { side: frog.side },
                        damage,
                        killed: after.dead,
                        x: at.x,
                        y: at.y,
                    },
                );
                &&& r.0 == after
                &&& r.1 == (if after.dead {
                    FrogHit::Killed
                } else if after.can_hop && makes_hop {
                    FrogHit::Hops
                } else {
                    FrogHit::Stays
                })
                &&& final(f)@ == (if after.dead {
                    hit.with_shock(after.position, ShockKind::Frog)
                } else {
                    hit
                })
            }),
{
    if frog.dead {
        return (frog, FrogHit::Ignored);
    }
    let (damage, after): (Scalar, Frog) = strike(frog);
    f.record(
        Event::Hit {
            target: HitTarget::Frog { side: frog.side },
            damage,
            killed: after.dead,
            x: at.x,
            y: at.y,
        },
    );
    if after.dead {
        f.shock(after.position, ShockKind::Frog);
        (after, FrogHit::Killed)
    } else if after.can_hop && makes_hop {
        (after, FrogHit::Hops)
    } else {
        (after, FrogHit::Stays)
    }
}

/// What a hit on a tile records: the hit first, and after it whatever the
/// damage causes.
pub open spec fn tile_hit(
    f: Record,
    tile: Tile,
    damage: Scalar,
    after: (Tile, bool),
    cause: DamageCause,
    at: Point,
) -> Record {
    let f = f.with_event(
        Event::Hit {
            target: HitTarget::Obstacle { material: tile.material },
            damage,
            killed: after.1,
            x: at.x,
            y: at.y,
        },
    );
    if after.1 {
        mourned(
            f,
            DeadTile {
                material: after.0.material,
                drum: after.0.drum,
                position: after.0.position,
                chained: false,
                charred: false,
                shape: shape_of(cause),
            },
        )
    } else {
        f
    }
}

/// A projectile or beam strikes a tile.
pub fn hit_tile(
    f: &mut Frame,
    tile: Tile,
    damage: Scalar,
    b: &Blow,
    cause: DamageCause,
    one_shot: &Bernoulli,
    rng: &mut SmallRng,
    at: Point,
) -> (r: (Tile, bool))
    ensures
        coin_decides(tile, cause) ==> r == blow(tile, *b, cause, true) || r == blow(
            tile,
            *b,
            cause,
            false,
        ),
        !coin_decides(tile, cause) ==> r == blow(tile, *b, cause, false) && *final(rng) == *old(rng),
        final(f)@ == tile_hit(old(f)@, tile, damage, r, cause, at),
{
    let r: (Tile, bool) = damage_obstacle(tile, b, cause, one_shot, rng);
    f.record(
        Event::Hit {
            target: HitTarget::Obstacle { material: tile.material },
            damage,
            killed: r.1,
            x: at.x,
            y: at.y,
        },
    );
    if r.1 {
        obstacle_died(
            f,
            DeadTile {
                material: r.0.material,
                drum: r.0.drum,
                position: r.0.position,
                chained: false,
                charred: false,
                shape: shape_of(cause),
            },
        );
    }
    r
}

/// A wall absorbs a shot.
pub fn hit_wall(f: &mut Frame, at: Point)
    ensures
        final(f)@ == old(f)@.with_event(
            Event::Hit {
                target: HitTarget::Wall,
                damage: Scalar::zero(),
                killed: false,
                x: at.x,
                y: at.y,
            },
        ),
{
    f.record(
        Event::Hit {
            target: HitTarget::Wall,
            damage: Scalar::zero(),
            killed: false,
            x: at.x,
            y: at.y,
        },
    );
}

/// An explosion reaches a tank: it is no wreck and inside the radius.
pub open spec fn in_reach(wreck: bool, distance: Scalar, radius: Scalar) -> bool {
    !wreck && !radius.below(distance)
}

/// One tank's share of an explosion. A wreck or a tank outside the radius is
/// left alone; one inside takes what `strike` rolls when the blast hurts it,
/// and is shoved unless that kills it. Nothing is rolled otherwise.
pub fn explosion_hit<F: FnOnce(Tank) -> Tank>(
    f: &mut Frame,
    tank: Tank,
    distance: Scalar,
    radius: Scalar,
    hurts: bool,
    strike: F,
) -> (r: (Tank, bool))
    requires
        in_reach(tank.wreck, distance, radius) && hurts ==> call_requires(strike, (tank,)),
    ensures
        !in_reach(tank.wreck, distance, radius) ==> r == (tank, false) && final(f)@ == old(f)@,
        in_reach(tank.wreck, distance, radius) && !hurts ==> r == (tank, true) && final(f)@ == old(
            f,
        )@,
        in_reach(tank.wreck, distance, radius) && hurts ==> exists|after: Tank| #[trigger]
            call_ensures(strike, (tank,), after) && r == (after, !after.wreck) && final(f)@ == (
            if after.wreck {
                old(f)@.with_kill(after.position, after.owner)
            } else {
                old(f)@
            }),
{
    if tank.wreck || radius.lt(distance) {
        return (tank, false);
    }
    if !hurts {
        return (tank, true);
    }
    let after: Tank = strike(tank);
    if after.wreck {
        f.kill(after.position, after.owner);
        return (after, false);
    }
    (after, true)
}

/// Who a wreck's explosion, or a missile's burst, hurts: the side opposing
/// whoever caused it.
#[verifier::allow_in_spec]
pub fn hurts_side(cause: Owner, tank: Owner) -> bool
    returns
        (cause.is_seat() != tank.is_seat()),
{
    !cause.same_side(tank)
}

/// Two tanks may exchange ram damage: neither a wreck nor cooling down.
pub open spec fn may_ram(a: Tank, b: Tank) -> bool {
    !a.wreck && !b.wreck && !Scalar::zero().below(a.ram_cooldown) && !Scalar::zero().below(
        b.ram_cooldown,
    )
}

/// What a ram did.
#[derive(Clone, Copy, Debug, PartialEq, Eq, Structural)]
pub struct Rammed {
    /// The roll both took.
    pub damage: Scalar,
    pub a: Tank,
    pub b: Tank,
}

/// Ram contact between two tanks: both take one roll and start cooling down.
/// A wreck or a tank still cooling down, on either side, means no exchange and
/// no roll. A tank this kills is recorded; whoever lives is shoved.
pub fn ram<F: FnOnce(Tank, Tank) -> (Scalar, Tank, Tank)>(
    f: &mut Frame,
    a: Tank,
    b: Tank,
    cooldown: Scalar,
    strike: F,
) -> (r: Option<Rammed>)
    requires
        may_ram(a, b) ==> call_requires(strike, (a, b)),
    ensures
        !may_ram(a, b) ==> r is None && final(f)@ == old(f)@,
        may_ram(a, b) ==> exists|damage: Scalar, x: Tank, y: Tank| #[trigger]
            call_ensures(strike, (a, b), (damage, x, y)) && r == Some(
                Rammed {
                    damage,
                    a: Tank { ram_cooldown: cooldown, ..x },
                    b: Tank { ram_cooldown: cooldown, ..y },
                },
            ) && final(f)@ == ({
                let f = if x.wreck {
                    old(f)@.with_kill(x.position, x.owner)
                } else {
                    old(f)@
                };
                if y.wreck {
                    f.with_kill(y.position, y.owner)
                } else {
                    f
                }
            }),
{
    if a.wreck || b.wreck || a.ram_cooldown.positive() || b.ram_cooldown.positive() {
        return None;
    }
    let (damage, x, y): (Scalar, Tank, Tank) = strike(a, b);
    if x.wreck {
        f.kill(x.position, x.owner);
    }
    if y.wreck {
        f.kill(y.position, y.owner);
    }
    let mut a: Tank = x;
    let mut b: Tank = y;
    a.ram_cooldown = cooldown;
    b.ram_cooldown = cooldown;
    Some(Rammed { damage, a, b })
}

/// A ram contact to be resolved.
#[derive(Clone, Copy, Debug, PartialEq, Eq, Structural)]
pub struct Contact {
    pub a: u64,
    pub b: u64,
    /// Between two players, at the friendly-fire factor.
    pub friendly: bool,
}

/// A seat's tank as the ram pass sees it.
#[derive(Clone, Copy, Debug, PartialEq, Eq, Structural)]
pub struct SeatAt {
    pub entity: u64,
    /// Hidden in tall grass: an enemy that has lost a player does not get to
    /// ram them either.
    pub concealed: bool,
}

/// One enemy's contacts with the first `n` seats.
pub open spec fn seat_contacts(
    enemy: u64,
    seats: Seq<SeatAt>,
    touching: Seq<bool>,
    n: int,
) -> Seq<Contact>
    decreases n,
{
    if n <= 0 {
        Seq::empty()
    } else {
        let before = seat_contacts(enemy, seats, touching, n - 1);
        if touching[n - 1] && !seats[n - 1].concealed {
            before.push(Contact { a: enemy, b: seats[n - 1].entity, friendly: false })
        } else {
            before
        }
    }
}

/// The first `n` enemies' contacts with the seats.
pub open spec fn enemy_seat_contacts(
    enemies: Seq<u64>,
    seats: Seq<SeatAt>,
    touching: Seq<Vec<bool>>,
    n: int,
) -> Seq<Contact>
    decreases n,
{
    if n <= 0 {
        Seq::empty()
    } else {
        enemy_seat_contacts(enemies, seats, touching, n - 1) + seat_contacts(
            enemies[n - 1],
            seats,
            touching[n - 1]@,
            seats.len() as int,
        )
    }
}

/// The contacts that involve a player: every enemy's, and last that of the two
/// players of a two-player round.
pub open spec fn seat_rams(
    enemies: Seq<u64>,
    seats: Seq<SeatAt>,
    touching: Seq<Vec<bool>>,
    seats_touch: bool,
) -> Seq<Contact> {
    let found = enemy_seat_contacts(enemies, seats, touching, enemies.len() as int);
    if seats.len() == 2 && seats_touch {
        found.push(Contact { a: seats[0].entity, b: seats[1].entity, friendly: true })
    } else {
        found
    }
}

/// The ram contacts that involve a player, in the order they are resolved:
/// every enemy against every player it touches and has not lost in the grass,
/// and last the two players of a two-player round against each other.
pub fn player_contacts(
    enemies: &Vec<u64>,
    seats: &Vec<SeatAt>,
    touching: &Vec<Vec<bool>>,
    seats_touch: bool,
) -> (contacts: Vec<Contact>)
    requires
        touching@.len() == enemies@.len(),
        forall|i: int| 0 <= i < touching@.len() ==> (#[trigger] touching@[i])@.len() == seats@.len(),
    ensures
        contacts@ == seat_rams(enemies@, seats@, touching@, seats_touch),
{
    let mut contacts: Vec<Contact> = Vec::new();
    let mut n: usize = 0;
    while n < enemies.len()
        invariant
            n <= enemies@.len() == touching@.len(),
            forall|i: int|
                0 <= i < touching@.len() ==> (#[trigger] touching@[i])@.len() == seats@.len(),
            contacts@ == enemy_seat_contacts(enemies@, seats@, touching@, n as int),
        decreases enemies@.len() - n,
    {
        let ghost so_far = contacts@;
        assert(so_far + Seq::<Contact>::empty() =~= so_far);
        assert(touching@[n as int]@.len() == seats@.len());
        let mut k: usize = 0;
        while k < seats.len()
            invariant
                k <= seats@.len(),
                n < enemies@.len() == touching@.len(),
                touching@[n as int]@.len() == seats@.len(),
                contacts@ == so_far + seat_contacts(
                    enemies@[n as int],
                    seats@,
                    touching@[n as int]@,
                    k as int,
                ),
            decreases seats@.len() - k,
        {
            if touching[n][k] && !seats[k].concealed {
                contacts.push(Contact { a: enemies[n], b: seats[k].entity, friendly: false });
            }
            k += 1;
            assert(contacts@ =~= so_far + seat_contacts(
                enemies@[n as int],
                seats@,
                touching@[n as int]@,
                k as int,
            ));
        }
        n += 1;
    }
    if seats.len() == 2 && seats_touch {
        contacts.push(
            Contact { a: seats[0].entity, b: seats[1].entity, friendly: true },
        );
    }
    contacts
}

/// An enemy as the ram pass sees it.
#[derive(Clone, Copy, Debug, PartialEq, Eq, Structural)]
pub struct EnemyAt {
    pub entity: u64,
    pub slot: usize,
    /// Its row and column in the contact table.
    pub index: usize,
}

impl Ranked for EnemyAt {
    /// By round slot.
    open spec fn ahead(self, other: EnemyAt) -> bool {
        self.slot < other.slot
    }

    proof fn ranks(a: EnemyAt, b: EnemyAt, c: EnemyAt) {
    }

    fn is_ahead(&self, other: &EnemyAt) -> (r: bool) {
        self.slot < other.slot
    }
}

/// The contacts of the enemy at position `i` of the slot order with those
/// after it, up to position `j`.
pub open spec fn contacts_after(
    order: Seq<EnemyAt>,
    touching: Seq<Vec<bool>>,
    i: int,
    j: int,
) -> Seq<Contact>
    decreases j - i,
{
    if j <= i + 1 {
        Seq::empty()
    } else {
        let before = contacts_after(order, touching, i, j - 1);
        let (a, b) = (order[i], order[j - 1]);
        if touching[a.index as int]@[b.index as int] {
            before.push(Contact { a: a.entity, b: b.entity, friendly: false })
        } else {
            before
        }
    }
}

/// The contacts of the first `n` enemies of the slot order with those after.
pub open spec fn pair_contacts(order: Seq<EnemyAt>, touching: Seq<Vec<bool>>, n: int) -> Seq<Contact>
    decreases n,
{
    if n <= 0 {
        Seq::empty()
    } else {
        pair_contacts(order, touching, n - 1) + contacts_after(
            order,
            touching,
            n - 1,
            order.len() as int,
        )
    }
}

/// Enemies ram each other too. Contacts are resolved by round slot, lower
/// slots first, never in the order the entity store walks them, since every
/// exchange draws from the round's one stream.
pub fn ram_enemy_pairs(enemies: &Vec<EnemyAt>, touching: &Vec<Vec<bool>>) -> (contacts: Vec<Contact>)
    requires
        forall|i: int|
            0 <= i < enemies@.len() ==> (#[trigger] enemies@[i]).index < touching@.len(),
        forall|i: int, k: int|
            0 <= i < enemies@.len() && 0 <= k < touching@.len() ==> (#[trigger] enemies@[i]).index
                < (#[trigger] touching@[k])@.len(),
    ensures
        contacts@ == pair_contacts(ranked(enemies@), touching@, enemies@.len() as int),
{
    let order: Vec<EnemyAt> = sort_ranked(enemies);
    proof {
        crate::ranking::ranking_sorts(enemies@);
        assert forall|i: int| 0 <= i < order@.len() implies exists|m: int|
            0 <= m < enemies@.len() && enemies@[m] == #[trigger] order@[i] by {
            crate::ranking::same_members(order@, enemies@, i);
        }
    }
    let mut contacts: Vec<Contact> = Vec::new();
    let mut i: usize = 0;
    while i < order.len()
        invariant
            i <= order@.len() == enemies@.len(),
            order@ == ranked(enemies@),
            forall|m: int|
                0 <= m < order@.len() ==> (#[trigger] order@[m]).index < touching@.len(),
            forall|m: int, k: int|
                0 <= m < order@.len() && 0 <= k < touching@.len() ==> (#[trigger] order@[m]).index
                    < (#[trigger] touching@[k])@.len(),
            contacts@ == pair_contacts(order@, touching@, i as int),
        decreases order@.len() - i,
    {
        let ghost so_far = contacts@;
        assert(so_far + Seq::<Contact>::empty() =~= so_far);
        let mut j: usize = i + 1;
        while j < order.len()
            invariant
                i < j <= order@.len(),
                forall|m: int|
                    0 <= m < order@.len() ==> (#[trigger] order@[m]).index < touching@.len(),
                forall|m: int, k: int|
                    0 <= m < order@.len() && 0 <= k < touching@.len() ==> (
                    #[trigger] order@[m]).index < (#[trigger] touching@[k])@.len(),
                contacts@ == so_far + contacts_after(order@, touching@, i as int, j as int),
            decreases order@.len() - j,
        {
            let a: EnemyAt = order[i];
            let b: EnemyAt = order[j];
            if touching[a.index][b.index] {
                contacts.push(Contact { a: a.entity, b: b.entity, friendly: false });
            }
            j += 1;
            assert(contacts@ =~= so_far + contacts_after(order@, touching@, i as int, j as int));
        }
        i += 1;
    }
    contacts
}

/// The first shell after `i`, from `j` on, that shell `i` cancels with: of the
/// other side, not spoken for, and meeting it.
pub open spec fn partner(
    owners: Seq<Owner>,
    meets: Seq<Vec<bool>>,
    claimed: Seq<bool>,
    i: int,
    j: int,
) -> Option<int>
    decreases owners.len() - j,
{
    if j >= owners.len() {
        None
    } else if owners[i].is_seat() != owners[j].is_seat() && !claimed[j] && meets[i]@[j] {
        Some(j)
    } else {
        partner(owners, meets, claimed, i, j + 1)
    }
}

/// The pairs the first `n` shells make, and who is spoken for afterwards.
pub open spec fn paired(owners: Seq<Owner>, meets: Seq<Vec<bool>>, n: int) -> (
    Seq<(int, int)>,
    Seq<bool>,
)
    decreases n,
{
    if n <= 0 {
        (Seq::empty(), Seq::new(owners.len(), |k: int| false))
    } else {
        let (pairs, claimed) = paired(owners, meets, n - 1);
        if claimed[n - 1] {
            (pairs, claimed)
        } else {
            match partner(owners, meets, claimed, n - 1, n) {
                Some(j) => (
                    pairs.push((n - 1, j)),
                    claimed.update(n - 1, true).update(j, true),
                ),
                None => (pairs, claimed),
            }
        }
    }
}

/// Two flying shells from opposing sides that meet in the air detonate each
/// other; same-side pairs never cancel, and a shell cancels at most one other.
/// `meets` says which shells come close enough, read where the first comes
/// before the second. Returns the pairs by position.
pub fn shell_vs_shell(owners: &Vec<Owner>, meets: &Vec<Vec<bool>>) -> (pairs: Vec<(usize, usize)>)
    requires
        meets@.len() == owners@.len(),
        forall|i: int| 0 <= i < meets@.len() ==> (#[trigger] meets@[i])@.len() == owners@.len(),
    ensures
        pairs@.map_values(|p: (usize, usize)| (p.0 as int, p.1 as int)) == paired(
            owners@,
            meets@,
            owners@.len() as int,
        ).0,
{
    let mut claimed: Vec<bool> = Vec::new();
    let mut k: usize = 0;
    while k < owners.len()
        invariant
            k <= owners@.len(),
            claimed@ == Seq::new(k as nat, |m: int| false),
        decreases owners@.len() - k,
    {
        claimed.push(false);
        k += 1;
        assert(claimed@ =~= Seq::new(k as nat, |m: int| false));
    }
    let mut pairs: Vec<(usize, usize)> = Vec::new();
    assert(pairs@.map_values(|p: (usize, usize)| (p.0 as int, p.1 as int)) =~= Seq::<
        (int, int),
    >::empty());
    let mut i: usize = 0;
    while i < owners.len()
        invariant
            i <= owners@.len() == meets@.len(),
            claimed@.len() == owners@.len(),
            forall|m: int| 0 <= m < meets@.len() ==> (#[trigger] meets@[m])@.len() == owners@.len(),
            (
                pairs@.map_values(|p: (usize, usize)| (p.0 as int, p.1 as int)),
                claimed@,
            ) == paired(owners@, meets@, i as int),
        decreases owners@.len() - i,
    {
        if !claimed[i] {
            assert(meets@[i as int]@.len() == owners@.len());
            let mut j: usize = i + 1;
            let mut found: bool = false;
            while j < owners.len() && !found
                invariant
                    i < j <= owners@.len() == meets@.len(),
                    claimed@.len() == owners@.len(),
                    meets@[i as int]@.len() == owners@.len(),
                    found ==> j < owners@.len() && partner(
                        owners@,
                        meets@,
                        claimed@,
                        i as int,
                        i + 1,
                    ) == Some(j as int),
                    !found ==> partner(owners@, meets@, claimed@, i as int, i + 1) == partner(
                        owners@,
                        meets@,
                        claimed@,
                        i as int,
                        j as int,
                    ),
                decreases owners@.len() - j, (if found { 0int } else { 1 }),
            {
                if !owners[i].same_side(owners[j]) && !claimed[j] && meets[i][j] {
                    found = true;
                } else {
                    j += 1;
                }
            }
            if found {
                let ghost so_far = pairs@;
                claimed.set(i, true);
                claimed.set(j, true);
                pairs.push((i, j));
                assert(pairs@.map_values(|p: (usize, usize)| (p.0 as int, p.1 as int))
                    =~= so_far.map_values(|p: (usize, usize)| (p.0 as int, p.1 as int)).push(
                    (i as int, j as int),
                ));
            }
        }
        i += 1;
    }
    pairs
}

proof fn lemma_partner(owners: Seq<Owner>, meets: Seq<Vec<bool>>, claimed: Seq<bool>, i: int, j: int)
    ensures
        partner(owners, meets, claimed, i, j) matches Some(k) ==> j <= k < owners.len()
            && owners[i].is_seat() != owners[k].is_seat() && !claimed[k] && meets[i]@[k],
    decreases owners.len() - j,
{
    if j < owners.len() {
        lemma_partner(owners, meets, claimed, i, j + 1);
    }
}

pub(crate) proof fn lemma_paired(owners: Seq<Owner>, meets: Seq<Vec<bool>>, n: int)
    requires
        0 <= n <= owners.len(),
    ensures
        ({
            let (pairs, claimed) = paired(owners, meets, n);
            &&& claimed.len() == owners.len()
            &&& forall|p: int|
                0 <= p < pairs.len() ==> {
                    let (i, j) = #[trigger] pairs[p];
                    0 <= i < j < owners.len() && claimed[i] && claimed[j] && owners[i].is_seat()
                        != owners[j].is_seat() && meets[i]@[j]
                }
            &&& forall|p: int, q: int|
                0 <= p < q < pairs.len() ==> {
                    let (a, b) = (#[trigger] pairs[p], #[trigger] pairs[q]);
                    a.0 != b.0 && a.0 != b.1 && a.1 != b.0 && a.1 != b.1
                }
        }),
    decreases n,
{
    if n > 0 {
        lemma_paired(owners, meets, n - 1);
        let (pairs, claimed) = paired(owners, meets, n - 1);
        lemma_partner(owners, meets, claimed, n - 1, n);
    }
}

/// Shells cancel in pairs: the two of a pair are on opposing sides and meet,
/// and no shell is in two pairs.
pub proof fn shells_cancel_one_for_one(owners: Seq<Owner>, meets: Seq<Vec<bool>>, p: int, q: int)
    requires
        0 <= p < q < paired(owners, meets, owners.len() as int).0.len(),
    ensures
        ({
            let pairs = paired(owners, meets, owners.len() as int).0;
            let (a, b) = (pairs[p], pairs[q]);
            &&& owners[a.0].is_seat() != owners[a.1].is_seat() && meets[a.0]@[a.1]
            &&& owners[b.0].is_seat() != owners[b.1].is_seat() && meets[b.0]@[b.1]
            &&& a.0 != b.0 && a.0 != b.1 && a.1 != b.0 && a.1 != b.1
        }),
{
    lemma_paired(owners, meets, owners.len() as int);
}

/// What to work off next.
#[derive(Clone, Copy, Debug, PartialEq, Eq, Structural)]
pub enum Explosion {
    /// A tank killed this frame, by position in the frame's list.
    Wreck(usize),
    /// A barrel detonated this frame, by position in the frame's list.
    Blast(usize),
}

/// How far a frame's explosions have been worked off. Both lists may still
/// grow: a splash that kills a tank or a blast that sets off a barrel appends.
#[derive(Clone, Copy, Debug, PartialEq, Eq, Structural)]
pub struct ExplosionQueue {
    pub wrecks_done: usize,
    pub blasts_done: usize,
}

impl ExplosionQueue {
    /// Nothing worked off yet.
    #[verifier::allow_in_spec]
    pub fn start() -> ExplosionQueue
        returns
            (ExplosionQueue { wrecks_done: 0, blasts_done: 0 }),
    {
        ExplosionQueue { wrecks_done: 0, blasts_done: 0 }
    }

    /// The next explosion: every wreck before any barrel, each list in order,
    /// each entry once, none only when both lists are worked off.
    pub fn next(&mut self, kills: usize, blasts: usize) -> (step: Option<Explosion>)
        ensures
            old(self).wrecks_done < kills ==> step == Some(Explosion::Wreck(old(self).wrecks_done))
                && *final(self) == (ExplosionQueue {
                wrecks_done: (old(self).wrecks_done + 1) as usize,
                ..*old(self)
            }),
            old(self).wrecks_done >= kills && old(self).blasts_done < blasts ==> step == Some(
                Explosion::Blast(old(self).blasts_done),
            ) && *final(self) == (ExplosionQueue {
                blasts_done: (old(self).blasts_done + 1) as usize,
                ..*old(self)
            }),
            old(self).wrecks_done >= kills && old(self).blasts_done >= blasts ==> step is None
                && *final(self) == *old(self),
    {
        if self.wrecks_done < kills {
            self.wrecks_done = self.wrecks_done + 1;
            Some(Explosion::Wreck(self.wrecks_done - 1))
        } else if self.blasts_done < blasts {
            self.blasts_done = self.blasts_done + 1;
            Some(Explosion::Blast(self.blasts_done - 1))
        } else {
            None
        }
    }
}

/// The distance between two cells along the grid.
pub open spec fn steps_between(a: Cell, b: Cell) -> int {
    let (dc, dr) = (a.col - b.col, a.row - b.row);
    (if dc < 0 { -dc } else { dc }) + (if dr < 0 { -dr } else { dr })
}

/// One column of a pool, the first `n` cells from the top, without the centre.
pub open spec fn pool_column(center: Cell, reach: int, dc: int, n: int) -> Seq<Cell>
    decreases n,
{
    if n <= 0 {
        Seq::empty()
    } else {
        let before = pool_column(center, reach, dc, n - 1);
        let cell = Cell {
            col: (center.col + dc) as i32,
            row: (center.row - reach + n - 1) as i32,
        };
        if cell != center && steps_between(cell, center) <= reach {
            before.push(cell)
        } else {
            before
        }
    }
}

/// The first `m` columns of a pool, left to right.
pub open spec fn pool_columns(center: Cell, reach: int, m: int) -> Seq<Cell>
    decreases m,
{
    if m <= 0 {
        Seq::empty()
    } else {
        pool_columns(center, reach, m - 1) + pool_column(
            center,
            reach,
            m - 1 - reach,
            2 * reach + 1,
        )
    }
}

/// A pool: the centre, and then the columns around it.
pub open spec fn pool(center: Cell, reach: int) -> Seq<Cell> {
    seq![center] + pool_columns(center, reach, 2 * reach + 1)
}

/// A pool of this reach around a cell stays on the grid.
pub open spec fn pool_fits(center: Cell, reach: int) -> bool {
    &&& 0 <= reach < 0x4000_0000
    &&& i32::MIN <= center.col - reach && center.col + reach <= i32::MAX
    &&& i32::MIN <= center.row - reach && center.row + reach <= i32::MAX
}

/// The cells an oil drum's pool covers: a plus shape at reach one, a diamond
/// at more; fire runs out along the ground, not into corners.
pub fn pool_cells(center: Cell, reach: i32) -> (cells: Vec<Cell>)
    requires
        pool_fits(center, reach as int),
    ensures
        cells@ == pool(center, reach as int),
{
    let mut cells: Vec<Cell> = Vec::new();
    cells.push(center);
    assert(cells@ =~= seq![center] + pool_columns(center, reach as int, 0));
    let mut m: i32 = 0;
    while m < 2 * reach + 1
        invariant
            pool_fits(center, reach as int),
            0 <= m <= 2 * reach + 1,
            cells@ == seq![center] + pool_columns(center, reach as int, m as int),
        decreases 2 * reach + 1 - m,
    {
        let col: i32 = center.col + (m - reach);
        let ghost so_far = cells@;
        assert(so_far + Seq::<Cell>::empty() =~= so_far);
        let mut n: i32 = 0;
        while n < 2 * reach + 1
            invariant
                pool_fits(center, reach as int),
                0 <= m < 2 * reach + 1,
                0 <= n <= 2 * reach + 1,
                col == center.col + (m - reach),
                cells@ == so_far + pool_column(center, reach as int, m - reach, n as int),
            decreases 2 * reach + 1 - n,
        {
            let dc: i32 = m - reach;
            let dr: i32 = n - reach;
            let away: i32 = (if dc < 0 {
                -dc
            } else {
                dc
            }) + (if dr < 0 {
                -dr
            } else {
                dr
            });
            let cell: Cell = Cell { col, row: center.row + dr };
            assert(cell.row == center.row - reach + n);
            if cell != center && away <= reach {
                cells.push(cell);
            }
            n += 1;
            assert(cells@ =~= so_far + pool_column(center, reach as int, m - reach, n as int));
        }
        m += 1;
        assert(cells@ =~= seq![center] + pool_columns(center, reach as int, m as int));
    }
    cells
}

proof fn lemma_pool_column(center: Cell, reach: int, dc: int, n: int, cell: Cell)
    requires
        pool_fits(center, reach),
        -reach <= dc <= reach,
        0 <= n <= 2 * reach + 1,
    ensures
        pool_column(center, reach, dc, n).contains(cell) <==> {
            &&& cell.col == center.col + dc
            &&& center.row - reach <= cell.row < center.row - reach + n
            &&& cell != center
            &&& steps_between(cell, center) <= reach
        },
    decreases n,
{
    if n > 0 {
        lemma_pool_column(center, reach, dc, n - 1, cell);
        let before = pool_column(center, reach, dc, n - 1);
        let last = Cell {
            col: (center.col + dc) as i32,
            row: (center.row - reach + n - 1) as i32,
        };
        let after = pool_column(center, reach, dc, n);
        if after != before {
            assert(after == before.push(last));
            lemma_push_contains(before, last, cell);
        }
    }
}

proof fn lemma_push_contains<T>(s: Seq<T>, x: T, y: T)
    ensures
        s.push(x).contains(y) <==> s.contains(y) || y == x,
{
    assert(s.push(x)[s.len() as int] == x);
    if s.contains(y) {
        let k = choose|k: int| 0 <= k < s.len() && s[k] == y;
        assert(s.push(x)[k] == y);
    }
}

proof fn lemma_append_contains<T>(a: Seq<T>, b: Seq<T>, y: T)
    ensures
        (a + b).contains(y) <==> a.contains(y) || b.contains(y),
{
    if a.contains(y) {
        let k = choose|k: int| 0 <= k < a.len() && a[k] == y;
        assert((a + b)[k] == y);
    }
    if b.contains(y) {
        let k = choose|k: int| 0 <= k < b.len() && b[k] == y;
        assert((a + b)[a.len() + k] == y);
    }
}

proof fn lemma_pool_columns(center: Cell, reach: int, m: int, cell: Cell)
    requires
        pool_fits(center, reach),
        0 <= m <= 2 * reach + 1,
    ensures
        pool_columns(center, reach, m).contains(cell) <==> {
            &&& center.col - reach <= cell.col < center.col - reach + m
            &&& cell != center
            &&& steps_between(cell, center) <= reach
        },
    decreases m,
{
    if m > 0 {
        lemma_pool_columns(center, reach, m - 1, cell);
        lemma_pool_column(center, reach, m - 1 - reach, 2 * reach + 1, cell);
        lemma_append_contains(
            pool_columns(center, reach, m - 1),
            pool_column(center, reach, m - 1 - reach, 2 * reach + 1),
            cell,
        );
    }
}

/// A pool covers exactly the cells within reach of its centre.
pub proof fn a_pool_is_a_diamond(center: Cell, reach: int, cell: Cell)
    requires
        pool_fits(center, reach),
    ensures
        pool(center, reach).contains(cell) <==> steps_between(cell, center) <= reach,
{
    lemma_pool_columns(center, reach, 2 * reach + 1, cell);
    lemma_append_contains(
        seq![center],
        pool_columns(center, reach, 2 * reach + 1),
        cell,
    );
    assert(seq![center].contains(cell) <==> cell == center) by {
        assert(seq![center][0] == center);
    }
}

/// Those of the first `n` pieces of rubble that are picked up and thrown
/// again: lying still, inside the limit, and no more than `cap` of them.
pub open spec fn thrown_again(
    landed: Seq<bool>,
    distances: Seq<Scalar>,
    limit: Scalar,
    cap: int,
    n: int,
) -> Seq<int>
    decreases n,
{
    if n <= 0 {
        Seq::empty()
    } else {
        let before = thrown_again(landed, distances, limit, cap, n - 1);
        if before.len() < cap && landed[n - 1] && !limit.below(distances[n - 1]) {
            before.push(n - 1)
        } else {
            before
        }
    }
}

/// The rubble a blast throws again, by position, oldest first.
pub fn rethrown(
    landed: &Vec<bool>,
    distances: &Vec<Scalar>,
    limit: Scalar,
    cap: i32,
) -> (picked: Vec<usize>)
    requires
        distances@.len() == landed@.len(),
    ensures
        picked@.map_values(|i: usize| i as int) == thrown_again(
            landed@,
            distances@,
            limit,
            cap as int,
            landed@.len() as int,
        ),
        cap >= 0 ==> picked@.len() <= cap,
{
    let mut picked: Vec<usize> = Vec::new();
    assert(picked@.map_values(|i: usize| i as int) =~= Seq::<int>::empty());
    let mut n: usize = 0;
    while n < landed.len()
        invariant
            n <= landed@.len() == distances@.len(),
            cap >= 0 ==> picked@.len() <= cap,
            picked@.map_values(|i: usize| i as int) == thrown_again(
                landed@,
                distances@,
                limit,
                cap as int,
                n as int,
            ),
        decreases landed@.len() - n,
    {
        let room: bool = cap > 0 && picked.len() < cap as usize;
        assert(picked@.map_values(|i: usize| i as int).len() == picked@.len());
        if room && landed[n] && !limit.lt(distances[n]) {
            let ghost so_far = picked@;
            picked.push(n);
            assert(picked@.map_values(|i: usize| i as int) =~= so_far.map_values(
                |i: usize| i as int,
            ).push(n as int));
        }
        n += 1;
    }
    picked
}

/// How many delayed pops a blast queues: none when the cap is not positive,
/// else the hash's remainder, from none up to the cap.
pub open spec fn pops_queued(hash: u32, max: i32) -> int {
    if max <= 0 {
        0
    } else {
        hash as int % (max + 1)
    }
}

/// See [`pops_queued`].
pub fn cookoff_count(hash: u32, max: i32) -> (count: u32)
    ensures
        count == pops_queued(hash, max),
        max > 0 ==> count <= max,
{
    if max <= 0 {
        0
    } else {
        hash % (max as u32 + 1)
    }
}

/// An enemy that was shot knows it, and nothing else about its mind changes; a
/// seat has none.
pub proof fn a_shot_enemy_knows_it(mind: Option<Mind>)
    ensures
        mind is None ==> alerted(mind) is None,
        mind matches Some(m) ==> alerted(mind) is Some && alerted(mind)->0.hit_alerted && alerted(
            mind,
        )->0.role == m.role && alerted(mind)->0.target_player == m.target_player && alerted(
            mind,
        )->0.retreating == m.retreating,
{
}

/// A hit on a tank is told with who was hit, how hard and whether it died of it,
/// and a death is a kill where it happened.
pub proof fn a_hit_on_a_tank_is_told(
    f: Record,
    before: Tank,
    damage: Scalar,
    after: Tank,
    at: Point,
)
    ensures
        ({
            let g = tank_hit(f, before, damage, after, at);
            &&& g.events.len() == f.events.len() + 1
            &&& g.events.last() == (Event::Hit {
                target: match before.owner {
                    Owner::Player(player) => HitTarget::Player { player },
                    Owner::Enemy(slot) => HitTarget::Enemy { slot },
                },
                damage,
                killed: after.wreck,
                x: at.x,
                y: at.y,
            })
            &&& after.wreck ==> g.kills.len() == f.kills.len() + 1 && g.kills.last().victim
                == after.owner && g.kills.last().at == after.position
            &&& !after.wreck ==> g.kills == f.kills
            &&& g.pending_blasts == f.pending_blasts && g.rubble == f.rubble
        }),
{
}

/// A hit on a tile is told first, and what its death brings after it.
pub proof fn a_hit_on_a_tile_is_told(
    f: Record,
    tile: Tile,
    damage: Scalar,
    after: (Tile, bool),
    cause: DamageCause,
    at: Point,
)
    ensures
        ({
            let g = tile_hit(f, tile, damage, after, cause, at);
            let n = f.events.len() as int;
            &&& g.events.len() > n
            &&& g.events[n] == (Event::Hit {
                target: HitTarget::Obstacle { material: tile.material },
                damage,
                killed: after.1,
                x: at.x,
                y: at.y,
            })
            &&& !after.1 ==> g == (Record { events: g.events, ..f }) && g.events.len() == n + 1
            &&& after.1 ==> g.events[n + 1] == (Event::ObstacleDestroyed {
                material: after.0.material,
                x: after.0.position.x,
                y: after.0.position.y,
            })
            &&& after.1 && after.0.material == Material::Barrel ==> g.pending_blasts.len()
                == f.pending_blasts.len() + 1 && g.pending_blasts.last().center == after.0.position
                && g.pending_blasts.last().drum == after.0.drum
            &&& after.1 && after.0.material != Material::Barrel ==> g.pending_blasts
                == f.pending_blasts
        }),
{
}

/// An explosion reaches every tank no further off than its radius, and no wreck.
pub proof fn an_explosion_reaches_its_radius(wreck: bool, distance: Scalar, radius: Scalar)
    ensures
        wreck ==> !in_reach(wreck, distance, radius),
        !wreck && distance.at_most(radius) ==> in_reach(wreck, distance, radius),
        !wreck && radius.below(distance) ==> !in_reach(wreck, distance, radius),
{
}

proof fn lemma_seat_contacts(
    enemy: u64,
    seats: Seq<SeatAt>,
    touching: Seq<bool>,
    n: int,
    c: Contact,
)
    requires
        0 <= n <= seats.len(),
    ensures
        seat_contacts(enemy, seats, touching, n).contains(c) <==> c.a == enemy && !c.friendly
            && exists|s: int|
            0 <= s < n && (#[trigger] seats[s]).entity == c.b && touching[s] && !seats[s].concealed,
    decreases n,
{
    if n > 0 {
        lemma_seat_contacts(enemy, seats, touching, n - 1, c);
        let now = seat_contacts(enemy, seats, touching, n);
        let before = seat_contacts(enemy, seats, touching, n - 1);
        if before.contains(c) {
            let k = choose|k: int| 0 <= k < before.len() && before[k] == c;
            assert(now[k] == c);
        }
        if now.len() > before.len() {
            assert(now.last().b == seats[n - 1].entity);
            if now.contains(c) {
                let k = choose|k: int| 0 <= k < now.len() && now[k] == c;
                if k < before.len() {
                    assert(before[k] == c);
                }
            }
            if c == now.last() {
                assert(now[before.len() as int] == c);
            }
        }
    }
}

proof fn lemma_enemy_seat_contacts(
    enemies: Seq<u64>,
    seats: Seq<SeatAt>,
    touching: Seq<Vec<bool>>,
    n: int,
    c: Contact,
)
    requires
        0 <= n <= enemies.len(),
    ensures
        enemy_seat_contacts(enemies, seats, touching, n).contains(c) <==> !c.friendly && exists|
            e: int,
            s: int,
        |
            0 <= e < n && 0 <= s < seats.len() && #[trigger] enemies[e] == c.a && (
            #[trigger] seats[s]).entity == c.b && touching[e]@[s] && !seats[s].concealed,
    decreases n,
{
    if n > 0 {
        lemma_enemy_seat_contacts(enemies, seats, touching, n - 1, c);
        let before = enemy_seat_contacts(enemies, seats, touching, n - 1);
        let more = seat_contacts(enemies[n - 1], seats, touching[n - 1]@, seats.len() as int);
        let now = enemy_seat_contacts(enemies, seats, touching, n);
        lemma_seat_contacts(
            enemies[n - 1],
            seats,
            touching[n - 1]@,
            seats.len() as int,
            c,
        );
        if before.contains(c) {
            let k = choose|k: int| 0 <= k < before.len() && before[k] == c;
            assert(now[k] == c);
        }
        if more.contains(c) {
            let k = choose|k: int| 0 <= k < more.len() && more[k] == c;
            assert(now[before.len() + k] == c);
        }
        if now.contains(c) {
            let k = choose|k: int| 0 <= k < now.len() && now[k] == c;
            if k < before.len() {
                assert(before[k] == c);
            } else {
                assert(more[k - before.len()] == c);
            }
        }
        if exists|e: int, s: int|
            0 <= e < n && 0 <= s < seats.len() && #[trigger] enemies[e] == c.a && (
            #[trigger] seats[s]).entity == c.b && touching[e]@[s] && !seats[s].concealed {
            let (e, s) = choose|e: int, s: int|
                0 <= e < n && 0 <= s < seats.len() && #[trigger] enemies[e] == c.a && (
                #[trigger] seats[s]).entity == c.b && touching[e]@[s] && !seats[s].concealed;
            assert(seats[s].entity == c.b);
        }
    }
}

/// An enemy rams every player it touches and has not lost in the grass, and no
/// other; two players who touch ram each other last.
pub proof fn a_touched_player_in_sight_is_rammed(
    enemies: Seq<u64>,
    seats: Seq<SeatAt>,
    touching: Seq<Vec<bool>>,
    seats_touch: bool,
    c: Contact,
)
    ensures
        seat_rams(enemies, seats, touching, seats_touch).contains(c) <==> {
            ||| c.friendly && seats.len() == 2 && seats_touch && c.a == seats[0].entity && c.b
                == seats[1].entity
            ||| !c.friendly && exists|e: int, s: int|
                0 <= e < enemies.len() && 0 <= s < seats.len() && #[trigger] enemies[e] == c.a && (
                #[trigger] seats[s]).entity == c.b && touching[e]@[s] && !seats[s].concealed
        },
{
    let found = enemy_seat_contacts(enemies, seats, touching, enemies.len() as int);
    let all = seat_rams(enemies, seats, touching, seats_touch);
    lemma_enemy_seat_contacts(enemies, seats, touching, enemies.len() as int, c);
    if found.contains(c) {
        let k = choose|k: int| 0 <= k < found.len() && found[k] == c;
        assert(all[k] == c);
    }
    if seats.len() == 2 && seats_touch {
        assert(all[found.len() as int] == all.last());
        if all.contains(c) {
            let k = choose|k: int| 0 <= k < all.len() && all[k] == c;
            if k < found.len() {
                assert(found[k] == c);
            }
        }
    }
}

proof fn lemma_contacts_after(
    order: Seq<EnemyAt>,
    touching: Seq<Vec<bool>>,
    i: int,
    n: int,
    j: int,
)
    requires
        0 <= i < j < n <= order.len(),
        touching[order[i].index as int]@[order[j].index as int],
    ensures
        contacts_after(order, touching, i, n).contains(
            (Contact { a: order[i].entity, b: order[j].entity, friendly: false }),
        ),
    decreases n,
{
    let c = Contact { a: order[i].entity, b: order[j].entity, friendly: false };
    let now = contacts_after(order, touching, i, n);
    let before = contacts_after(order, touching, i, n - 1);
    if j == n - 1 {
        assert(now.last() == c);
    } else {
        lemma_contacts_after(order, touching, i, n - 1, j);
        let k = choose|k: int| 0 <= k < before.len() && before[k] == c;
        assert(now[k] == c);
    }
}

proof fn lemma_pair_contacts(
    order: Seq<EnemyAt>,
    touching: Seq<Vec<bool>>,
    i: int,
    j: int,
    n: int,
)
    requires
        0 <= i < j < order.len(),
        i < n <= order.len(),
        touching[order[i].index as int]@[order[j].index as int],
    ensures
        pair_contacts(order, touching, n).contains(
            (Contact { a: order[i].entity, b: order[j].entity, friendly: false }),
        ),
    decreases n,
{
    let c = Contact { a: order[i].entity, b: order[j].entity, friendly: false };
    let now = pair_contacts(order, touching, n);
    let before = pair_contacts(order, touching, n - 1);
    let more = contacts_after(order, touching, n - 1, order.len() as int);
    if i == n - 1 {
        lemma_contacts_after(order, touching, i, order.len() as int, j);
        let k = choose|k: int| 0 <= k < more.len() && more[k] == c;
        assert(now[before.len() + k] == c);
    } else {
        lemma_pair_contacts(order, touching, i, j, n - 1);
        let k = choose|k: int| 0 <= k < before.len() && before[k] == c;
        assert(now[k] == c);
    }
}

/// Two enemies who touch ram each other, once, the one in the lower slot first.
pub proof fn enemies_who_touch_ram_each_other(
    enemies: Seq<EnemyAt>,
    touching: Seq<Vec<bool>>,
    p: int,
    q: int,
)
    requires
        0 <= p < enemies.len(),
        0 <= q < enemies.len(),
        enemies[p].slot < enemies[q].slot,
        touching[enemies[p].index as int]@[enemies[q].index as int],
    ensures
        pair_contacts(ranked(enemies), touching, enemies.len() as int).contains(
            (Contact { a: enemies[p].entity, b: enemies[q].entity, friendly: false }),
        ),
{
    let order = ranked(enemies);
    crate::ranking::ranking_sorts(enemies);
    crate::ranking::same_members(enemies, order, p);
    crate::ranking::same_members(enemies, order, q);
    let i = choose|i: int| 0 <= i < order.len() && order[i] == enemies[p];
    let j = choose|j: int| 0 <= j < order.len() && order[j] == enemies[q];
    if j <= i {
        assert(!order[i].ahead(order[j]));
    }
    lemma_pair_contacts(order, touching, i, j, enemies.len() as int);
}

proof fn lemma_some_partner(
    owners: Seq<Owner>,
    meets: Seq<Vec<bool>>,
    claimed: Seq<bool>,
    i: int,
    j: int,
    m: int,
)
    requires
        j <= m < owners.len(),
        owners[i].is_seat() != owners[m].is_seat(),
        !claimed[m],
        meets[i]@[m],
    ensures
        partner(owners, meets, claimed, i, j) is Some,
    decreases owners.len() - j,
{
    if j < m {
        lemma_some_partner(owners, meets, claimed, i, j + 1, m);
    }
}

proof fn lemma_claimed(owners: Seq<Owner>, meets: Seq<Vec<bool>>, i: int, j: int, n: int)
    requires
        0 <= i < j < owners.len(),
        i < n <= owners.len(),
        owners[i].is_seat() != owners[j].is_seat(),
        meets[i]@[j],
    ensures
        paired(owners, meets, n).1[i] || paired(owners, meets, n).1[j],
    decreases n,
{
    let (pairs, claimed) = paired(owners, meets, n - 1);
    lemma_paired(owners, meets, n - 1);
    lemma_partner(owners, meets, claimed, n - 1, n);
    if i == n - 1 {
        if !claimed[i] && !claimed[j] {
            lemma_some_partner(owners, meets, claimed, i, n, j);
        }
    } else {
        lemma_claimed(owners, meets, i, j, n - 1);
    }
}

proof fn lemma_claimed_is_paired(owners: Seq<Owner>, meets: Seq<Vec<bool>>, n: int, s: int)
    requires
        0 <= n <= owners.len(),
        0 <= s < owners.len(),
        paired(owners, meets, n).1[s],
    ensures
        exists|p: int|
            0 <= p < paired(owners, meets, n).0.len() && ({
                let pair = #[trigger] paired(owners, meets, n).0[p];
                pair.0 == s || pair.1 == s
            }),
    decreases n,
{
    if n > 0 {
        let (pairs, claimed) = paired(owners, meets, n - 1);
        let now = paired(owners, meets, n).0;
        lemma_paired(owners, meets, n - 1);
        lemma_partner(owners, meets, claimed, n - 1, n);
        if claimed[s] {
            lemma_claimed_is_paired(owners, meets, n - 1, s);
            let p = choose|p: int|
                0 <= p < pairs.len() && ({
                    let pair = #[trigger] pairs[p];
                    pair.0 == s || pair.1 == s
                });
            assert(now[p] == pairs[p]);
        } else {
            assert(now.last().0 == s || now.last().1 == s);
            assert(now[pairs.len() as int] == now.last());
        }
    }
}

/// Of two shells of opposing sides that meet, one at least is cancelled, by the
/// other or by one it met before; two shells of one side never cancel.
pub proof fn opposing_shells_that_meet_cancel(
    owners: Seq<Owner>,
    meets: Seq<Vec<bool>>,
    i: int,
    j: int,
)
    requires
        0 <= i < j < owners.len(),
        owners[i] is Player != owners[j] is Player,
        meets[i]@[j],
    ensures
        ({
            let pairs = paired(owners, meets, owners.len() as int).0;
            &&& exists|p: int|
                0 <= p < pairs.len() && ({
                    let pair = #[trigger] pairs[p];
                    pair.0 == i || pair.1 == i || pair.0 == j || pair.1 == j
                })
            &&& forall|p: int|
                0 <= p < pairs.len() ==> ({
                    let pair = #[trigger] pairs[p];
                    owners[pair.0] is Player != owners[pair.1] is Player && meets[pair.0]@[pair.1]
                })
        }),
{
    let n = owners.len() as int;
    lemma_paired(owners, meets, n);
    lemma_claimed(owners, meets, i, j, n);
    if paired(owners, meets, n).1[i] {
        lemma_claimed_is_paired(owners, meets, n, i);
    } else {
        lemma_claimed_is_paired(owners, meets, n, j);
    }
}

/// A pool covers a cell exactly when the columns and the rows between it and the
/// centre come to no more than the pool's reach.
pub proof fn a_pool_reaches_so_many_steps(center: Cell, reach: int, cell: Cell)
    requires
        pool_fits(center, reach),
    ensures
        pool(center, reach).contains(cell) <==> (if cell.col < center.col {
            center.col - cell.col
        } else {
            cell.col - center.col
        }) + (if cell.row < center.row {
            center.row - cell.row
        } else {
            cell.row - center.row
        }) <= reach,
{
    a_pool_is_a_diamond(center, reach, cell);
}

/// What a blast throws again lies still, inside the limit, and is listed in its
/// order; nothing that may be thrown is left while there is room for it.
pub proof fn what_lies_in_the_blast_is_thrown_again(
    landed: Seq<bool>,
    distances: Seq<Scalar>,
    limit: Scalar,
    cap: int,
    n: int,
)
    requires
        0 <= n <= landed.len() == distances.len(),
        0 <= cap,
    ensures
        ({
            let picked = thrown_again(landed, distances, limit, cap, n);
            &&& picked.len() <= cap
            &&& forall|k: int|
                0 <= k < picked.len() ==> 0 <= #[trigger] picked[k] < n && landed[picked[k]]
                    && !limit.below(distances[picked[k]])
            &&& picked.len() < cap ==> forall|i: int|
                0 <= i < n && #[trigger] landed[i] && !limit.below(distances[i])
                    ==> picked.contains(i)
        }),
    decreases n,
{
    if n > 0 {
        what_lies_in_the_blast_is_thrown_again(landed, distances, limit, cap, n - 1);
        let (now, before) = (
            thrown_again(landed, distances, limit, cap, n),
            thrown_again(landed, distances, limit, cap, n - 1),
        );
        if now.len() < cap {
            assert forall|i: int|
                0 <= i < n && #[trigger] landed[i] && !limit.below(distances[i]) implies
                now.contains(i) by {
                if i == n - 1 {
                    assert(now.last() == i);
                } else {
                    assert(before.contains(i));
                    let k = choose|k: int| 0 <= k < before.len() && before[k] == i;
                    assert(now[k] == i);
                }
            }
        }
    }
}

/// A blast queues at most so many pops as it is tuned to, and none where that
/// is nothing.
pub proof fn a_blast_queues_no_more_pops_than_tuned(hash: u32, max: i32)
    ensures
        max <= 0 ==> pops_queued(hash, max) == 0,
        max > 0 ==> 0 <= pops_queued(hash, max) <= max,
        max > 0 && hash <= max ==> pops_queued(hash, max) == hash,
{
    if max > 0 && hash <= max {
        vstd::arithmetic::div_mod::lemma_small_mod(hash as nat, (max + 1) as nat);
    }
}

} // verus!
