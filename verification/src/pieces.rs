//! What stands on the battlefield, as far as the rules read it.

use vstd::prelude::*;

use crate::kinds::{
    ActiveWeapon, Cell, Drum, LaserVariant, Material, Owner, PickupKind, PlasmaVariant, Role, Side,
};
use crate::scalar::{Point, Scalar};

verus! {

/// An enemy's mind, as far as the rules read it.
#[derive(Clone, Copy, Debug, PartialEq, Eq, Structural)]
pub struct Mind {
    pub role: Role,
    /// The seat this enemy is fighting.
    pub target_player: u8,
    /// Shot recently enough to know where from.
    pub hit_alerted: bool,
    /// Backing off to recharge shells.
    pub retreating: bool,
}

/// Special weapons waiting their turn, first come first. There is room for all
/// of them beside the one in use.
#[derive(Clone, Copy, Debug, PartialEq, Eq, Structural)]
pub struct WeaponQueue {
    pub first: Option<ActiveWeapon>,
    pub second: Option<ActiveWeapon>,
    pub third: Option<ActiveWeapon>,
    pub fourth: Option<ActiveWeapon>,
}

impl WeaponQueue {
    /// Nothing waits.
    #[verifier::allow_in_spec]
    pub fn empty() -> WeaponQueue
        returns
            (WeaponQueue { first: None, second: None, third: None, fourth: None }),
    {
        WeaponQueue { first: None, second: None, third: None, fourth: None }
    }

    /// The weapon waits already.
    pub open spec fn holds(self, w: ActiveWeapon) -> bool {
        self.first == Some(w) || self.second == Some(w) || self.third == Some(w) || self.fourth
            == Some(w)
    }

    /// The weapon behind everything that waits.
    pub open spec fn behind(self, w: ActiveWeapon) -> WeaponQueue {
        if self.first is None {
            WeaponQueue { first: Some(w), ..self }
        } else if self.second is None {
            WeaponQueue { second: Some(w), ..self }
        } else if self.third is None {
            WeaponQueue { third: Some(w), ..self }
        } else if self.fourth is None {
            WeaponQueue { fourth: Some(w), ..self }
        } else {
            self
        }
    }

    /// Everything has moved up one.
    pub open spec fn moved_up(self) -> WeaponQueue {
        WeaponQueue { first: self.second, second: self.third, third: self.fourth, fourth: None }
    }
}

fn is_weapon(place: Option<ActiveWeapon>, w: ActiveWeapon) -> (r: bool)
    ensures
        r == (place == Some(w)),
{
    match place {
        Some(x) => x == w,
        None => false,
    }
}

/// A tank that is handed a special weapon: it takes it up at once if it fires
/// shells, and else queues it behind the others, unless it has it already.
pub open spec fn armed_with(t: Tank, w: ActiveWeapon) -> Tank {
    if t.weapon == w || t.queue.holds(w) {
        t
    } else if t.weapon == ActiveWeapon::Shell {
        Tank { weapon: w, ..t }
    } else {
        Tank { queue: t.queue.behind(w), ..t }
    }
}

/// A tank whose special weapon has run dry: the next in the queue comes up, and
/// after the last of them shells.
pub open spec fn weapon_spent(t: Tank) -> Tank {
    Tank {
        weapon: match t.queue.first {
            Some(w) => w,
            None => ActiveWeapon::Shell,
        },
        queue: t.queue.moved_up(),
        ..t
    }
}

impl Tank {
    /// Hand the tank a special weapon.
    pub fn enqueue_weapon(&mut self, w: ActiveWeapon)
        ensures
            *final(self) == armed_with(*old(self), w),
    {
        let q: WeaponQueue = self.queue;
        if self.weapon == w || is_weapon(q.first, w) || is_weapon(q.second, w) || is_weapon(
            q.third,
            w,
        ) || is_weapon(q.fourth, w) {
            return ;
        }
        if self.weapon == ActiveWeapon::Shell {
            self.weapon = w;
        } else if q.first.is_none() {
            self.queue.first = Some(w);
        } else if q.second.is_none() {
            self.queue.second = Some(w);
        } else if q.third.is_none() {
            self.queue.third = Some(w);
        } else if q.fourth.is_none() {
            self.queue.fourth = Some(w);
        }
    }

    /// The special weapon in use has run dry.
    pub fn spend_weapon(&mut self)
        ensures
            *final(self) == weapon_spent(*old(self)),
    {
        let q: WeaponQueue = self.queue;
        self.weapon = match q.first {
            Some(w) => w,
            None => ActiveWeapon::Shell,
        };
        self.queue = WeaponQueue {
            first: q.second,
            second: q.third,
            third: q.fourth,
            fourth: None,
        };
    }
}

/// Special weapons come up in the order they were collected.
pub proof fn weapons_come_up_in_turn(t: Tank, a: ActiveWeapon, b: ActiveWeapon)
    requires
        t.weapon == ActiveWeapon::Shell,
        t.queue == WeaponQueue::empty(),
        a != ActiveWeapon::Shell,
        b != ActiveWeapon::Shell,
        a != b,
    ensures
        armed_with(armed_with(t, a), b).weapon == a,
        weapon_spent(armed_with(armed_with(t, a), b)).weapon == b,
        weapon_spent(weapon_spent(armed_with(armed_with(t, a), b))).weapon == ActiveWeapon::Shell,
{
}

/// What a tank's hull touches.
#[derive(Clone, Copy, Debug, PartialEq, Eq, Structural)]
pub struct HullContact {
    pub touching_static: bool,
    pub touching_tank: bool,
    /// The strongest impulse on the hull.
    pub impulse: Scalar,
}

impl HullContact {
    /// Touching nothing.
    pub open spec fn nothing() -> HullContact {
        HullContact { touching_static: false, touching_tank: false, impulse: Scalar::zero() }
    }

    pub fn none() -> (c: HullContact)
        ensures
            c == HullContact::nothing(),
    {
        HullContact { touching_static: false, touching_tank: false, impulse: Scalar::zero() }
    }
}

/// A tank, a seat's or an enemy's.
#[derive(Clone, Copy, Debug, PartialEq, Eq, Structural)]
pub struct Tank {
    pub owner: Owner,
    /// Chassis row.
    pub row: i32,
    pub position: Point,
    pub rotation: Scalar,
    /// The velocity it was told to drive at.
    pub commanded: Point,
    /// That scaled by the throttle: what was asked of the body.
    pub asked: Point,
    /// The body's own velocity.
    pub velocity: Point,
    /// Top speed as rolled, before damage and boost.
    pub top_speed: Scalar,
    pub contact: HullContact,
    pub damage: Scalar,
    /// Damage has reached the hull's limit.
    pub wreck: bool,
    /// A wreck that has burnt out.
    pub burnt_out: bool,
    /// Charge left in the shield.
    pub shield: Scalar,
    /// Seconds until the shield starts to recharge.
    pub shield_delay: Scalar,
    /// The shield ran out and nobody has said so yet.
    pub shield_broke: bool,
    /// Stands on the field with a body of its own.
    pub has_body: bool,
    /// Still driving in through a gate.
    pub rolling_in: bool,
    /// An enemy's mind; a seat's tank has none.
    pub mind: Option<Mind>,
    /// The weapon it fires.
    pub weapon: ActiveWeapon,
    /// The special weapons waiting behind it.
    pub queue: WeaponQueue,
    pub shells: i32,
    pub laser_charges: i32,
    pub minigun_ammo: i32,
    pub missile_ammo: i32,
    pub plasma_ammo: i32,
    /// Seconds of flame left.
    pub flame_fuel: Scalar,
    /// Seconds of speed boost left.
    pub speed_boost: Scalar,
    pub fire_cooldown: Scalar,
    pub ram_cooldown: Scalar,
    pub portal_cooldown: Scalar,
    /// Seconds of afterburn left.
    pub burn_timer: Scalar,
    /// The flame trigger was held last frame.
    pub flame_held: bool,
    pub laser_variant: LaserVariant,
    pub plasma_variant: PlasmaVariant,
    /// The sprite row of its shells.
    pub shell_variant: i32,
    /// Which set of damage marks it shows.
    pub damage_variant: i32,
    /// The wrecked hull's sprite column, once rolled.
    pub wreck_col: Option<i32>,
}

impl Tank {
    /// The tank's round slot.
    pub open spec fn slot(self) -> usize {
        self.owner.round_slot()
    }

    pub fn owner_slot(&self) -> (slot: usize)
        ensures
            slot == self.slot(),
    {
        self.owner.slot()
    }

    /// A shot that strikes it is thrown back.
    pub open spec fn deflects(self) -> bool {
        Scalar::zero().below(self.shield) && !self.wreck
    }
}

/// What one blow comes to, in the host's arithmetic.
#[derive(Clone, Copy, Debug, PartialEq, Eq, Structural)]
pub struct Wound {
    /// The shield's charge less the blow, not below zero.
    pub shield_left: Scalar,
    /// The hull's damage plus the blow, not above the cap.
    pub damage: Scalar,
    /// Seconds a spent shield waits before it recharges.
    pub recharge_delay: Scalar,
    /// Damage at which a hull is a wreck.
    pub limit: Scalar,
}

/// A tank whose shield was struck. A shield that has nothing left shatters.
pub open spec fn shield_spent(t: Tank, left: Scalar, delay: Scalar) -> Tank {
    Tank {
        shield: left,
        shield_delay: delay,
        shield_broke: t.shield_broke || !Scalar::zero().below(left),
        ..t
    }
}

/// A tank that took a blow: a shield absorbs it whole, however large it was,
/// and nothing of it reaches the hull.
pub open spec fn wounded(t: Tank, w: Wound) -> Tank {
    if Scalar::zero().below(t.shield) {
        shield_spent(t, w.shield_left, w.recharge_delay)
    } else {
        Tank { damage: w.damage, wreck: w.limit.at_most(w.damage), ..t }
    }
}

/// The tank took one blow and nothing else happened to it.
pub open spec fn took_blow(t: Tank, after: Tank) -> bool {
    exists|w: Wound| after == #[trigger] wounded(t, w)
}

/// While a shield has charge left, a blow of any size touches nothing but the
/// shield; without one it touches nothing but the hull.
pub proof fn a_shield_takes_a_blow_whole(t: Tank, after: Tank)
    requires
        took_blow(t, after),
    ensures
        Scalar::zero().below(t.shield) ==> after.damage == t.damage && after.wreck == t.wreck,
        !Scalar::zero().below(t.shield) ==> after.shield == t.shield && after.shield_broke
            == t.shield_broke,
        after == (Tank {
            damage: after.damage,
            wreck: after.wreck,
            shield: after.shield,
            shield_delay: after.shield_delay,
            shield_broke: after.shield_broke,
            ..t
        }),
{
}

/// A tank once a frame has gone by for its shield: a live one waits its delay
/// out and recharges; a shattered one stays shattered.
pub open spec fn shield_ticked(t: Tank, delay_left: Scalar, recharged: Scalar) -> Tank {
    if !Scalar::zero().below(t.shield) {
        t
    } else if Scalar::zero().below(t.shield_delay) {
        Tank { shield_delay: delay_left, ..t }
    } else {
        Tank { shield: recharged, ..t }
    }
}

impl Tank {
    /// Charge left in the shield.
    pub fn is_shielded(&self) -> (r: bool)
        ensures
            r == Scalar::zero().below(self.shield),
    {
        self.shield.positive()
    }

    /// Take charge off a live shield.
    pub fn spend_shield(&mut self, left: Scalar, delay: Scalar)
        ensures
            *final(self) == (if Scalar::zero().below(old(self).shield) {
                shield_spent(*old(self), left, delay)
            } else {
                *old(self)
            }),
    {
        if self.shield.positive() {
            self.shield = left;
            self.shield_delay = delay;
            if !left.positive() {
                self.shield_broke = true;
            }
        }
    }

    /// Take a blow. Returns whether any of it reached the hull.
    pub fn take_damage(&mut self, w: &Wound) -> (landed: bool)
        ensures
            *final(self) == wounded(*old(self), *w),
            landed == !Scalar::zero().below(old(self).shield),
    {
        if self.shield.positive() {
            self.spend_shield(w.shield_left, w.recharge_delay);
            return false;
        }
        self.damage = w.damage;
        self.wreck = w.limit.le(w.damage);
        true
    }

    /// A frame goes by for the shield: its delay would be down to
    /// `delay_left`, its charge up to `recharged`.
    pub fn tick_shield(&mut self, delay_left: Scalar, recharged: Scalar)
        ensures
            *final(self) == shield_ticked(*old(self), delay_left, recharged),
    {
        if !self.shield.positive() {
            return;
        }
        if self.shield_delay.positive() {
            self.shield_delay = delay_left;
        } else {
            self.shield = recharged;
        }
    }
}

/// However large a blow, a shielded hull is not hurt by it.
pub proof fn a_shield_absorbs_a_blow_whole(t: Tank, w: Wound)
    requires
        Scalar::zero().below(t.shield),
    ensures
        wounded(t, w).damage == t.damage,
        wounded(t, w).wreck == t.wreck,
        !Scalar::zero().below(w.shield_left) ==> wounded(t, w).shield_broke,
{
}

/// A shattered shield never comes back by waiting.
pub proof fn a_broken_shield_stays_broken(t: Tank, delay_left: Scalar, recharged: Scalar)
    requires
        !Scalar::zero().below(t.shield),
    ensures
        shield_ticked(t, delay_left, recharged) == t,
{
}

/// A frog.
#[derive(Clone, Copy, Debug, PartialEq, Eq, Structural)]
pub struct Frog {
    pub side: Side,
    pub position: Point,
    pub health: Scalar,
    pub max_health: Scalar,
    pub variant: i32,
    pub dead: bool,
    /// Ready to bite.
    pub can_attack: bool,
    /// Ready to hop.
    pub can_hop: bool,
}

impl Frog {
    /// Alive with nothing to heal.
    pub open spec fn full(self) -> bool {
        !self.dead && self.max_health.at_most(self.health)
    }

    pub fn at_full_health(&self) -> (r: bool)
        ensures
            r == self.full(),
    {
        !self.dead && self.max_health.le(self.health)
    }
}

/// A barrel's lit fuse.
#[derive(Clone, Copy, Debug, PartialEq, Eq, Structural)]
pub struct Fuse {
    /// Seconds left.
    pub left: Scalar,
    pub total: Scalar,
    /// What lit it, if it was a blast.
    pub from: Option<Point>,
}

/// A standing tile: a wall, a prop or a tree.
#[derive(Clone, Copy, Debug, PartialEq, Eq, Structural)]
pub struct Tile {
    pub position: Point,
    pub cell: Cell,
    pub material: Material,
    pub variant: i32,
    /// Which drum, for a barrel.
    pub drum: Drum,
    pub health: Scalar,
    pub max_health: Scalar,
    /// Gone at the end of this frame.
    pub destroyed: bool,
    pub burning: bool,
    /// Catches fire when something beside it burns.
    pub flammable: bool,
    pub fuse: Option<Fuse>,
    /// Seconds a tank has been pushing.
    pub ram_timer: Scalar,
    /// Seconds under a flame.
    pub heat: Scalar,
    /// Which of its eight neighbours are walls too.
    pub edge_mask: u8,
    /// Which of a wall's faces are sooted.
    pub soot: u8,
}

impl Tile {
    /// Nothing can hurt it any more: gone, alight or about to go off.
    pub open spec fn spent(self) -> bool {
        self.destroyed || self.burning || self.fuse is Some
    }
}

/// A thing lying on the field to be driven over.
#[derive(Clone, Copy, Debug, PartialEq, Eq, Structural)]
pub struct Pickup {
    pub kind: PickupKind,
    pub position: Point,
}

/// Which projectile a shot is.
#[derive(Clone, Copy, Debug, PartialEq, Eq, Structural)]
pub enum ProvisionalKind {
    Shell,
    Bullet,
    Plasma,
}

/// Where a shot is in its life.
#[derive(Clone, Copy, Debug, PartialEq, Eq, Structural)]
pub enum ShotState {
    Flying,
    /// Playing its impact.
    Bursting,
    /// Finished.
    Done,
}

/// A projectile in flight or bursting.
#[derive(Clone, Copy, Debug, PartialEq, Eq, Structural)]
pub struct Shot {
    pub kind: ProvisionalKind,
    pub id: u32,
    pub owner: Owner,
    pub position: Point,
    /// Where it was a frame ago.
    pub prev_position: Point,
    pub velocity: Point,
    pub rotation: Scalar,
    /// A shell's sprite row; zero for the others.
    pub variant: i32,
    /// A bolt's; teal for the others.
    pub plasma_variant: PlasmaVariant,
    /// The chassis row it was fired from.
    pub shooter_row: i32,
    pub state: ShotState,
}

/// A seeker missile.
#[derive(Clone, Copy, Debug, PartialEq, Eq, Structural)]
pub struct Missile {
    pub id: u32,
    pub owner: Owner,
    pub position: Point,
    /// Where it will come down.
    pub aim: Point,
    /// How far beside what it locked it comes down, by its tube.
    pub offset: Point,
    /// The tank it follows.
    pub target: Option<u64>,
    /// Done climbing.
    pub climbed: bool,
    /// Has chosen what it comes down on.
    pub locked: bool,
    /// Past the point of following anything.
    pub diving: bool,
    /// On the ground.
    pub arrived: bool,
}

/// Anything on the field.
#[derive(Clone, Copy, Debug, PartialEq, Eq, Structural)]
pub enum Piece {
    Tank(Tank),
    Frog(Frog),
    Tile(Tile),
    Pickup(Pickup),
    Shot(Shot),
    Missile(Missile),
}

/// A weapon a tank is handed: one it fires or has waiting changes nothing; a
/// tank on shells takes it up at once; any other has it behind all that wait.
pub proof fn a_weapon_is_taken_up_or_queued(t: Tank, w: ActiveWeapon)
    ensures
        ({
            let after = armed_with(t, w);
            let q = t.queue;
            let known = t.weapon == w || q.first == Some(w) || q.second == Some(w) || q.third == Some(
                w,
            ) || q.fourth == Some(w);
            &&& after == (Tank { weapon: after.weapon, queue: after.queue, ..t })
            &&& known ==> after == t
            &&& !known && t.weapon == ActiveWeapon::Shell ==> after.weapon == w && after.queue == q
            &&& !known && t.weapon != ActiveWeapon::Shell ==> after.weapon == t.weapon
            &&& !known && t.weapon != ActiveWeapon::Shell && q.first is None ==> after.queue == (
            WeaponQueue { first: Some(w), ..q })
            &&& !known && t.weapon != ActiveWeapon::Shell && q.first is Some && q.second is None
                ==> after.queue == (WeaponQueue { second: Some(w), ..q })
            &&& !known && t.weapon != ActiveWeapon::Shell && q.first is Some && q.second is Some
                && q.third is None ==> after.queue == (WeaponQueue { third: Some(w), ..q })
            &&& !known && t.weapon != ActiveWeapon::Shell && q.first is Some && q.second is Some
                && q.third is Some && q.fourth is None ==> after.queue == (WeaponQueue {
                fourth: Some(w),
                ..q
            })
        }),
{
}

/// When a special weapon has run dry the first in the queue comes up and the
/// others move up; with none waiting the tank is back on shells.
pub proof fn a_dry_weapon_gives_way_to_the_next(t: Tank)
    ensures
        ({
            let after = weapon_spent(t);
            &&& t.queue.first matches Some(w) ==> after.weapon == w
            &&& t.queue.first is None ==> after.weapon == ActiveWeapon::Shell
            &&& after.queue.first == t.queue.second && after.queue.second == t.queue.third
            &&& after.queue.third == t.queue.fourth && after.queue.fourth is None
            &&& after == (Tank { weapon: after.weapon, queue: after.queue, ..t })
        }),
{
}

/// What a blow does. On a live shield it takes off the shield alone, which waits
/// before it recharges and shatters when nothing is left; on a bare hull it does
/// damage, and a hull damaged to its limit is a wreck.
pub proof fn a_blow_on_shield_or_hull(t: Tank, w: Wound)
    ensures
        ({
            let after = wounded(t, w);
            let shielded = Scalar::zero().below(t.shield);
            &&& shielded ==> {
                &&& after.shield == w.shield_left && after.shield_delay == w.recharge_delay
                &&& after.shield_broke == (t.shield_broke || !Scalar::zero().below(w.shield_left))
                &&& after.damage == t.damage && after.wreck == t.wreck
            }
            &&& !shielded ==> {
                &&& after.damage == w.damage
                &&& after.wreck <==> w.limit.at_most(w.damage)
                &&& after.shield == t.shield && after.shield_delay == t.shield_delay
                &&& after.shield_broke == t.shield_broke
            }
            &&& after.weapon == t.weapon && after.owner == t.owner && after.position == t.position
            &&& after.mind == t.mind && after.shells == t.shells
        }),
{
}

/// A live shield first waits its delay out and then recharges.
pub proof fn a_shield_waits_and_recharges(t: Tank, delay_left: Scalar, recharged: Scalar)
    requires
        Scalar::zero().below(t.shield),
    ensures
        Scalar::zero().below(t.shield_delay) ==> shield_ticked(t, delay_left, recharged) == (Tank {
            shield_delay: delay_left,
            ..t
        }),
        !Scalar::zero().below(t.shield_delay) ==> shield_ticked(t, delay_left, recharged) == (Tank {
            shield: recharged,
            ..t
        }),
{
}

/// A tank throws shots back while it runs and its shield has charge; a frog is
/// full while it lives with all its health; a tile that is gone, burning or on a
/// fuse is spent, and any other stands.
pub proof fn what_a_piece_says_of_itself(t: Tank, fr: Frog, tile: Tile)
    ensures
        t.deflects() <==> !t.wreck && Scalar::zero().below(t.shield),
        fr.full() <==> !fr.dead && fr.max_health.at_most(fr.health),
        tile.spent() <==> tile.destroyed || tile.burning || tile.fuse is Some,
        t.owner matches Owner::Player(seat) ==> t.slot() == seat,
        t.owner matches Owner::Enemy(slot) ==> t.slot() == slot,
{
}

} // verus!
