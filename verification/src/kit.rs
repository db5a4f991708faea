//! What a tank starts a round with: a special weapon now and then, and a shield
//! now and then.

use vstd::prelude::*;

use crate::kinds::{ActiveWeapon, LaserVariant, PlasmaVariant};
use crate::pickups::{laser_look, plasma_look};
use crate::pieces::{armed_with, Tank};
use crate::scalar::Scalar;

verus! {

/// What is drawn for as a tank is kitted out.
#[derive(Clone, Copy, Debug, PartialEq, Eq, Structural)]
pub enum Draw {
    /// A special weapon at all.
    Special,
    /// That it is a laser.
    Laser,
    /// That a laser is blue.
    Blue,
    /// That it is a plasma gun, once it is no laser.
    Plasma,
    /// That plasma is purple.
    Purple,
    /// A shield.
    Shield,
}

/// One pickup's worth of each special weapon, and a full shield.
#[derive(Clone, Copy, Debug, PartialEq, Eq, Structural)]
pub struct Kit {
    pub laser: i32,
    pub plasma: i32,
    pub minigun: i32,
    pub shield: Scalar,
    /// How many sets of damage marks there are.
    pub damage_variants: i32,
}

/// Which special weapon was drawn. What is settled is not drawn for again: no
/// kind without a weapon, and no plasma gun once it is a laser. A laser and a
/// plasma gun come in two looks, which is drawn for last.
pub open spec fn special_drawn<K: Fn(Draw) -> bool>(
    roll: K,
    weapon: Option<ActiveWeapon>,
    rare: bool,
) -> bool {
    match weapon {
        None => !rare && call_ensures(roll, (Draw::Special,), false),
        Some(ActiveWeapon::Laser) => {
            &&& call_ensures(roll, (Draw::Special,), true)
            &&& call_ensures(roll, (Draw::Laser,), true)
            &&& call_ensures(roll, (Draw::Blue,), rare)
        },
        Some(ActiveWeapon::Plasma) => {
            &&& call_ensures(roll, (Draw::Special,), true)
            &&& call_ensures(roll, (Draw::Laser,), false)
            &&& call_ensures(roll, (Draw::Plasma,), true)
            &&& call_ensures(roll, (Draw::Purple,), rare)
        },
        Some(ActiveWeapon::Minigun) => {
            &&& call_ensures(roll, (Draw::Special,), true)
            &&& call_ensures(roll, (Draw::Laser,), false)
            &&& call_ensures(roll, (Draw::Plasma,), false)
            &&& !rare
        },
        Some(_) => false,
    }
}

/// A tank with its shield up, if it has one.
pub open spec fn shielded(t: Tank, up: bool, kit: Kit) -> Tank {
    if up {
        Tank { shield: kit.shield, ..t }
    } else {
        t
    }
}

/// A tank handed its special weapon in the look it drew, with one pickup's
/// worth for it.
pub open spec fn armed(t: Tank, weapon: Option<ActiveWeapon>, rare: bool, kit: Kit) -> Tank {
    match weapon {
        Some(ActiveWeapon::Laser) => Tank {
            laser_charges: (t.laser_charges + kit.laser) as i32,
            laser_variant: laser_look(rare),
            ..armed_with(t, ActiveWeapon::Laser)
        },
        Some(ActiveWeapon::Plasma) => Tank {
            plasma_ammo: (t.plasma_ammo + kit.plasma) as i32,
            plasma_variant: plasma_look(rare),
            ..armed_with(t, ActiveWeapon::Plasma)
        },
        Some(ActiveWeapon::Minigun) => Tank {
            minigun_ammo: (t.minigun_ammo + kit.minigun) as i32,
            ..armed_with(t, ActiveWeapon::Minigun)
        },
        _ => t,
    }
}

/// The tank can carry what the kit adds.
pub open spec fn kit_fits(t: Tank, kit: Kit) -> bool {
    &&& i32::MIN <= t.laser_charges + kit.laser <= i32::MAX
    &&& i32::MIN <= t.plasma_ammo + kit.plasma <= i32::MAX
    &&& i32::MIN <= t.minigun_ammo + kit.minigun <= i32::MAX
}

/// A tank as it was kitted out.
pub open spec fn kitted<K: Fn(Draw) -> bool>(roll: K, kit: Kit, t: Tank, after: Tank) -> bool {
    exists|weapon: Option<ActiveWeapon>, rare: bool, up: bool|
        {
            &&& #[trigger] special_drawn(roll, weapon, rare)
            &&& #[trigger] call_ensures(roll, (Draw::Shield,), up)
            &&& after == shielded(armed(t, weapon, rare, kit), up, kit)
        }
}

/// A tank's shield, drawn for.
pub fn roll_shield<K: Fn(Draw) -> bool>(t: Tank, kit: &Kit, roll: &K) -> (after: Tank)
    requires
        forall|d: Draw| call_requires(*roll, (d,)),
    ensures
        exists|up: bool| #[trigger]
            call_ensures(*roll, (Draw::Shield,), up) && after == shielded(t, up, *kit),
{
    if roll(Draw::Shield) {
        Tank { shield: kit.shield, ..t }
    } else {
        t
    }
}

/// Hand a tank its special weapon.
#[verifier::spinoff_prover]
fn arm(t: Tank, weapon: ActiveWeapon, rare: bool, kit: &Kit) -> (after: Tank)
    requires
        kit_fits(t, *kit),
    ensures
        after == armed(t, Some(weapon), rare, *kit),
{
    let mut queued: Tank = t;
    if weapon == ActiveWeapon::Laser || weapon == ActiveWeapon::Plasma || weapon
        == ActiveWeapon::Minigun {
        queued.enqueue_weapon(weapon);
    }
    let q: Tank = queued;
    match weapon {
        ActiveWeapon::Laser => Tank {
            laser_charges: t.laser_charges + kit.laser,
            laser_variant: laser_look(rare),
            ..q
        },
        ActiveWeapon::Plasma => Tank {
            plasma_ammo: t.plasma_ammo + kit.plasma,
            plasma_variant: plasma_look(rare),
            ..q
        },
        ActiveWeapon::Minigun => Tank { minigun_ammo: t.minigun_ammo + kit.minigun, ..q },
        _ => t,
    }
}

/// Which special weapon a tank draws, and in which look.
fn draw_special<K: Fn(Draw) -> bool>(roll: &K) -> (r: (Option<ActiveWeapon>, bool))
    requires
        forall|d: Draw| call_requires(*roll, (d,)),
    ensures
        special_drawn(*roll, r.0, r.1),
        r.0 matches Some(w) ==> w == ActiveWeapon::Laser || w == ActiveWeapon::Plasma || w
            == ActiveWeapon::Minigun,
{
    if !roll(Draw::Special) {
        return (None, false);
    }
    if roll(Draw::Laser) {
        return (Some(ActiveWeapon::Laser), roll(Draw::Blue));
    }
    if roll(Draw::Plasma) {
        return (Some(ActiveWeapon::Plasma), roll(Draw::Purple));
    }
    (Some(ActiveWeapon::Minigun), false)
}

/// Kit an enemy out: a possible special weapon with one pickup's worth for it,
/// in one of its looks, and then a possible shield.
pub fn roll_enemy_tank<K: Fn(Draw) -> bool>(t: Tank, kit: &Kit, roll: &K) -> (after: Tank)
    requires
        kit_fits(t, *kit),
        forall|d: Draw| call_requires(*roll, (d,)),
    ensures
        kitted(*roll, *kit, t, after),
{
    let (weapon, rare) = draw_special(roll);
    let enemy: Tank = match weapon {
        Some(w) => arm(t, w, rare, kit),
        None => t,
    };
    let after: Tank = roll_shield(enemy, kit, roll);
    proof {
        assert(enemy == armed(t, weapon, rare, *kit));
        let up = choose|up: bool| #[trigger]
            call_ensures(*roll, (Draw::Shield,), up) && after == shielded(enemy, up, *kit);
        assert(special_drawn(*roll, weapon, rare));
    }
    after
}

/// A tank that drew no special weapon keeps what it had in hand and all its
/// ammunition, and nobody is handed a weapon that no draw gives.
pub proof fn a_kit_is_one_weapon_at_most<K: Fn(Draw) -> bool>(
    roll: K,
    kit: Kit,
    t: Tank,
    after: Tank,
)
    requires
        kitted(roll, kit, t, after),
    ensures
        after.shells == t.shells && after.missile_ammo == t.missile_ammo && after.flame_fuel
            == t.flame_fuel,
        after.laser_charges == t.laser_charges || after.plasma_ammo == t.plasma_ammo,
        after.laser_charges == t.laser_charges || after.minigun_ammo == t.minigun_ammo,
        after.plasma_ammo == t.plasma_ammo || after.minigun_ammo == t.minigun_ammo,
        after.owner == t.owner && after.row == t.row && after.position == t.position && after.mind
            == t.mind && after.shell_variant == t.shell_variant && after.damage_variant
            == t.damage_variant,
        after.laser_variant == t.laser_variant || after.plasma_variant == t.plasma_variant,
{
}

/// A tank handed a weapon has one pickup's worth more of it, in the look it
/// drew, and no more of anything else; one with its shield up has a full one.
#[verifier::spinoff_prover]
pub proof fn a_kit_is_worth_one_pickup(t: Tank, rare: bool, kit: Kit)
    requires
        kit_fits(t, kit),
    ensures
        ({
            let a = armed(t, Some(ActiveWeapon::Laser), rare, kit);
            &&& a.laser_charges == t.laser_charges + kit.laser
            &&& a.laser_variant == (if rare {
                LaserVariant::Blue
            } else {
                LaserVariant::Red
            })
            &&& a.plasma_ammo == t.plasma_ammo && a.minigun_ammo == t.minigun_ammo
        }),
        ({
            let a = armed(t, Some(ActiveWeapon::Plasma), rare, kit);
            &&& a.plasma_ammo == t.plasma_ammo + kit.plasma
            &&& a.plasma_variant == (if rare {
                PlasmaVariant::Purple
            } else {
                PlasmaVariant::Teal
            })
            &&& a.laser_charges == t.laser_charges && a.minigun_ammo == t.minigun_ammo
        }),
        ({
            let a = armed(t, Some(ActiveWeapon::Minigun), rare, kit);
            &&& a.minigun_ammo == t.minigun_ammo + kit.minigun
            &&& a.laser_charges == t.laser_charges && a.plasma_ammo == t.plasma_ammo
        }),
        armed(t, None, rare, kit) == t,
        shielded(t, true, kit).shield == kit.shield,
        shielded(t, false, kit) == t,
{
}

} // verus!
