//! Which tank everyone drives.

use rand::rngs::SmallRng;
use vstd::prelude::*;

use crate::dice::pick_index;
use crate::kinds::{Mission, Role, SpawnPlan};
use crate::pieces::Tank;

verus! {

/// Chassis on the sprite sheet, one per row.
pub const TANK_VARIANTS: i32 = 12;

/// Most enemies a band places.
pub const BAND_CAP: usize = 31;

/// A chassis, by its row on the sprite sheet.
#[derive(Clone, Copy, Debug, PartialEq, Eq, Structural)]
pub struct TankKind {
    pub row: i32,
}

impl TankKind {
    #[verifier::allow_in_spec]
    pub fn scout() -> TankKind
        returns
            (TankKind { row: 0 }),
    {
        TankKind { row: 0 }
    }

    #[verifier::allow_in_spec]
    pub fn titan() -> TankKind
        returns
            (TankKind { row: 10 }),
    {
        TankKind { row: 10 }
    }
}

/// A row brought into the sheet.
pub open spec fn clamped(row: i32) -> int {
    if row < 0 {
        0
    } else if row >= TANK_VARIANTS {
        TANK_VARIANTS - 1
    } else {
        row as int
    }
}

/// The chassis somebody asked for: the command line first, the knob when it is
/// set, and then the map.
pub open spec fn asked_for(cli: Option<i32>, knob: i32, map: Option<TankKind>) -> Option<i32> {
    if cli is Some {
        cli
    } else if knob >= 0 {
        Some(knob)
    } else {
        match map {
            Some(kind) => Some(kind.row),
            None => None,
        }
    }
}

/// Which chassis row a player spawns in, most specific source first: the
/// command line, the knob when it is set, the map's own choice, and finally a
/// roll, which is made only when nothing above asked. Whatever was asked for
/// is brought into the sheet.
pub fn resolve_player_row<F: FnOnce() -> i32>(
    cli: Option<i32>,
    knob: i32,
    map: Option<TankKind>,
    random: F,
) -> (row: i32)
    requires
        asked_for(cli, knob, map) is None ==> call_requires(random, ()),
    ensures
        match asked_for(cli, knob, map) {
            Some(asked) => row == clamped(asked) && 0 <= row < TANK_VARIANTS,
            None => call_ensures(random, (), row),
        },
{
    let chosen: Option<i32> = if cli.is_some() {
        cli
    } else if knob >= 0 {
        Some(knob)
    } else {
        match map {
            Some(kind) => Some(kind.row),
            None => None,
        }
    };
    match chosen {
        Some(row) => if row < 0 {
            0
        } else if row >= TANK_VARIANTS {
            TANK_VARIANTS - 1
        } else {
            row
        },
        None => random(),
    }
}

/// The enemy spawn order over the sheet, alternating twin- and single-barrel
/// chassis so both kinds appear early however few tanks are on the field.
pub open spec fn sprite_order() -> Seq<i32> {
    seq![1i32, 0, 4, 2, 7, 3, 9, 5, 10, 6, 8, 11]
}

/// The chassis row of the `n`-th enemy placed.
pub fn enemy_row(n: usize) -> (row: i32)
    ensures
        row == sprite_order()[n as int % 12],
        0 <= row < TANK_VARIANTS,
{
    let order: [i32; 12] = [1, 0, 4, 2, 7, 3, 9, 5, 10, 6, 8, 11];
    assert(order@ =~= sprite_order());
    order[n % 12]
}

/// Every chassis appears once in any twelve enemies placed in a row.
pub proof fn twelve_enemies_cover_every_chassis(row: i32)
    requires
        0 <= row < TANK_VARIANTS,
    ensures
        exists|k: int| 0 <= k < 12 && #[trigger] sprite_order()[k] == row,
        forall|i: int, j: int|
            0 <= i < j < 12 ==> #[trigger] sprite_order()[i] != #[trigger] sprite_order()[j],
{
    let order = sprite_order();
    assert(order[1] == 0 && order[0] == 1 && order[3] == 2 && order[5] == 3 && order[2] == 4
        && order[7] == 5 && order[9] == 6 && order[4] == 7 && order[10] == 8 && order[6] == 9
        && order[8] == 10 && order[11] == 11);
}

/// How many enemies a round places at its start: nobody under a wave plan; the
/// plan's count, else the map's, else a roll, which is made only when neither
/// says, and never more than the cap.
pub fn band_size<F: FnOnce() -> usize>(
    plan: SpawnPlan,
    map_tanks: Option<usize>,
    roll: F,
) -> (n: usize)
    requires
        plan == (SpawnPlan::Band { count: None }) && map_tanks is None ==> call_requires(roll, ()),
    ensures
        n <= BAND_CAP,
        match plan {
            SpawnPlan::Waves => n == 0,
            SpawnPlan::Band { count } => {
                let asked = if count is Some {
                    count
                } else {
                    map_tanks
                };
                match asked {
                    Some(k) => n == (if k < BAND_CAP {
                        k
                    } else {
                        BAND_CAP
                    }),
                    None => exists|k: usize| #[trigger]
                        call_ensures(roll, (), k) && n == (if k < BAND_CAP {
                            k
                        } else {
                            BAND_CAP
                        }),
                }
            },
        },
{
    let asked: usize = match plan {
        SpawnPlan::Waves => return 0,
        SpawnPlan::Band { count: Some(k) } => k,
        SpawnPlan::Band { count: None } => match map_tanks {
            Some(k) => k,
            None => roll(),
        },
    };
    if asked < BAND_CAP {
        asked
    } else {
        BAND_CAP
    }
}

/// What one spawning enemy is after. Protect has hunters, the rest fight the
/// player; Hunt has hunters, the rest guard their own frog; Destroy has nothing
/// to hunt or guard. The roll is made only in a mission with a hunter share.
pub fn roll_role<F: FnOnce() -> bool>(mission: Mission, share: bool, hunts: F) -> (role: Role)
    requires
        mission != Mission::Destroy && share ==> call_requires(hunts, ()),
    ensures
        mission == Mission::Destroy ==> role == Role::Player,
        mission == Mission::Protect ==> (if share {
            exists|h: bool| #[trigger]
                call_ensures(hunts, (), h) && role == (if h {
                    Role::Hunter
                } else {
                    Role::Player
                })
        } else {
            role == Role::Player
        }),
        mission == Mission::Hunt ==> (if share {
            exists|h: bool| #[trigger]
                call_ensures(hunts, (), h) && role == (if h {
                    Role::Hunter
                } else {
                    Role::Guard
                })
        } else {
            role == Role::Guard
        }),
{
    match mission {
        Mission::Protect => if share && hunts() {
            Role::Hunter
        } else {
            Role::Player
        },
        Mission::Hunt => if share && hunts() {
            Role::Hunter
        } else {
            Role::Guard
        },
        Mission::Destroy => Role::Player,
    }
}

/// A starting kit for an enemy.
#[derive(Clone, Copy, Debug, PartialEq, Eq, Structural)]
pub enum Kit {
    Plain,
    /// With the blue variant or the red.
    Laser { blue: bool },
    /// With the purple variant or the teal.
    Plasma { purple: bool },
    Minigun,
}

/// The rolls that decide an enemy's starting kit.
#[derive(Clone, Copy, Debug, PartialEq, Eq, Structural)]
pub enum KitRoll {
    /// Does it start with a special weapon at all.
    Special,
    /// Is that a laser.
    Laser,
    /// Is the laser blue.
    Blue,
    /// Is it plasma, not being a laser.
    Plasma,
    /// Is the plasma purple.
    Purple,
}

/// Where a roll leads.
#[derive(Clone, Copy, Debug, PartialEq, Eq, Structural)]
pub enum KitStep {
    Roll(KitRoll),
    Done(Kit),
}

/// What one roll's outcome leads to. Every enemy starts with
/// `KitRoll::Special` and rolls until a kit comes out; nothing is rolled for a
/// weapon it does not get.
#[verifier::allow_in_spec]
pub fn kit_step(roll: KitRoll, hit: bool) -> KitStep
    returns
        (match (roll, hit) {
            (KitRoll::Special, true) => KitStep::Roll(KitRoll::Laser),
            (KitRoll::Special, false) => KitStep::Done(Kit::Plain),
            (KitRoll::Laser, true) => KitStep::Roll(KitRoll::Blue),
            (KitRoll::Laser, false) => KitStep::Roll(KitRoll::Plasma),
            (KitRoll::Blue, blue) => KitStep::Done(Kit::Laser { blue }),
            (KitRoll::Plasma, true) => KitStep::Roll(KitRoll::Purple),
            (KitRoll::Plasma, false) => KitStep::Done(Kit::Minigun),
            (KitRoll::Purple, purple) => KitStep::Done(Kit::Plasma { purple }),
        }),
{
    match (roll, hit) {
        (KitRoll::Special, true) => KitStep::Roll(KitRoll::Laser),
        (KitRoll::Special, false) => KitStep::Done(Kit::Plain),
        (KitRoll::Laser, true) => KitStep::Roll(KitRoll::Blue),
        (KitRoll::Laser, false) => KitStep::Roll(KitRoll::Plasma),
        (KitRoll::Blue, blue) => KitStep::Done(Kit::Laser { blue }),
        (KitRoll::Plasma, true) => KitStep::Roll(KitRoll::Purple),
        (KitRoll::Plasma, false) => KitStep::Done(Kit::Minigun),
        (KitRoll::Purple, purple) => KitStep::Done(Kit::Plasma { purple }),
    }
}

/// The kit that four outcomes in a row come to, and how many of them are used.
pub open spec fn kit_of(rolls: Seq<bool>, at: KitRoll, n: nat) -> Option<(Kit, nat)>
    decreases 4 - n,
{
    if n >= 4 {
        None
    } else {
        match kit_step(at, rolls[n as int]) {
            KitStep::Done(kit) => Some((kit, n + 1)),
            KitStep::Roll(next) => kit_of(rolls, next, n + 1),
        }
    }
}

/// A kit takes at most four rolls, and a plain one exactly one.
pub proof fn a_kit_takes_at_most_four_rolls(rolls: Seq<bool>)
    ensures
        kit_of(rolls, KitRoll::Special, 0) matches Some((kit, used)) && used <= 4 && (kit
            == Kit::Plain <==> used == 1),
{
    reveal_with_fuel(kit_of, 5);
}

/// Roll a wrecked hull's sprite column the first frame the tank is a wreck.
/// Returns whether this was that frame, which is also when its body has to be
/// settled; draws nothing on any other.
pub fn roll_wreck_col(tank: &mut Tank, cols: &Vec<i32>, rng: &mut SmallRng) -> (fresh: bool)
    requires
        cols@.len() > 0,
    ensures
        fresh == (old(tank).wreck && old(tank).wreck_col is None),
        !fresh ==> *final(tank) == *old(tank) && *final(rng) == *old(rng),
        fresh ==> (final(tank).wreck_col matches Some(col) && cols@.contains(col)) && *final(tank)
            == (Tank { wreck_col: final(tank).wreck_col, ..*old(tank) }),
{
    if tank.wreck && tank.wreck_col.is_none() {
        if let Some(i) = pick_index(rng, cols.len()) {
            tank.wreck_col = Some(cols[i]);
        }
        return true;
    }
    false
}

/// A row asked for is brought into the sheet from either side, and one in it is
/// taken as it is; the command line is asked before the knob, the knob before
/// the map, and a knob below zero asks for nothing.
pub proof fn the_most_specific_wish_counts(
    row: i32,
    cli: Option<i32>,
    knob: i32,
    map: Option<TankKind>,
)
    ensures
        0 <= row < 12 ==> clamped(row) == row,
        row < 0 ==> clamped(row) == 0,
        row >= 12 ==> clamped(row) == 11,
        cli is Some ==> asked_for(cli, knob, map) == cli,
        cli is None && knob >= 0 ==> asked_for(cli, knob, map) == Some(knob),
        cli is None && knob < 0 && map is Some ==> asked_for(cli, knob, map) == Some((map->0).row),
        cli is None && knob < 0 && map is None ==> asked_for(cli, knob, map) is None,
{
}

/// Which kit the rolls come to: none without the first; a laser when the second
/// comes up too, blue with the third; else plasma when the third does, purple
/// with the fourth; and else a minigun.
pub proof fn a_kit_follows_from_its_rolls(rolls: Seq<bool>)
    requires
        rolls.len() >= 4,
    ensures
        ({
            let kit = (kit_of(rolls, KitRoll::Special, 0)->0).0;
            &&& !rolls[0] ==> kit is Plain
            &&& rolls[0] && rolls[1] ==> kit == (Kit::Laser { blue: rolls[2] })
            &&& rolls[0] && !rolls[1] && rolls[2] ==> kit == (Kit::Plasma { purple: rolls[3] })
            &&& rolls[0] && !rolls[1] && !rolls[2] ==> kit is Minigun
        }),
{
    reveal_with_fuel(kit_of, 5);
}

} // verus!
