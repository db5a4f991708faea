//! The vocabulary the rules share: sides, owners, materials, pickups,
//! weapons, missions.

use vstd::prelude::*;

use crate::scalar::Scalar;

verus! {

/// Seats a round can hold.
pub const MAX_SEATS: usize = 8;

/// A cell of the battlefield grid.
#[derive(Clone, Copy, Debug, PartialEq, Eq, Structural)]
pub struct Cell {
    pub col: i32,
    pub row: i32,
}

impl Cell {
    /// Has a neighbour on every side.
    pub open spec fn interior(self) -> bool {
        i32::MIN < self.col < i32::MAX && i32::MIN < self.row < i32::MAX
    }
}

/// A cardinal heading.
#[derive(Clone, Copy, Debug, PartialEq, Eq, Structural)]
pub enum Dir {
    Up,
    Down,
    Left,
    Right,
}

/// What one tank wants to do this step.
#[derive(Clone, Copy, Debug, PartialEq, Eq, Structural)]
pub struct Intent {
    /// The cardinal to drive along.
    pub move_dir: Option<Dir>,
    /// The cardinal to face without driving.
    pub face: Option<Dir>,
    /// The trigger is held.
    pub fire: bool,
    /// How far to ease off the throttle, 0 (not at all) to 1 (stop).
    pub slow: Scalar,
    /// How far off the barrel a shot leaves, in degrees.
    pub fire_aim_offset: Scalar,
}

impl Intent {
    /// No input at all.
    #[verifier::allow_in_spec]
    pub fn idle() -> Intent
        returns
            (Intent {
                move_dir: None,
                face: None,
                fire: false,
                slow: Scalar { bits: 0 },
                fire_aim_offset: Scalar { bits: 0 },
            }),
    {
        Intent {
            move_dir: None,
            face: None,
            fire: false,
            slow: Scalar { bits: 0 },
            fire_aim_offset: Scalar { bits: 0 },
        }
    }
}

impl Default for Intent {
    fn default() -> (intent: Intent)
        ensures
            intent == Intent::idle(),
    {
        Intent::idle()
    }
}

/// Whose frog, whose shot.
#[derive(Clone, Copy, Debug, PartialEq, Eq, Structural)]
pub enum Side {
    Player,
    Enemy,
}

impl Side {
    /// A frog bites only the tanks of the other side: the one it belongs to is
    /// there to defend it.
    #[verifier::allow_in_spec]
    pub fn bites(self, owner: Owner) -> bool
        returns
            ((self == Side::Player) != (owner is Player)),
    {
        (self == Side::Player) != owner.is_player()
    }
}

/// Who a tank or a shot belongs to: a seat, or an enemy by round slot.
#[derive(Clone, Copy, Debug, PartialEq, Eq, Structural)]
pub enum Owner {
    Player(u8),
    Enemy(usize),
}

impl Owner {
    /// One of the seats.
    pub open spec fn is_seat(self) -> bool {
        self is Player
    }

    pub fn is_player(self) -> (r: bool)
        ensures
            r == self.is_seat(),
    {
        match self {
            Owner::Player(_) => true,
            Owner::Enemy(_) => false,
        }
    }

    /// The owner's round slot: seats count from zero, an enemy carries its
    /// own.
    pub open spec fn round_slot(self) -> usize {
        match self {
            Owner::Player(seat) => seat as usize,
            Owner::Enemy(slot) => slot,
        }
    }

    pub fn slot(self) -> (slot: usize)
        ensures
            slot == self.round_slot(),
    {
        match self {
            Owner::Player(seat) => seat as usize,
            Owner::Enemy(slot) => slot,
        }
    }

    /// Both fight for the same side.
    pub fn same_side(self, other: Owner) -> (r: bool)
        ensures
            r == (self.is_seat() == other.is_seat()),
    {
        self.is_player() == other.is_player()
    }
}

/// What a standing thing is made of: the four walls, the three props, the
/// two trees.
#[derive(Clone, Copy, Debug, PartialEq, Eq, Structural)]
pub enum Material {
    Brick,
    Iron,
    Wood,
    Glass,
    Sandbag,
    Barrel,
    Fence,
    Tree,
    Pine,
}

impl Material {
    /// One of the four walls.
    #[verifier::allow_in_spec]
    pub fn is_wall(self) -> bool
        returns
            (self == Material::Brick || self == Material::Iron || self == Material::Wood || self
                == Material::Glass),
    {
        self == Material::Brick || self == Material::Iron || self == Material::Wood || self
            == Material::Glass
    }

    /// One of the two trees.
    #[verifier::allow_in_spec]
    pub fn is_tree(self) -> bool
        returns
            (self == Material::Tree || self == Material::Pine),
    {
        self == Material::Tree || self == Material::Pine
    }

    /// A barrel.
    #[verifier::allow_in_spec]
    pub fn is_explosive(self) -> bool
        returns
            (self == Material::Barrel),
    {
        self == Material::Barrel
    }

    /// Collapses under a tank that keeps pushing.
    #[verifier::allow_in_spec]
    pub fn collapses(self) -> bool
        returns
            (self == Material::Sandbag || self == Material::Fence || self.is_tree()),
    {
        self == Material::Sandbag || self == Material::Fence || self.is_tree()
    }
}

/// Which of the two drums a barrel is.
#[derive(Clone, Copy, Debug, PartialEq, Eq, Structural)]
pub enum Drum {
    Oil,
    Fuel,
}

/// What lies on the field to be driven over.
#[derive(Clone, Copy, Debug, PartialEq, Eq, Structural)]
pub enum PickupKind {
    Health,
    Ammo,
    Laser,
    Minigun,
    Missiles,
    Flamethrower,
    Plasma,
    SpeedUp,
    Shield,
    FrogHealth,
}

/// What a trigger pull launches.
#[derive(Clone, Copy, Debug, PartialEq, Eq, Structural)]
pub enum ActiveWeapon {
    Shell,
    Laser,
    Minigun,
    Plasma,
    Missiles,
    Flamethrower,
}

/// What ends a round.
#[derive(Clone, Copy, Debug, PartialEq, Eq, Structural)]
pub enum Mission {
    /// Keep the player's frog alive and wreck every enemy.
    Protect,
    /// Wreck every enemy.
    Destroy,
    /// Both sides have a frog; kill the enemy's.
    Hunt,
}

impl Mission {
    /// The players have a frog to look after.
    #[verifier::allow_in_spec]
    pub fn has_player_frog(self) -> bool
        returns
            (self == Mission::Protect || self == Mission::Hunt),
    {
        self == Mission::Protect || self == Mission::Hunt
    }

    /// The enemies have a frog of their own.
    #[verifier::allow_in_spec]
    pub fn has_enemy_frog(self) -> bool
        returns
            (self == Mission::Hunt),
    {
        self == Mission::Hunt
    }
}

/// How enemies arrive.
#[derive(Clone, Copy, Debug, PartialEq, Eq, Structural)]
pub enum SpawnPlan {
    /// All at once, at the start.
    Band { count: Option<usize> },
    /// In waves.
    Waves,
}

/// What an enemy is after.
#[derive(Clone, Copy, Debug, PartialEq, Eq, Structural)]
pub enum Role {
    /// The players.
    Player,
    /// The player's frog.
    Hunter,
    /// Standing by its own frog.
    Guard,
}

/// Which laser a tank fires.
#[derive(Clone, Copy, Debug, PartialEq, Eq, Structural)]
pub enum LaserVariant {
    Red,
    Blue,
}

/// Which plasma a bolt is.
#[derive(Clone, Copy, Debug, PartialEq, Eq, Structural)]
pub enum PlasmaVariant {
    Teal,
    Purple,
}

/// Whose side an owner is on, and which slot is its own.
pub proof fn an_owner_is_a_seat_or_an_enemy(owner: Owner)
    ensures
        owner.is_seat() <==> owner is Player,
        owner matches Owner::Player(seat) ==> owner.round_slot() == seat,
        owner matches Owner::Enemy(slot) ==> owner.round_slot() == slot,
{
}

/// What a material is: brick, iron, wood and glass are walls, tree and pine are
/// trees, a barrel explodes, and sandbags, fences and trees give in to a tank
/// that keeps pushing.
pub proof fn what_a_material_is(m: Material)
    ensures
        match m {
            Material::Brick | Material::Iron | Material::Wood | Material::Glass => m.is_wall()
                && !m.is_tree() && !m.is_explosive() && !m.collapses(),
            Material::Tree | Material::Pine => !m.is_wall() && m.is_tree() && !m.is_explosive()
                && m.collapses(),
            Material::Barrel => !m.is_wall() && !m.is_tree() && m.is_explosive() && !m.collapses(),
            Material::Sandbag | Material::Fence => !m.is_wall() && !m.is_tree()
                && !m.is_explosive() && m.collapses(),
        },
{
}

/// The players have a frog to protect, and one in a hunt, where the enemies
/// have one too; a mission to destroy has none.
pub proof fn whose_frogs_a_mission_has()
    ensures
        Mission::Protect.has_player_frog() && !Mission::Protect.has_enemy_frog(),
        !Mission::Destroy.has_player_frog() && !Mission::Destroy.has_enemy_frog(),
        Mission::Hunt.has_player_frog() && Mission::Hunt.has_enemy_frog(),
{
}

} // verus!
