//! What happened during a frame, for tooling: appended by the phase that
//! caused it and readable until the next frame clears it. Recording never
//! draws a random number.

use vstd::prelude::*;

use crate::kinds::{Drum, Material, Mission, PickupKind, Side};
use crate::scalar::Scalar;

verus! {

/// How the current round is going.
#[derive(Clone, Copy, Debug, PartialEq, Eq, Structural)]
pub enum Outcome {
    Playing,
    /// Every enemy is a wreck.
    Won,
    /// Every player tank is a wreck, or the frog died.
    Lost,
}

impl Default for Outcome {
    fn default() -> (outcome: Outcome)
        ensures
            outcome == Outcome::Playing,
    {
        Outcome::Playing
    }
}

/// Whether a round's enemies arrive at once or in waves.
#[derive(Clone, Copy, Debug, PartialEq, Eq, Structural)]
pub enum SpawnKind {
    Band,
    Waves,
}

/// What an `Event::Hit` landed on.
#[derive(Clone, Copy, Debug, PartialEq, Eq, Structural)]
pub enum HitTarget {
    /// Human player, by seat.
    Player { player: u8 },
    Enemy { slot: usize },
    Frog { side: Side },
    /// A destructible tile, with what a shot just knocked a chip off.
    Obstacle { material: Material },
    Wall,
}

/// One thing that happened.
#[derive(Clone, Copy, Debug, PartialEq)]
#[allow(inconsistent_fields)]
pub enum Event {
    RoundStarted { seed: u64, enemies: usize, mission: Mission, spawn: SpawnKind },
    RoundEnded { outcome: Outcome },
    /// A trigger pull that launched something.
    Fired { slot: usize, weapon: &'static str },
    /// A projectile or beam landed on `target`.
    Hit { target: HitTarget, damage: Scalar, killed: bool, x: Scalar, y: Scalar },
    /// A tank became a wreck, whatever the cause.
    Wreck { slot: usize, x: Scalar, y: Scalar },
    /// Ram contact. `damage` is the roll, not necessarily what landed.
    Ram { slot: usize, other_slot: usize, damage: Scalar },
    PickupCollected { slot: usize, kind: PickupKind },
    PickupRespawned { kind: PickupKind, x: Scalar, y: Scalar },
    /// A projectile bounced off `slot`'s shield.
    Deflected { slot: usize, x: Scalar, y: Scalar },
    /// `slot`'s shot bounced off terrain and flies on along `heading`.
    Ricochet { slot: usize, x: Scalar, y: Scalar, heading: Scalar },
    /// `slot`'s shield ran out of charge and shattered.
    ShieldBroken { slot: usize, x: Scalar, y: Scalar },
    /// Two opposing shells met mid-air and cancelled.
    ShellsCollided { x: Scalar, y: Scalar },
    /// The `side` frog bit the tank in `slot`.
    FrogBite { side: Side, slot: usize, damage: Scalar, killed: bool },
    /// The tank in `slot` collected a frog pack and healed the `side` frog,
    /// at the frog's own position.
    FrogHealed { side: Side, slot: usize, amount: Scalar, x: Scalar, y: Scalar },
    /// A destructible tile died, whatever destroyed it.
    ObstacleDestroyed { material: Material, x: Scalar, y: Scalar },
    /// A barrel detonated; `chained` when another blast's fuse or a fire set
    /// it off rather than a shot or a ram.
    Blast { x: Scalar, y: Scalar, chained: bool, drum: Drum },
    /// A fuel drum set off by another blast launched.
    DrumLaunched { x: Scalar, y: Scalar, to_x: Scalar, to_y: Scalar },
    /// `slot`'s tank entered a portal and was placed beside another.
    Teleported { slot: usize, x: Scalar, y: Scalar, to_x: Scalar, to_y: Scalar },
    /// A ground cell caught fire: a drum's pool or a lit trail cell.
    FireStarted { x: Scalar, y: Scalar, pool: bool },
    /// A flame lit something, or collapsed a prop.
    Ignited { x: Scalar, y: Scalar, what: &'static str },
    /// A missile locked on: onto a tank, or onto the ground.
    MissileLocked { slot: usize, target: Option<usize>, x: Scalar, y: Scalar },
    /// A missile came down and burst.
    MissileBlast { slot: usize, x: Scalar, y: Scalar },
    /// A delayed pop from a wreck's ammo cooking off; deals no damage.
    CookOff { x: Scalar, y: Scalar },
    /// The solver set aside bodies and colliders whose state went bad.
    PhysicsQuarantine { bodies: usize, colliders: usize },
    /// An enemy settled on a different action than last frame.
    AiAction { slot: usize, from: Option<&'static str>, to: Option<&'static str> },
    /// The engagement ring gave `slot` a different slot index.
    EngageSlot { slot: usize, from: Option<u8>, to: Option<u8> },
    /// The stuck escape fired (`escapes` so far this round).
    StuckEscape { slot: usize, escapes: u32 },
    /// A breach started toward `dir`, or ended.
    Breach { slot: usize, dir: Option<&'static str> },
    /// The ammo retreat latched or released.
    Retreat { slot: usize, on: bool },
    /// The shared last-known player position appeared or expired.
    Alert { on: bool, x: Scalar, y: Scalar },
    /// The enemy in `slot` switched to fighting `player`.
    Retarget { slot: usize, player: u8 },
}

} // verus!
