//! Debug overlay switches.

use vstd::prelude::*;

verus! {

/// How much of the world a snapshot holds.
#[derive(Clone, Copy, Debug, PartialEq, Eq, Structural)]
pub enum Detail {
    /// Tanks without an enemy's memory or contact stats.
    Compact,
    /// Everything.
    Full,
}

impl Default for Detail {
    fn default() -> (detail: Detail)
        ensures
            detail == Detail::Compact,
    {
        Detail::Compact
    }
}

/// Which overlays are drawn. They survive restarts; all off by default.
#[derive(Clone, Copy, Debug, PartialEq, Eq, Structural)]
pub struct Overlays {
    /// Every tank's hull box, turret box and movement collider.
    pub hitboxes: bool,
    /// Every tank's readout card.
    pub stats: bool,
    /// The routing grid.
    pub nav_grid: bool,
    /// Each enemy's waypoint, heading and last action.
    pub ai: bool,
    /// Projectile boxes and velocities.
    pub projectiles: bool,
    /// Engagement-ring targets.
    pub engage: bool,
    /// Pickup collection radii.
    pub pickups: bool,
}

impl Overlays {
    /// Every overlay off.
    #[verifier::allow_in_spec]
    pub fn none() -> Overlays
        returns
            (Overlays {
                hitboxes: false,
                stats: false,
                nav_grid: false,
                ai: false,
                projectiles: false,
                engage: false,
                pickups: false,
            }),
    {
        Overlays {
            hitboxes: false,
            stats: false,
            nav_grid: false,
            ai: false,
            projectiles: false,
            engage: false,
            pickups: false,
        }
    }

    /// Both tank layers and nothing else.
    #[verifier::allow_in_spec]
    pub fn inspect() -> Overlays
        returns
            (Overlays { hitboxes: true, stats: true, ..Overlays::none() }),
    {
        Overlays { hitboxes: true, stats: true, ..Overlays::none() }
    }

    /// Every overlay on.
    #[verifier::allow_in_spec]
    pub fn all() -> Overlays
        returns
            (Overlays {
                hitboxes: true,
                stats: true,
                nav_grid: true,
                ai: true,
                projectiles: true,
                engage: true,
                pickups: true,
            }),
    {
        Overlays {
            hitboxes: true,
            stats: true,
            nav_grid: true,
            ai: true,
            projectiles: true,
            engage: true,
            pickups: true,
        }
    }

    /// Whether any layer is on.
    pub fn any(self) -> (r: bool)
        ensures
            r == (self.hitboxes || self.stats || self.nav_grid || self.ai || self.projectiles
                || self.engage || self.pickups),
    {
        self != Overlays::none()
    }

    /// The next step of the cycle: none, inspect, all, none. A hand-set mix
    /// snaps to none.
    pub open spec fn stepped(self) -> Overlays {
        if self == Overlays::none() {
            Overlays::inspect()
        } else if self == Overlays::inspect() {
            Overlays::all()
        } else {
            Overlays::none()
        }
    }

    /// The next step of the cycle: none, inspect, all, none. A hand-set mix
    /// snaps to none.
    pub fn next_preset(self) -> (next: Overlays)
        ensures
            next == self.stepped(),
    {
        if !self.any() {
            Overlays::inspect()
        } else if self == Overlays::inspect() {
            Overlays::all()
        } else {
            Overlays::none()
        }
    }

    /// The name a label prints: none while nothing is on, otherwise the preset
    /// this mix is exactly, or `custom`.
    pub fn preset_name(self) -> (name: Option<&'static str>)
        ensures
            name == (if self == Overlays::none() {
                None
            } else if self == Overlays::inspect() {
                Some("inspect")
            } else if self == Overlays::all() {
                Some("all")
            } else {
                Some("custom")
            }),
    {
        if !self.any() {
            None
        } else if self == Overlays::inspect() {
            Some("inspect")
        } else if self == Overlays::all() {
            Some("all")
        } else {
            Some("custom")
        }
    }
}

impl Default for Overlays {
    fn default() -> (overlays: Overlays)
        ensures
            overlays == Overlays::none(),
    {
        Overlays::none()
    }
}

/// The cycle has three steps and every mix joins it within one.
pub proof fn presets_cycle_and_mixes_snap(mix: Overlays)
    ensures
        Overlays::none().stepped() == Overlays::inspect(),
        Overlays::inspect().stepped() == Overlays::all(),
        Overlays::all().stepped() == Overlays::none(),
        mix != Overlays::none() && mix != Overlays::inspect() ==> mix.stepped() == Overlays::none(),
        mix.stepped().stepped().stepped() == mix.stepped().stepped().stepped().stepped().stepped()
            .stepped(),
{
}

/// No preset but the last shows anything past the two tank layers, and the
/// first shows nothing.
pub proof fn what_the_presets_show()
    ensures
        ({
            let o = Overlays::none();
            !o.hitboxes && !o.stats && !o.nav_grid && !o.ai && !o.projectiles && !o.engage
                && !o.pickups
        }),
        ({
            let o = Overlays::inspect();
            o.hitboxes && o.stats && !o.nav_grid && !o.ai && !o.projectiles && !o.engage
                && !o.pickups
        }),
        ({
            let o = Overlays::all();
            o.hitboxes && o.stats && o.nav_grid && o.ai && o.projectiles && o.engage && o.pickups
        }),
{
}

} // verus!
