//! What one frame's phases hand on to each other: the kills and blasts still
//! to be resolved, the marks and ripples to be shown, the events recorded.

use vstd::prelude::*;

use crate::event::Event;
use crate::kinds::{Drum, Material, Owner};
use crate::pieces::Piece;
use crate::scalar::{Point, Scalar};

verus! {

/// A tank destroyed this frame: where, and whose.
#[derive(Clone, Copy, Debug, PartialEq, Eq, Structural)]
pub struct Kill {
    pub at: Point,
    pub victim: Owner,
}

/// What a barrel's blast looks like, by what set it off.
#[derive(Clone, Copy, Debug, PartialEq, Eq, Structural)]
pub enum BlastShape {
    Plain,
    /// A shot, travelling along `dir`.
    Shot { dir: Point },
    Ram,
    /// Another blast, at `from`.
    Chained { from: Point, smoulder: Scalar },
    Fire,
}

/// A barrel detonation waiting to be resolved this frame.
#[derive(Clone, Copy, Debug, PartialEq, Eq, Structural)]
pub struct PendingBlast {
    pub center: Point,
    pub drum: Drum,
    pub shape: BlastShape,
}

/// What a dead tile leaves on the ground.
#[derive(Clone, Copy, Debug, PartialEq, Eq, Structural)]
pub struct Rubble {
    pub material: Material,
    pub at: Point,
    /// It burnt out rather than breaking.
    pub charred: bool,
}

/// What a ripple is from, and with it how hard it shakes the screen.
#[derive(Clone, Copy, Debug, PartialEq, Eq, Structural)]
pub enum ShockKind {
    Kill,
    Barrel,
    Fuel,
    Frog,
    CookOff,
    ShieldBreak,
    Teleport,
    Missile,
}

impl ShockKind {
    /// How hard it shakes the screen, relative to a tank dying.
    pub open spec fn share(self) -> Scalar {
        match self {
            ShockKind::Kill => Scalar { bits: 0x3f800000 },
            ShockKind::Barrel => Scalar { bits: 0x3f333333 },
            ShockKind::Fuel => Scalar { bits: 0x3f666666 },
            ShockKind::Frog => Scalar { bits: 0x3f19999a },
            ShockKind::CookOff => Scalar { bits: 0x3dcccccd },
            ShockKind::ShieldBreak => Scalar { bits: 0x3ee66666 },
            ShockKind::Teleport => Scalar { bits: 0x3e99999a },
            ShockKind::Missile => Scalar { bits: 0x3e99999a },
        }
    }

    pub fn strength(self) -> (r: Scalar)
        ensures
            r == self.share(),
    {
        match self {
            ShockKind::Kill => Scalar { bits: 0x3f800000 },
            ShockKind::Barrel => Scalar { bits: 0x3f333333 },
            ShockKind::Fuel => Scalar { bits: 0x3f666666 },
            ShockKind::Frog => Scalar { bits: 0x3f19999a },
            ShockKind::CookOff => Scalar { bits: 0x3dcccccd },
            ShockKind::ShieldBreak => Scalar { bits: 0x3ee66666 },
            ShockKind::Teleport => Scalar { bits: 0x3e99999a },
            ShockKind::Missile => Scalar { bits: 0x3e99999a },
        }
    }
}

/// Nothing shakes the screen harder than a tank dying.
pub proof fn a_kill_shakes_hardest(kind: ShockKind)
    ensures
        kind.share().at_most(ShockKind::Kill.share()),
        kind != ShockKind::Kill ==> kind.share().below(ShockKind::Kill.share()),
{
}

/// One ripple.
#[derive(Clone, Copy, Debug, PartialEq, Eq, Structural)]
pub struct Shock {
    pub at: Point,
    pub kind: ShockKind,
}

/// Whose fireball it is.
#[derive(Clone, Copy, Debug, PartialEq, Eq, Structural)]
pub enum FireballKind {
    Oil,
    Fuel,
    Missile,
    Wreck,
    CookOff,
}

/// One fireball.
#[derive(Clone, Copy, Debug, PartialEq, Eq, Structural)]
pub struct Fireball {
    pub at: Point,
    pub kind: FireballKind,
}

/// One burn mark, and the way it is drawn out.
#[derive(Clone, Copy, Debug, PartialEq, Eq, Structural)]
pub struct Scorch {
    pub at: Point,
    pub streak: Option<Point>,
    /// Only dry ground takes it.
    pub dry_only: bool,
}

/// One frame's scratch state.
pub struct Frame {
    pub events: Vec<Event>,
    pub kills: Vec<Kill>,
    pub pending_blasts: Vec<PendingBlast>,
    pub rubble: Vec<Rubble>,
    pub shocks: Vec<Shock>,
    /// Where something struck hard enough to light the screen around it.
    pub flashes: Vec<Point>,
    pub fireballs: Vec<Fireball>,
    pub scorches: Vec<Scorch>,
}

/// A frame's contents.
#[verifier::ext_equal]
pub struct Record {
    pub events: Seq<Event>,
    pub kills: Seq<Kill>,
    pub pending_blasts: Seq<PendingBlast>,
    pub rubble: Seq<Rubble>,
    pub shocks: Seq<Shock>,
    pub flashes: Seq<Point>,
    pub fireballs: Seq<Fireball>,
    pub scorches: Seq<Scorch>,
}

/// The field and the record, part of the way through a phase.
#[verifier::ext_equal]
pub struct Scene {
    pub pieces: Map<u64, Piece>,
    pub record: Record,
}

impl View for Frame {
    type V = Record;

    open spec fn view(&self) -> Record {
        Record {
            events: self.events@,
            kills: self.kills@,
            pending_blasts: self.pending_blasts@,
            rubble: self.rubble@,
            shocks: self.shocks@,
            flashes: self.flashes@,
            fireballs: self.fireballs@,
            scorches: self.scorches@,
        }
    }
}

impl Record {
    /// Nothing has happened.
    pub open spec fn blank() -> Record {
        Record {
            events: Seq::empty(),
            kills: Seq::empty(),
            pending_blasts: Seq::empty(),
            rubble: Seq::empty(),
            shocks: Seq::empty(),
            flashes: Seq::empty(),
            fireballs: Seq::empty(),
            scorches: Seq::empty(),
        }
    }

    /// One more event.
    pub open spec fn with_event(self, event: Event) -> Record {
        Record { events: self.events.push(event), ..self }
    }

    /// One more kill.
    pub open spec fn with_kill(self, at: Point, victim: Owner) -> Record {
        Record { kills: self.kills.push(Kill { at, victim }), ..self }
    }

    /// One more ripple.
    pub open spec fn with_shock(self, at: Point, kind: ShockKind) -> Record {
        Record { shocks: self.shocks.push(Shock { at, kind }), ..self }
    }

    /// One more fireball, and the flash that goes with it.
    pub open spec fn with_blaze(self, at: Point, kind: FireballKind) -> Record {
        Record {
            flashes: self.flashes.push(at),
            fireballs: self.fireballs.push(Fireball { at, kind }),
            ..self
        }
    }

    /// One more fireball, without a flash.
    pub open spec fn with_fireball(self, at: Point, kind: FireballKind) -> Record {
        Record { fireballs: self.fireballs.push(Fireball { at, kind }), ..self }
    }

    /// One more burn mark.
    pub open spec fn with_scorch(self, at: Point, streak: Option<Point>, dry_only: bool) -> Record {
        Record { scorches: self.scorches.push(Scorch { at, streak, dry_only }), ..self }
    }
}

impl Frame {
    /// A frame in which nothing has happened.
    pub fn new() -> (f: Frame)
        ensures
            f@ == Record::blank(),
    {
        Frame {
            events: Vec::new(),
            kills: Vec::new(),
            pending_blasts: Vec::new(),
            rubble: Vec::new(),
            shocks: Vec::new(),
            flashes: Vec::new(),
            fireballs: Vec::new(),
            scorches: Vec::new(),
        }
    }

    pub fn record(&mut self, event: Event)
        ensures
            final(self)@ == old(self)@.with_event(event),
    {
        self.events.push(event);
    }

    pub fn kill(&mut self, at: Point, victim: Owner)
        ensures
            final(self)@ == old(self)@.with_kill(at, victim),
    {
        self.kills.push(Kill { at, victim });
    }

    pub fn shock(&mut self, at: Point, kind: ShockKind)
        ensures
            final(self)@ == old(self)@.with_shock(at, kind),
    {
        self.shocks.push(Shock { at, kind });
    }

    pub fn blaze(&mut self, at: Point, kind: FireballKind)
        ensures
            final(self)@ == old(self)@.with_blaze(at, kind),
    {
        self.flashes.push(at);
        self.fireballs.push(Fireball { at, kind });
    }

    pub fn fireball(&mut self, at: Point, kind: FireballKind)
        ensures
            final(self)@ == old(self)@.with_fireball(at, kind),
    {
        self.fireballs.push(Fireball { at, kind });
    }

    pub fn scorch(&mut self, at: Point, streak: Option<Point>, dry_only: bool)
        ensures
            final(self)@ == old(self)@.with_scorch(at, streak, dry_only),
    {
        self.scorches.push(Scorch { at, streak, dry_only });
    }
}

} // verus!
