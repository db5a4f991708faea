//! How a hull answers its driver.
//!
//! The host works out each way the hull's speed could change this frame; which
//! of them it takes, and what the ground takes from it, is decided here.

use vstd::prelude::*;

use crate::field::{thing, Kind};
use crate::game::{keeps_identities, lemma_identities, Game};
use crate::pieces::Tank;
use crate::scalar::Scalar;

verus! {

/// The ways a hull's speed along its heading could change this frame.
#[derive(Clone, Copy, Debug, PartialEq, Eq, Structural)]
pub struct Pull {
    /// The change wanted times the speed it has: not below zero while the hull
    /// speeds up or holds its speed.
    pub with_motion: Scalar,
    /// All of the change that is wanted.
    pub want: Scalar,
    /// As much of it as the engine gives.
    pub engine: Scalar,
    /// As much of it as rolling out gives, and how far that falls short.
    pub rolled: Scalar,
    pub short: Scalar,
}

impl Pull {
    /// The hull speeds up, or holds its speed.
    pub open spec fn speeds_up(self) -> bool {
        Scalar::zero().at_most(self.with_motion)
    }

    /// The change the hull takes: the engine's while it speeds up. Slowing
    /// down it rolls out, and takes all of the change once what is left falls
    /// below `snap`, so that it comes to rest.
    pub fn taken(&self, snap: Scalar) -> (delta: Scalar)
        ensures
            delta == (if self.speeds_up() {
                self.engine
            } else if self.short.below(snap) {
                self.want
            } else {
                self.rolled
            }),
    {
        if Scalar::zero().le(self.with_motion) {
            self.engine
        } else if self.short.lt(snap) {
            self.want
        } else {
            self.rolled
        }
    }
}

impl Game {
    /// A tank is driven over the ground. Water takes the boost and puts the
    /// hull out: both end the moment it wades in.
    pub fn drive_over(&mut self, entity: u64, wading: bool)
        requires
            old(self).wf(),
        ensures
            final(self).wf(),
            match thing::<Tank>(old(self).field@, entity) {
                Some(t) => final(self).field@ == old(self).field@.insert(
                    entity,
                    (Tank {
                        speed_boost: if wading {
                            Scalar::zero()
                        } else {
                            t.speed_boost
                        },
                        burn_timer: if wading {
                            Scalar::zero()
                        } else {
                            t.burn_timer
                        },
                        ..t
                    }).as_piece(),
                ),
                None => final(self).field@ == old(self).field@,
            },
            final(self).round == old(self).round,
            final(self).keeps_surroundings(old(self)),
            final(self).events == old(self).events,
    {
        let ghost before = self.field@;
        let found: Option<Tank> = self.field.get(entity);
        if let Some(t) = found {
            if wading {
                let zero: Scalar = Scalar::zero();
                self.field.put(entity, Tank { speed_boost: zero, burn_timer: zero, ..t });
            } else {
                assert(before.insert(entity, t.as_piece()) =~= before);
            }
        }
        proof {
            assert(keeps_identities(before, self.field@));
            lemma_identities(self.round, before, self.field@);
        }
    }
}

/// A hull speeds up, or holds its speed, when the change wanted does not go
/// against its motion.
pub proof fn a_hull_speeds_up_with_its_motion(p: Pull)
    ensures
        p.speeds_up() <==> Scalar::zero().at_most(p.with_motion),
        p.with_motion.below(Scalar::zero()) ==> !p.speeds_up(),
        Scalar::zero().below(p.with_motion) ==> p.speeds_up(),
{
}

} // verus!
