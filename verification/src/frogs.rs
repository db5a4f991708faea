//! A frog's reflexes: it bites the nearest tank of the other side that comes
//! close, and hops away from the nearest tank of either.
//!
//! The two reflexes choose their own tank and run on their own cooldowns. How
//! far each tank stands, what a bite takes off and where a hop lands are the
//! host's to work out.

use vstd::prelude::*;

use crate::event::Event;
use crate::frame::{Frame, Record};
use crate::kinds::{Owner, Side};
use crate::pieces::{Frog, Tank};
use crate::scalar::{Point, Scalar};

verus! {

/// A tank as a frog sees it.
#[derive(Clone, Copy, Debug, PartialEq, Eq, Structural)]
pub struct NearTank {
    pub entity: u64,
    pub owner: Owner,
    pub wreck: bool,
    /// Still driving in through a gate.
    pub rolling_in: bool,
    pub distance: Scalar,
}

impl NearTank {
    /// A tank on the field that can still fight, of the side a reflex looks
    /// at: any side for a hop, the other side for a bite.
    pub open spec fn concerns(self, biter: Option<Side>) -> bool {
        !self.wreck && !self.rolling_in && (biter matches Some(side) ==> side.bites(self.owner))
    }

    fn is_concern(&self, biter: Option<Side>) -> (r: bool)
        ensures
            r == self.concerns(biter),
    {
        !self.wreck && !self.rolling_in && match biter {
            Some(side) => side.bites(self.owner),
            None => true,
        }
    }
}

/// The nearest of the first `n` tanks a reflex looks at, the earliest of
/// equals.
pub open spec fn nearest(tanks: Seq<NearTank>, biter: Option<Side>, n: int) -> Option<int>
    decreases n,
{
    if n <= 0 {
        None
    } else {
        let best = nearest(tanks, biter, n - 1);
        if tanks[n - 1].concerns(biter) && (match best {
            Some(b) => tanks[n - 1].distance.total_rank() < tanks[b].distance.total_rank(),
            None => true,
        }) {
            Some(n - 1)
        } else {
            best
        }
    }
}

fn find_nearest(tanks: &Vec<NearTank>, biter: Option<Side>) -> (r: Option<usize>)
    ensures
        match nearest(tanks@, biter, tanks@.len() as int) {
            Some(i) => r == Some(i as usize) && 0 <= i < tanks@.len(),
            None => r is None,
        },
{
    let mut best: Option<usize> = None;
    let mut n: usize = 0;
    while n < tanks.len()
        invariant
            n <= tanks@.len(),
            match nearest(tanks@, biter, n as int) {
                Some(i) => best == Some(i as usize) && 0 <= i < n,
                None => best is None,
            },
        decreases tanks@.len() - n,
    {
        if tanks[n].is_concern(biter) {
            let closer: bool = match best {
                Some(b) => tanks[n].distance.total_key() < tanks[b].distance.total_key(),
                None => true,
            };
            if closer {
                best = Some(n);
            }
        }
        n += 1;
    }
    best
}

/// The nearest tank a reflex looks at is one of those it looks at, and none of
/// them is nearer.
pub proof fn nearest_is_nearest(tanks: Seq<NearTank>, biter: Option<Side>, n: int)
    requires
        0 <= n <= tanks.len(),
    ensures
        match nearest(tanks, biter, n) {
            Some(i) => 0 <= i < n && tanks[i].concerns(biter) && forall|j: int|
                0 <= j < n && (#[trigger] tanks[j]).concerns(biter)
                    ==> tanks[i].distance.total_rank() <= tanks[j].distance.total_rank(),
            None => forall|j: int| 0 <= j < n ==> !(#[trigger] tanks[j]).concerns(biter),
        },
    decreases n,
{
    if n > 0 {
        nearest_is_nearest(tanks, biter, n - 1);
    }
}

/// What a frog does this frame, each by the tank's place in the list.
#[derive(Clone, Copy, Debug, PartialEq, Eq, Structural)]
pub struct Reflexes {
    pub bite: Option<usize>,
    pub hop: Option<usize>,
}

/// The nearest tank a reflex looks at, if it is in range.
pub open spec fn provoked(
    ready: bool,
    tanks: Seq<NearTank>,
    biter: Option<Side>,
    range: Scalar,
) -> Option<int> {
    if ready {
        match nearest(tanks, biter, tanks.len() as int) {
            Some(i) => if tanks[i].distance.at_most(range) {
                Some(i)
            } else {
                None
            },
            None => None,
        }
    } else {
        None
    }
}

fn provoke(ready: bool, tanks: &Vec<NearTank>, biter: Option<Side>, range: Scalar) -> (r: Option<
    usize,
>)
    ensures
        match provoked(ready, tanks@, biter, range) {
            Some(i) => r == Some(i as usize) && 0 <= i < tanks@.len(),
            None => r is None,
        },
{
    if !ready {
        return None;
    }
    let found: Option<usize> = find_nearest(tanks, biter);
    let count: usize = tanks.len();
    proof {
        nearest_is_nearest(tanks@, biter, count as int);
    }
    match found {
        Some(i) => if tanks[i].distance.le(range) {
            Some(i)
        } else {
            None
        },
        None => None,
    }
}

/// Decide one frog's reflexes.
pub fn frog_reflexes(frog: &Frog, tanks: &Vec<NearTank>, attack_range: Scalar, avoid_range: Scalar) -> (r:
    Reflexes)
    ensures
        match provoked(frog.can_attack, tanks@, Some(frog.side), attack_range) {
            Some(i) => r.bite == Some(i as usize) && 0 <= i < tanks@.len(),
            None => r.bite is None,
        },
        match provoked(frog.can_hop, tanks@, None, avoid_range) {
            Some(i) => r.hop == Some(i as usize) && 0 <= i < tanks@.len(),
            None => r.hop is None,
        },
{
    Reflexes {
        bite: provoke(frog.can_attack, tanks, Some(frog.side), attack_range),
        hop: provoke(frog.can_hop, tanks, None, avoid_range),
    }
}

/// A frog bites only a living tank of the other side, within its range, with
/// none of them nearer.
pub proof fn a_bite_is_at_the_nearest_foe(frog: Frog, tanks: Seq<NearTank>, range: Scalar)
    ensures
        provoked(frog.can_attack, tanks, Some(frog.side), range) matches Some(i) ==> {
            &&& 0 <= i < tanks.len()
            &&& frog.side.bites(tanks[i].owner)
            &&& !tanks[i].wreck && !tanks[i].rolling_in
            &&& tanks[i].distance.at_most(range)
            &&& forall|j: int|
                0 <= j < tanks.len() && (#[trigger] tanks[j]).concerns(Some(frog.side))
                    ==> tanks[i].distance.total_rank() <= tanks[j].distance.total_rank()
        },
{
    nearest_is_nearest(tanks, Some(frog.side), tanks.len() as int);
}

/// What a bite records: the bite, and the kill if it was one.
pub open spec fn bitten(f: Record, side: Side, damage: Scalar, after: Tank) -> Record {
    let f = f.with_event(
        Event::FrogBite { side, slot: after.slot(), damage, killed: after.wreck },
    );
    if after.wreck {
        f.with_kill(after.position, after.owner)
    } else {
        f
    }
}

/// A frog bites a tank. `strike` rolls the damage; its second argument says
/// whether it must leave the tank alive, which is so of every seat: a frog is
/// a hazard, not a fair fight.
pub fn bite<F: FnOnce(Tank, bool) -> (Scalar, Tank)>(
    f: &mut Frame,
    side: Side,
    tank: Tank,
    is_player: bool,
    strike: F,
) -> (after: Tank)
    requires
        call_requires(strike, (tank, is_player)),
        forall|damage: Scalar, after: Tank|
            is_player && #[trigger] call_ensures(strike, (tank, is_player), (damage, after))
                ==> !after.wreck,
    ensures
        exists|damage: Scalar| #[trigger]
            call_ensures(strike, (tank, is_player), (damage, after)) && final(f)@ == bitten(
                old(f)@,
                side,
                damage,
                after,
            ),
        is_player ==> !after.wreck && final(f)@.kills == old(f)@.kills,
{
    let (damage, after): (Scalar, Tank) = strike(tank, is_player);
    f.record(Event::FrogBite { side, slot: after.owner_slot(), damage, killed: after.wreck });
    if after.wreck {
        f.kill(after.position, after.owner);
    }
    after
}

/// A fresh frog, at full health and ready for anything.
pub fn new_frog(side: Side, position: Point, variant: i32, health: Scalar) -> (frog: Frog)
    ensures
        frog == (Frog {
            side,
            position,
            health,
            max_health: health,
            variant,
            dead: false,
            can_attack: true,
            can_hop: true,
        }),
        !health.is_nan() ==> frog.full(),
{
    Frog {
        side,
        position,
        health,
        max_health: health,
        variant,
        dead: false,
        can_attack: true,
        can_hop: true,
    }
}

/// A tank that is in a frog's reach: running, on the field, and for a bite of the
/// other side than the frog.
pub open spec fn bothers(t: NearTank, biter: Option<Side>, range: Scalar) -> bool {
    &&& !t.wreck && !t.rolling_in && t.distance.at_most(range)
    &&& match biter {
        Some(Side::Player) => t.owner is Enemy,
        Some(Side::Enemy) => t.owner is Player,
        None => true,
    }
}

/// A frog that is ready answers a tank in its reach, a nearest one of those that
/// concern it; it lies still only when it is not ready or none is in reach. A
/// bite is for the other side, a hop for anybody.
pub proof fn a_ready_frog_answers_who_is_in_reach(
    ready: bool,
    tanks: Seq<NearTank>,
    biter: Option<Side>,
    range: Scalar,
)
    requires
        forall|i: int| 0 <= i < tanks.len() ==> (#[trigger] tanks[i]).distance.bits <= 0x7f80_0000,
    ensures
        provoked(ready, tanks, biter, range) is Some <==> ready && exists|i: int|
            0 <= i < tanks.len() && bothers(#[trigger] tanks[i], biter, range),
        provoked(ready, tanks, biter, range) matches Some(b) ==> {
            &&& 0 <= b < tanks.len() && bothers(tanks[b], biter, range)
            &&& forall|i: int|
                0 <= i < tanks.len() && bothers(#[trigger] tanks[i], biter, range)
                    ==> tanks[b].distance.at_most(tanks[i].distance)
        },
{
    nearest_is_nearest(tanks, biter, tanks.len() as int);
    assert forall|i: int| 0 <= i < tanks.len() && bothers(#[trigger] tanks[i], biter, range) implies
        tanks[i].concerns(biter) by {
    }
    if let Some(b) = nearest(tanks, biter, tanks.len() as int) {
        assert(tanks[b].distance.bits <= 0x7f80_0000);
        assert forall|i: int|
            0 <= i < tanks.len() && bothers(#[trigger] tanks[i], biter, range) implies
            tanks[b].distance.at_most(tanks[i].distance) && tanks[b].distance.at_most(range) by {
            assert(tanks[i].concerns(biter));
            assert(tanks[i].distance.bits <= 0x7f80_0000);
        }
    }
}

/// A bite is told with the frog's side and the tank's slot, and a death of it is
/// a kill where the tank stands.
pub proof fn a_bite_is_told(f: Record, side: Side, damage: Scalar, after: Tank)
    ensures
        ({
            let g = bitten(f, side, damage, after);
            &&& g.events == f.events.push(
                Event::FrogBite { side, slot: after.slot(), damage, killed: after.wreck },
            )
            &&& after.wreck ==> g.kills.len() == f.kills.len() + 1 && g.kills.last().victim
                == after.owner && g.kills.last().at == after.position
            &&& !after.wreck ==> g.kills == f.kills
        }),
{
}

} // verus!
