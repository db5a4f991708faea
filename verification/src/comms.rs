//! The pack's vocabulary: what one enemy can tell the others, and what the
//! commander can tell one enemy.
//!
//! A [`Signal`] is a fact, broadcast and unaddressed. An [`Order`] is a
//! directive, addressed to exactly one tank for exactly one frame. Everything
//! is keyed by round slot: slots are stable for a whole round, never reused,
//! and ordered.

use vstd::prelude::*;

use crate::kinds::{Dir, PickupKind};
use crate::scalar::Scalar;

verus! {

/// Who a fact is about, or who an order is addressed to.
#[derive(Clone, Copy, Debug, PartialEq, Eq, Structural)]
pub enum Unit {
    /// A human player, by seat.
    Player(u8),
    /// An enemy, by round slot.
    Enemy(usize),
}

/// Where a player was last seen, and how stale that is.
#[derive(Clone, Copy, Debug, PartialEq, Eq, Structural)]
pub struct Sighting {
    pub x: Scalar,
    pub y: Scalar,
    /// Seconds since the sighting.
    pub age: Scalar,
}

/// A stretch of ground one unit has spoken for.
#[derive(Clone, Copy, Debug, PartialEq, Eq, Structural)]
pub struct Lane {
    pub by: Unit,
    pub from_x: Scalar,
    pub from_y: Scalar,
    pub to_x: Scalar,
    pub to_y: Scalar,
    /// Seconds of life left.
    pub ttl: Scalar,
}

/// A live pickup's stable identity. Pickups never move, so the kind plus the
/// cell it sits in is a key that survives across frames.
#[derive(Clone, Copy, Debug, PartialEq, Eq, Structural)]
pub struct PickupKey {
    pub kind: PickupKind,
    pub col: i32,
    pub row: i32,
}

/// Who is going for a pickup, and why.
#[derive(Clone, Copy, Debug, PartialEq, Eq, Structural)]
pub struct Claim {
    pub what: PickupKey,
    pub by: usize,
    /// Seconds the claim has been held.
    pub held: Scalar,
    /// Claimed to take it off the player rather than out of need.
    pub contested: bool,
}

/// A fact the pack knows this frame.
#[derive(Clone, Copy, Debug, PartialEq, Eq, Structural)]
pub enum Signal {
    /// A unit can see a player right now.
    Spotted { by: Unit, player: u8, x: Scalar, y: Scalar },
    /// A unit was hit from somewhere.
    TookFire { by: Unit, x: Scalar, y: Scalar },
    /// A unit is in hull contact with another.
    Contact { by: Unit, with: Unit },
}

/// What the commander tells one tank to do. The reflex orders (`Slow`,
/// `Hold`, `Nudge`, `HoldFire`) are applied to an intent that has already
/// been formed, this frame. The goal orders (`Goto`, `Fetch`, `Focus`) are
/// read when the next one is formed, and `Ram` when contact damage is dealt.
#[derive(Clone, Copy, Debug, PartialEq, Eq, Structural)]
pub enum Order {
    /// Ease off the throttle, 0 (no change) to 1 (stop).
    Slow { by: Scalar },
    /// Stop driving this frame; keep the facing, so the tank still aims and
    /// shoots.
    Hold,
    /// Drive this cardinal instead of the one already picked.
    Nudge { dir: Dir },
    /// Contact damage against `victim` is authorised.
    Ram { victim: Unit },
    /// Walk at this point instead of the engagement-ring slot.
    Goto { x: Scalar, y: Scalar },
    /// Go and collect this.
    Fetch { what: PickupKey },
    /// Concentrate on this player.
    Focus { player: u8 },
    /// Do not fire this frame.
    HoldFire,
}

/// What the pack knows, and what it has spoken for.
pub struct Blackboard {
    /// Last known position of each player.
    pub spotted: [Option<Sighting>; 2],
    /// What fraction of the live pack is engaged on each player.
    pub threat: [Scalar; 2],
    /// Mean health of the live enemies, scaled down while outnumbered.
    pub morale: Scalar,
    /// Ground spoken for this frame.
    pub lanes: Vec<Lane>,
    /// One claim per pickup.
    pub claims: Vec<Claim>,
}

impl Blackboard {
    /// No pickup is claimed twice.
    pub open spec fn wf(&self) -> bool {
        forall|i: int, j: int|
            0 <= i < j < self.claims@.len() ==> (#[trigger] self.claims@[i]).what != (
            #[trigger] self.claims@[j]).what
    }

    /// Nothing known.
    pub open spec fn blank(&self) -> bool {
        &&& self.spotted@ == seq![None::<Sighting>, None::<Sighting>]
        &&& self.threat@ == seq![Scalar::zero(), Scalar::zero()]
        &&& self.morale == Scalar::zero()
        &&& self.lanes@.len() == 0
        &&& self.claims@.len() == 0
    }
}

impl Default for Blackboard {
    fn default() -> (board: Blackboard)
        ensures
            board.wf(),
            board.blank(),
    {
        let board = Blackboard {
            spotted: [None, None],
            threat: [Scalar::zero(), Scalar::zero()],
            morale: Scalar::zero(),
            lanes: Vec::new(),
            claims: Vec::new(),
        };
        assert(board.spotted@ =~= seq![None::<Sighting>, None::<Sighting>]);
        assert(board.threat@ =~= seq![Scalar::zero(), Scalar::zero()]);
        board
    }
}

/// The first `n` lanes that outlive the frame, each with its remaining time.
pub open spec fn lanes_left(lanes: Seq<Lane>, ttls: Seq<Scalar>, n: int) -> Seq<Lane>
    decreases n,
{
    if n <= 0 {
        Seq::empty()
    } else {
        let before = lanes_left(lanes, ttls, n - 1);
        if Scalar::zero().below(ttls[n - 1]) {
            before.push(Lane { ttl: ttls[n - 1], ..lanes[n - 1] })
        } else {
            before
        }
    }
}

/// The claims with their clocks advanced.
pub open spec fn claims_held(claims: Seq<Claim>, helds: Seq<Scalar>) -> Seq<Claim> {
    Seq::new(claims.len(), |i: int| Claim { held: helds[i], ..claims[i] })
}

impl Blackboard {
    /// Drop the per-frame facts, keeping the ones with their own lifetime:
    /// claims, and lanes until their time runs out. `ttls` and `helds` are the
    /// lanes' and the claims' clocks as they read after this frame's time has
    /// passed.
    pub fn begin_frame(&mut self, ttls: &Vec<Scalar>, helds: &Vec<Scalar>)
        requires
            ttls@.len() == old(self).lanes@.len(),
            helds@.len() == old(self).claims@.len(),
        ensures
            final(self).lanes@ == lanes_left(
                old(self).lanes@,
                ttls@,
                old(self).lanes@.len() as int,
            ),
            final(self).claims@ == claims_held(old(self).claims@, helds@),
            final(self).spotted == old(self).spotted,
            final(self).threat == old(self).threat,
            final(self).morale == old(self).morale,
            old(self).wf() ==> final(self).wf(),
    {
        let mut lanes: Vec<Lane> = Vec::new();
        let mut n: usize = 0;
        while n < self.lanes.len()
            invariant
                n <= self.lanes@.len() == ttls@.len(),
                lanes@ == lanes_left(self.lanes@, ttls@, n as int),
            decreases self.lanes@.len() - n,
        {
            if ttls[n].positive() {
                let lane: Lane = self.lanes[n];
                lanes.push(Lane { ttl: ttls[n], ..lane });
            }
            n += 1;
        }
        self.lanes = lanes;
        let ghost before = self.claims@;
        let mut i: usize = 0;
        while i < self.claims.len()
            invariant
                i <= self.claims@.len() == helds@.len(),
                self.claims@.len() == before.len(),
                forall|j: int|
                    0 <= j < i ==> #[trigger] self.claims@[j] == claims_held(before, helds@)[j],
                forall|j: int| i <= j < before.len() ==> #[trigger] self.claims@[j] == before[j],
                self.lanes@ == lanes_left(old(self).lanes@, ttls@, old(self).lanes@.len() as int),
                self.spotted == old(self).spotted,
                self.threat == old(self).threat,
                self.morale == old(self).morale,
            decreases self.claims@.len() - i,
        {
            let claim: Claim = self.claims[i];
            self.claims.set(i, Claim { held: helds[i], ..claim });
            i += 1;
        }
        assert(self.claims@ =~= claims_held(before, helds@));
        assert(old(self).wf() ==> self.wf()) by {
            if old(self).wf() {
                assert forall|a: int, b: int| 0 <= a < b < self.claims@.len() implies (
                #[trigger] self.claims@[a]).what != (#[trigger] self.claims@[b]).what by {
                    assert(before[a].what != before[b].what);
                }
            }
        }
    }
}

proof fn lemma_lanes_left(lanes: Seq<Lane>, ttls: Seq<Scalar>, n: int)
    requires
        0 <= n <= lanes.len() == ttls.len(),
    ensures
        ({
            let left = lanes_left(lanes, ttls, n);
            &&& left.len() <= n
            &&& forall|i: int|
                #![trigger lanes[i]]
                0 <= i < n && Scalar::zero().below(ttls[i]) ==> left.contains(
                    Lane { ttl: ttls[i], ..lanes[i] },
                )
            &&& forall|p: int|
                0 <= p < left.len() ==> Scalar::zero().below((#[trigger] left[p]).ttl) && exists|
                    i: int,
                |
                    #![trigger lanes[i]]
                    0 <= i < n && left[p] == (Lane { ttl: ttls[i], ..lanes[i] })
        }),
    decreases n,
{
    if n > 0 {
        lemma_lanes_left(lanes, ttls, n - 1);
        let before = lanes_left(lanes, ttls, n - 1);
        let left = lanes_left(lanes, ttls, n);
        assert forall|i: int|
            #![trigger lanes[i]]
            0 <= i < n && Scalar::zero().below(ttls[i]) implies left.contains(
            Lane { ttl: ttls[i], ..lanes[i] },
        ) by {
            let lane = Lane { ttl: ttls[i], ..lanes[i] };
            if i < n - 1 {
                let p = choose|p: int| 0 <= p < before.len() && before[p] == lane;
                assert(left[p] == lane);
            } else {
                assert(left[left.len() - 1] == lane);
            }
        }
        assert forall|p: int| 0 <= p < left.len() implies Scalar::zero().below(
            (#[trigger] left[p]).ttl,
        ) && exists|i: int|
            #![trigger lanes[i]]
            0 <= i < n && left[p] == (Lane { ttl: ttls[i], ..lanes[i] }) by {
            if p < before.len() {
                assert(before[p] == left[p]);
                let i = choose|i: int|
                    #![trigger lanes[i]]
                    0 <= i < n - 1 && before[p] == (Lane { ttl: ttls[i], ..lanes[i] });
                assert(left[p] == (Lane { ttl: ttls[i], ..lanes[i] }));
            } else {
                assert(left[p] == (Lane { ttl: ttls[n - 1], ..lanes[n - 1] }));
            }
        }
    }
}

/// A lane stays on the board as long as it has time left, with that time on its
/// clock, and leaves it when it has none; a claim stays, with its clock on.
pub proof fn a_lane_lasts_as_long_as_its_time(
    lanes: Seq<Lane>,
    ttls: Seq<Scalar>,
    claims: Seq<Claim>,
    helds: Seq<Scalar>,
)
    requires
        lanes.len() == ttls.len(),
        claims.len() == helds.len(),
    ensures
        ({
            let left = lanes_left(lanes, ttls, lanes.len() as int);
            &&& forall|i: int|
                #![trigger lanes[i]]
                0 <= i < lanes.len() && Scalar::zero().below(ttls[i]) ==> left.contains(
                    Lane { ttl: ttls[i], ..lanes[i] },
                )
            &&& forall|p: int|
                0 <= p < left.len() ==> Scalar::zero().below((#[trigger] left[p]).ttl)
        }),
        claims_held(claims, helds).len() == claims.len(),
        forall|i: int|
            0 <= i < claims.len() ==> {
                let c = #[trigger] claims_held(claims, helds)[i];
                c.held == helds[i] && c.what == claims[i].what && c == (Claim {
                    held: helds[i],
                    ..claims[i]
                })
            },
{
    lemma_lanes_left(lanes, ttls, lanes.len() as int);
}

} // verus!
