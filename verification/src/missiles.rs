//! The seeker missiles: locking a missile at the top of its climb onto the
//! nearest opposing tank, and keeping its aim on that tank while it chases.
//! Nothing here draws a random number.

use vstd::prelude::*;

use crate::event::Event;
use crate::frame::{Frame, Record};
use crate::kinds::Owner;
use crate::pieces::Missile;
use crate::ranking::Ranked;
use crate::scalar::{Point, Scalar};

verus! {

/// A tank a missile can lock.
#[derive(Clone, Copy, Debug, PartialEq, Eq, Structural)]
pub struct LockTarget {
    pub entity: u64,
    pub slot: usize,
    pub owner: Owner,
    pub position: Point,
}

impl Ranked for LockTarget {
    /// By round slot.
    open spec fn ahead(self, other: LockTarget) -> bool {
        self.slot < other.slot
    }

    proof fn ranks(a: LockTarget, b: LockTarget, c: LockTarget) {
    }

    fn is_ahead(&self, other: &LockTarget) -> (r: bool) {
        self.slot < other.slot
    }
}

/// The target is on the other side and in range.
pub open spec fn lockable(m: Missile, t: LockTarget, distance: Scalar, range: Scalar) -> bool {
    m.owner.is_seat() != t.owner.is_seat() && distance.at_most(range)
}

/// The nearest lockable of the first `n` targets, the earliest of equals.
pub open spec fn nearest_lock(
    m: Missile,
    targets: Seq<LockTarget>,
    distances: Seq<Scalar>,
    range: Scalar,
    n: int,
) -> Option<int>
    decreases n,
{
    if n <= 0 {
        None
    } else {
        let best = nearest_lock(m, targets, distances, range, n - 1);
        if lockable(m, targets[n - 1], distances[n - 1], range) && (match best {
            Some(b) => distances[n - 1].total_rank() < distances[b].total_rank(),
            None => true,
        }) {
            Some(n - 1)
        } else {
            best
        }
    }
}

/// The first target with this entity.
pub open spec fn target_at(targets: Seq<LockTarget>, entity: u64) -> Option<LockTarget>
    decreases targets.len(),
{
    if targets.len() == 0 {
        None
    } else if targets[0].entity == entity {
        Some(targets[0])
    } else {
        target_at(targets.skip(1), entity)
    }
}

/// Done climbing and not yet locked.
pub open spec fn wants_lock(m: Missile) -> bool {
    m.climbed && !m.locked
}

/// Following a tank, and not yet diving.
pub open spec fn tracking(m: Missile) -> bool {
    !wants_lock(m) && m.target is Some && !m.diving
}

/// The host's part in aiming a missile, bundled.
pub struct Tubes<O, S, I> {
    /// How far beside an aim point a missile comes down, by its tube.
    pub spread: O,
    /// A place moved by so much.
    pub plus: S,
    /// A place brought into the field.
    pub inside: I,
}

/// The host's part can be asked for anything.
pub open spec fn aims_well<
    O: Fn(Missile, Point) -> Point,
    S: Fn(Point, Point) -> Point,
    I: Fn(Point) -> Point,
>(tubes: Tubes<O, S, I>) -> bool {
    &&& forall|m: Missile, p: Point| call_requires(tubes.spread, (m, p))
    &&& forall|p: Point, by: Point| call_requires(tubes.plus, (p, by))
    &&& forall|p: Point| call_requires(tubes.inside, (p,))
}

/// Where a missile aims, and beside it by how much. One that locks takes its
/// tube's offset from what it locks and keeps within the field; one that
/// follows a tank stays beside it by the offset it has.
pub open spec fn aimed<
    O: Fn(Missile, Point) -> Point,
    S: Fn(Point, Point) -> Point,
    I: Fn(Point) -> Point,
>(tubes: Tubes<O, S, I>, m: Missile, at: Point, offset: Point, aim: Point) -> bool {
    if wants_lock(m) {
        &&& call_ensures(tubes.spread, (m, at), offset)
        &&& exists|beside: Point| #[trigger]
            call_ensures(tubes.plus, (at, offset), beside) && call_ensures(
                tubes.inside,
                (beside,),
                aim,
            )
    } else {
        offset == m.offset && call_ensures(tubes.plus, (at, m.offset), aim)
    }
}

/// What a missile aims at this frame before its tube's offset: the tank it
/// locks or follows, its own aim point when it locks with nothing in range,
/// and nothing new otherwise.
pub open spec fn aims_at(
    m: Missile,
    targets: Seq<LockTarget>,
    distances: Seq<Scalar>,
    range: Scalar,
) -> Option<Point> {
    if wants_lock(m) {
        match nearest_lock(m, targets, distances, range, targets.len() as int) {
            Some(i) => Some(targets[i].position),
            None => Some(m.aim),
        }
    } else if tracking(m) {
        match target_at(targets, m.target->0) {
            Some(t) => Some(t.position),
            None => None,
        }
    } else {
        None
    }
}

/// A missile once `aim` has been settled on.
pub open spec fn guided(
    m: Missile,
    targets: Seq<LockTarget>,
    distances: Seq<Scalar>,
    range: Scalar,
    offset: Point,
    aim: Point,
) -> Missile {
    if wants_lock(m) {
        let target = match nearest_lock(m, targets, distances, range, targets.len() as int) {
            Some(i) => Some(targets[i].entity),
            None => m.target,
        };
        Missile { locked: true, target, aim, offset, ..m }
    } else if tracking(m) {
        match target_at(targets, m.target->0) {
            Some(_) => Missile { aim, ..m },
            None => Missile { target: None, ..m },
        }
    } else {
        m
    }
}

/// What guiding a missile records: a lock, and what it is onto.
pub open spec fn lock_recorded(
    f: Record,
    m: Missile,
    targets: Seq<LockTarget>,
    distances: Seq<Scalar>,
    range: Scalar,
    aim: Point,
) -> Record {
    if wants_lock(m) {
        let target = match nearest_lock(m, targets, distances, range, targets.len() as int) {
            Some(i) => Some(targets[i].slot),
            None => None,
        };
        f.with_event(
            Event::MissileLocked { slot: m.owner.round_slot(), target, x: aim.x, y: aim.y },
        )
    } else {
        f
    }
}

/// A missile was guided for a frame, given how far each target is and where it
/// aims now.
pub open spec fn led<
    O: Fn(Missile, Point) -> Point,
    S: Fn(Point, Point) -> Point,
    I: Fn(Point) -> Point,
>(
    tubes: Tubes<O, S, I>,
    m: Missile,
    targets: Seq<LockTarget>,
    distances: Seq<Scalar>,
    range: Scalar,
    offset: Point,
    aim: Point,
    f: Record,
    out: Missile,
    f_after: Record,
) -> bool {
    match aims_at(m, targets, distances, range) {
        Some(at) => {
            &&& aimed(tubes, m, at, offset, aim)
            &&& out == guided(m, targets, distances, range, offset, aim)
            &&& f_after == lock_recorded(f, m, targets, distances, range, aim)
        },
        None => {
            &&& out == guided(m, targets, distances, range, m.offset, m.aim)
            &&& f_after == f
        },
    }
}

/// Guide one missile for a frame. One done climbing locks onto the nearest
/// opposing tank in range, ties to the lower slot when the targets come in
/// slot order, or with none onto its launcher's aim point; one following a
/// tank keeps its aim on it, and one whose tank is gone comes down where it
/// last aimed.
pub fn guide_missile<
    O: Fn(Missile, Point) -> Point,
    S: Fn(Point, Point) -> Point,
    I: Fn(Point) -> Point,
>(
    f: &mut Frame,
    m: Missile,
    targets: &Vec<LockTarget>,
    distances: &Vec<Scalar>,
    range: Scalar,
    tubes: &Tubes<O, S, I>,
) -> (after: Missile)
    requires
        distances@.len() == targets@.len(),
        aims_well(*tubes),
    ensures
        exists|offset: Point, aim: Point| #[trigger]
            led(
                *tubes,
                m,
                targets@,
                distances@,
                range,
                offset,
                aim,
                old(f)@,
                after,
                final(f)@,
            ),
        m.climbed && !m.locked ==> {
            ||| exists|b: int|
                {
                    &&& 0 <= b < targets@.len()
                    &&& after.target == Some((#[trigger] targets@[b]).entity)
                    &&& m.owner is Player != targets@[b].owner is Player
                    &&& distances@[b].at_most(range)
                    &&& forall|j: int|
                        0 <= j < targets@.len() && (m.owner is Player != (
                        #[trigger] targets@[j]).owner is Player) && distances@[j].at_most(range)
                            ==> distances@[b].total_rank() <= distances@[j].total_rank()
                }
            ||| after.target == m.target && forall|j: int|
                0 <= j < targets@.len() ==> m.owner is Player == (
                #[trigger] targets@[j]).owner is Player || !distances@[j].at_most(range)
        },
        m.climbed && !m.locked ==> after.locked,
{
    proof {
        lemma_lock_in_words(m, targets@, distances@, range);
    }
    let mut after: Missile = m;
    if m.climbed && !m.locked {
        let mut best: Option<usize> = None;
        let mut n: usize = 0;
        while n < targets.len()
            invariant
                n <= targets@.len() == distances@.len(),
                match nearest_lock(m, targets@, distances@, range, n as int) {
                    Some(i) => best == Some(i as usize) && 0 <= i < n,
                    None => best is None,
                },
            decreases targets@.len() - n,
        {
            let nearer: bool = match best {
                Some(b) => distances[n].total_key() < distances[b].total_key(),
                None => true,
            };
            if !m.owner.same_side(targets[n].owner) && distances[n].le(range) && nearer {
                best = Some(n);
            }
            n += 1;
        }
        after.locked = true;
        let mut target: Option<usize> = None;
        if let Some(i) = best {
            after.target = Some(targets[i].entity);
            after.aim = targets[i].position;
            target = Some(targets[i].slot);
        }
        let at: Point = after.aim;
        let offset: Point = (tubes.spread)(m, at);
        let beside: Point = (tubes.plus)(at, offset);
        let aim: Point = (tubes.inside)(beside);
        assert(call_ensures(tubes.plus, (at, offset), beside));
        assert(aimed(*tubes, m, at, offset, aim));
        after.offset = offset;
        after.aim = aim;
        f.record(Event::MissileLocked { slot: m.owner.slot(), target, x: aim.x, y: aim.y });
        assert(aims_at(m, targets@, distances@, range) == Some(at));
        assert(after == guided(m, targets@, distances@, range, offset, aim));
        assert(f@ == lock_recorded(old(f)@, m, targets@, distances@, range, aim));
        assert(led(*tubes, m, targets@, distances@, range, offset, aim, old(f)@, after, f@));
        return after;
    }
    if m.diving {
        assert(led(*tubes, m, targets@, distances@, range, m.offset, m.aim, old(f)@, after, f@));
        return after;
    }
    if let Some(entity) = m.target {
        let mut i: usize = 0;
        assert(targets@.skip(0) =~= targets@);
        while i < targets.len() && targets[i].entity != entity
            invariant
                i <= targets@.len(),
                target_at(targets@, entity) == target_at(targets@.skip(i as int), entity),
            decreases targets@.len() - i,
        {
            assert(targets@.skip(i as int).skip(1) =~= targets@.skip(i + 1));
            i += 1;
        }
        if i < targets.len() {
            let at: Point = targets[i].position;
            let aim: Point = (tubes.plus)(at, m.offset);
            assert(aimed(*tubes, m, at, m.offset, aim));
            after.aim = aim;
            assert(aims_at(m, targets@, distances@, range) == Some(at));
            assert(after == guided(m, targets@, distances@, range, m.offset, aim));
            assert(f@ == lock_recorded(old(f)@, m, targets@, distances@, range, aim));
            assert(led(*tubes, m, targets@, distances@, range, m.offset, aim, old(f)@, after, f@));
            return after;
        } else {
            after.target = None;
        }
    }
    assert(led(*tubes, m, targets@, distances@, range, m.offset, m.aim, old(f)@, after, f@));
    after
}

/// A missile keeps its tube's offset for as long as it chases: its aim is the
/// tank it follows, moved by the offset it has had since it locked.
pub proof fn a_missile_keeps_its_offset_while_it_chases<
    O: Fn(Missile, Point) -> Point,
    S: Fn(Point, Point) -> Point,
    I: Fn(Point) -> Point,
>(
    tubes: Tubes<O, S, I>,
    m: Missile,
    targets: Seq<LockTarget>,
    distances: Seq<Scalar>,
    range: Scalar,
    offset: Point,
    aim: Point,
)
    requires
        tracking(m),
        target_at(targets, m.target->0) is Some,
        aimed(tubes, m, target_at(targets, m.target->0)->0.position, offset, aim),
    ensures
        guided(m, targets, distances, range, offset, aim).offset == m.offset,
        guided(m, targets, distances, range, offset, aim).target == m.target,
        call_ensures(
            tubes.plus,
            (target_at(targets, m.target->0)->0.position, m.offset),
            guided(m, targets, distances, range, offset, aim).aim,
        ),
{
}

proof fn lemma_nearest_lock(
    m: Missile,
    targets: Seq<LockTarget>,
    distances: Seq<Scalar>,
    range: Scalar,
    n: int,
)
    ensures
        nearest_lock(m, targets, distances, range, n) matches Some(b) ==> 0 <= b < n && lockable(
            m,
            targets[b],
            distances[b],
            range,
        ) && (forall|i: int|
            0 <= i < n && #[trigger] lockable(m, targets[i], distances[i], range)
                ==> distances[b].total_rank() < distances[i].total_rank() || (
            distances[b].total_rank() == distances[i].total_rank() && b <= i)),
        nearest_lock(m, targets, distances, range, n) is None ==> forall|i: int|
            0 <= i < n ==> !#[trigger] lockable(m, targets[i], distances[i], range),
    decreases n,
{
    if n > 0 {
        lemma_nearest_lock(m, targets, distances, range, n - 1);
    }
}

/// A missile locks the nearest opposing tank in range, and of several equally
/// near the one listed first, which in slot order is the one in the lowest
/// slot; it locks no tank only when none is in range.
pub proof fn a_missile_locks_the_nearest_opponent(
    m: Missile,
    targets: Seq<LockTarget>,
    distances: Seq<Scalar>,
    range: Scalar,
)
    requires
        forall|i: int, j: int|
            0 <= i < j < targets.len() ==> (#[trigger] targets[i]).slot < (
            #[trigger] targets[j]).slot,
    ensures
        nearest_lock(m, targets, distances, range, targets.len() as int) matches Some(b) ==> {
            &&& 0 <= b < targets.len()
            &&& lockable(m, targets[b], distances[b], range)
            &&& forall|i: int|
                0 <= i < targets.len() && #[trigger] lockable(m, targets[i], distances[i], range)
                    ==> distances[b].total_rank() < distances[i].total_rank() || (
                distances[b].total_rank() == distances[i].total_rank() && targets[b].slot
                    <= targets[i].slot)
        },
        nearest_lock(m, targets, distances, range, targets.len() as int) is None ==> forall|i: int|
            0 <= i < targets.len() ==> !#[trigger] lockable(m, targets[i], distances[i], range),
{
    lemma_nearest_lock(m, targets, distances, range, targets.len() as int);
    if let Some(b) = nearest_lock(m, targets, distances, range, targets.len() as int) {
        assert forall|i: int|
            0 <= i < targets.len() && #[trigger] lockable(m, targets[i], distances[i], range) implies
            distances[b].total_rank() < distances[i].total_rank() || (distances[b].total_rank()
                == distances[i].total_rank() && targets[b].slot <= targets[i].slot) by {
            if b < i {
                assert(targets[b].slot < targets[i].slot);
            }
        }
    }
}

proof fn lemma_lock_in_words(
    m: Missile,
    targets: Seq<LockTarget>,
    distances: Seq<Scalar>,
    range: Scalar,
)
    ensures
        match nearest_lock(m, targets, distances, range, targets.len() as int) {
            Some(b) => {
                &&& 0 <= b < targets.len()
                &&& m.owner is Player != targets[b].owner is Player
                &&& distances[b].at_most(range)
                &&& forall|j: int|
                    0 <= j < targets.len() && (m.owner is Player != (
                    #[trigger] targets[j]).owner is Player) && distances[j].at_most(range)
                        ==> distances[b].total_rank() <= distances[j].total_rank()
            },
            None => forall|j: int|
                0 <= j < targets.len() ==> m.owner is Player == (
                #[trigger] targets[j]).owner is Player || !distances[j].at_most(range),
        },
{
    let n = targets.len() as int;
    lemma_nearest_lock(m, targets, distances, range, n);
    match nearest_lock(m, targets, distances, range, n) {
        Some(b) => {
            assert forall|j: int|
                0 <= j < n && (m.owner is Player != (#[trigger] targets[j]).owner is Player)
                    && distances[j].at_most(range) implies distances[b].total_rank()
                <= distances[j].total_rank() by {
                assert(lockable(m, targets[j], distances[j], range));
            }
        },
        None => {
            assert forall|j: int| 0 <= j < n implies m.owner is Player == (
            #[trigger] targets[j]).owner is Player || !distances[j].at_most(range) by {
                assert(!lockable(m, targets[j], distances[j], range));
            }
        },
    }
}

/// A missile at the top of its climb with a tank of the other side in range,
/// whichever side it was launched from, ends with a target: a nearest such tank.
/// It aims at that tank, and says which it locked.
pub proof fn an_opponent_in_range_is_locked(
    m: Missile,
    targets: Seq<LockTarget>,
    distances: Seq<Scalar>,
    range: Scalar,
    offset: Point,
    aim: Point,
    f: Record,
    i: int,
) -> (b: int)
    requires
        m.climbed,
        !m.locked,
        0 <= i < targets.len(),
        (m.owner is Player && targets[i].owner is Enemy) || (m.owner is Enemy
            && targets[i].owner is Player),
        distances[i].at_most(range),
    ensures
        0 <= b < targets.len(),
        m.owner is Player != targets[b].owner is Player,
        distances[b].at_most(range),
        forall|j: int|
            0 <= j < targets.len() && (m.owner is Player != (#[trigger] targets[j]).owner is Player)
                && distances[j].at_most(range) ==> distances[b].total_rank()
                <= distances[j].total_rank(),
        aims_at(m, targets, distances, range) == Some(targets[b].position),
        guided(m, targets, distances, range, offset, aim) == (Missile {
            locked: true,
            target: Some(targets[b].entity),
            aim,
            offset,
            ..m
        }),
        lock_recorded(f, m, targets, distances, range, aim).events == f.events.push(
            Event::MissileLocked {
                slot: m.owner.round_slot(),
                target: Some(targets[b].slot),
                x: aim.x,
                y: aim.y,
            },
        ),
{
    lemma_lock_in_words(m, targets, distances, range);
    nearest_lock(m, targets, distances, range, targets.len() as int)->0
}

/// A missile at the top of its climb locks nobody only when every tank is on its
/// own side or out of range; it keeps to its launcher's aim point.
pub proof fn nobody_is_locked_only_when_nobody_is_in_range(
    m: Missile,
    targets: Seq<LockTarget>,
    distances: Seq<Scalar>,
    range: Scalar,
    offset: Point,
    aim: Point,
    f: Record,
)
    requires
        m.climbed,
        !m.locked,
        forall|j: int|
            0 <= j < targets.len() ==> m.owner is Player == (
            #[trigger] targets[j]).owner is Player || !distances[j].at_most(range),
    ensures
        aims_at(m, targets, distances, range) == Some(m.aim),
        guided(m, targets, distances, range, offset, aim) == (Missile {
            locked: true,
            aim,
            offset,
            ..m
        }),
        lock_recorded(f, m, targets, distances, range, aim).events == f.events.push(
            Event::MissileLocked {
                slot: m.owner.round_slot(),
                target: None,
                x: aim.x,
                y: aim.y,
            },
        ),
{
    lemma_lock_in_words(m, targets, distances, range);
}

proof fn lemma_target_at(targets: Seq<LockTarget>, entity: u64)
    ensures
        match target_at(targets, entity) {
            Some(t) => t.entity == entity && targets.contains(t),
            None => forall|i: int| 0 <= i < targets.len() ==> (#[trigger] targets[i]).entity != entity,
        },
    decreases targets.len(),
{
    if targets.len() > 0 && targets[0].entity != entity {
        lemma_target_at(targets.skip(1), entity);
        match target_at(targets.skip(1), entity) {
            Some(t) => {
                let k = choose|k: int| 0 <= k < targets.len() - 1 && targets.skip(1)[k] == t;
                assert(targets[k + 1] == t);
            },
            None => {
                assert forall|i: int| 0 <= i < targets.len() implies (
                #[trigger] targets[i]).entity != entity by {
                    if i > 0 {
                        assert(targets.skip(1)[i - 1] == targets[i]);
                    }
                }
            },
        }
    }
}

/// A missile that follows a tank keeps it while it is among the targets, and
/// aims where it stands now; it lets go of one that is not, and comes down where
/// it last aimed. One that dives, still climbs or follows nobody is left alone.
pub proof fn a_missile_follows_its_tank(
    m: Missile,
    targets: Seq<LockTarget>,
    distances: Seq<Scalar>,
    range: Scalar,
    offset: Point,
    aim: Point,
    f: Record,
)
    requires
        !m.climbed || m.locked,
    ensures
        lock_recorded(f, m, targets, distances, range, aim) == f,
        m.diving || m.target is None ==> aims_at(m, targets, distances, range) is None && guided(
            m,
            targets,
            distances,
            range,
            offset,
            aim,
        ) == m,
        !m.diving && (m.target matches Some(e) && forall|i: int|
            0 <= i < targets.len() ==> (#[trigger] targets[i]).entity != e) ==> {
            &&& aims_at(m, targets, distances, range) is None
            &&& guided(m, targets, distances, range, offset, aim) == (Missile { target: None, ..m })
        },
        !m.diving && (m.target matches Some(e) && exists|i: int|
            0 <= i < targets.len() && (#[trigger] targets[i]).entity == e) ==> {
            &&& exists|i: int|
                0 <= i < targets.len() && m.target == Some((#[trigger] targets[i]).entity)
                    && aims_at(m, targets, distances, range) == Some(targets[i].position)
            &&& guided(m, targets, distances, range, offset, aim) == (Missile { aim, ..m })
        },
{
    if let Some(e) = m.target {
        lemma_target_at(targets, e);
        if let Some(t) = target_at(targets, e) {
            let k = choose|k: int| 0 <= k < targets.len() && targets[k] == t;
            assert(targets[k].entity == e);
        }
    }
}

} // verus!
