//! Pickups coming back: one at a time, to a free slot, and the bonuses that
//! ride along with a health pack.
//!
//! The host says which places coincide and rolls for the bonuses.

use rand::rngs::SmallRng;
use vstd::prelude::*;

use crate::event::Event;
use crate::field::{lists, thing, Kind};
use crate::frame::{Frame, Record};
use crate::game::{Game, Round};
use crate::kinds::PickupKind;
use crate::pickups::{
    bonus_pickup_cell, count_true, frog_wants_a_pack, respawn_clock, respawn_from_slots,
    slot_backed_count, BonusCell, PickupSlot,
};
use crate::pieces::{Frog, Pickup, Piece};
use crate::scalar::{Point, Scalar};

verus! {

/// Where the pickups of a list lie.
pub open spec fn spots_of(all: Seq<(u64, Pickup)>) -> Seq<Point> {
    Seq::new(all.len(), |k: int| all[k].1.position)
}

/// Whether one of some spots is the place `p`, as `same` has it.
pub open spec fn covered<N: Fn(Point, Point) -> bool>(
    same: N,
    spots: Seq<Point>,
    p: Point,
    r: bool,
) -> bool {
    if r {
        exists|i: int| 0 <= i < spots.len() && call_ensures(same, (#[trigger] spots[i], p), true)
    } else {
        forall|i: int| 0 <= i < spots.len() ==> call_ensures(same, (#[trigger] spots[i], p), false)
    }
}

fn is_covered<N: Fn(Point, Point) -> bool>(same: &N, spots: &Vec<Point>, p: Point) -> (r: bool)
    requires
        forall|a: Point, b: Point| call_requires(*same, (a, b)),
    ensures
        covered(*same, spots@, p, r),
{
    let mut i: usize = 0;
    while i < spots.len()
        invariant
            i <= spots@.len(),
            forall|a: Point, b: Point| call_requires(*same, (a, b)),
            forall|k: int| 0 <= k < i ==> call_ensures(*same, (#[trigger] spots@[k], p), false),
        decreases spots@.len() - i,
    {
        if same(spots[i], p) {
            assert(call_ensures(*same, (spots@[i as int], p), true));
            return true;
        }
        i += 1;
    }
    false
}

/// Which of some places are among the spots.
pub open spec fn all_covered<N: Fn(Point, Point) -> bool>(
    same: N,
    spots: Seq<Point>,
    places: Seq<Point>,
    taken: Seq<bool>,
) -> bool {
    taken.len() == places.len() && forall|k: int|
        0 <= k < places.len() ==> covered(same, spots, places[k], #[trigger] taken[k])
}

fn cover_all<N: Fn(Point, Point) -> bool>(same: &N, spots: &Vec<Point>, places: &Vec<Point>) -> (
    taken: Vec<bool>)
    requires
        forall|a: Point, b: Point| call_requires(*same, (a, b)),
    ensures
        all_covered(*same, spots@, places@, taken@),
{
    let mut taken: Vec<bool> = Vec::new();
    let mut n: usize = 0;
    while n < places.len()
        invariant
            n <= places@.len(),
            taken@.len() == n,
            forall|a: Point, b: Point| call_requires(*same, (a, b)),
            forall|k: int| 0 <= k < n ==> covered(*same, spots@, places@[k], #[trigger] taken@[k]),
        decreases places@.len() - n,
    {
        taken.push(is_covered(same, spots, places[n]));
        n += 1;
    }
    taken
}

/// A cell beside a slot.
#[derive(Clone, Copy, Debug, PartialEq, Eq, Structural)]
pub struct Site {
    pub at: Point,
    /// Empty, road or water in the map.
    pub open: bool,
    /// Its centre is inside the border walls.
    pub inside: bool,
}

/// Where the sites are.
pub open spec fn places(sites: Seq<Site>) -> Seq<Point> {
    Seq::new(sites.len(), |k: int| sites[k].at)
}

/// Whether a pickup of a kind already lies beside a slot.
pub open spec fn kind_beside<B: Fn(Point, Point) -> bool>(
    beside: B,
    slot: Point,
    all: Seq<(u64, Pickup)>,
    kind: PickupKind,
    r: bool,
) -> bool {
    if r {
        exists|i: int|
            0 <= i < all.len() && (#[trigger] all[i]).1.kind == kind && call_ensures(
                beside,
                (slot, all[i].1.position),
                true,
            )
    } else {
        forall|i: int|
            0 <= i < all.len() && (#[trigger] all[i]).1.kind == kind ==> call_ensures(
                beside,
                (slot, all[i].1.position),
                false,
            )
    }
}

/// A bonus was dropped on a site that is open, inside and free, and none was
/// only if there is no such site.
pub open spec fn dropped(
    sites: Seq<Site>,
    taken: Seq<bool>,
    kind: PickupKind,
    before: Map<u64, Piece>,
    after: Map<u64, Piece>,
    r: Option<u64>,
) -> bool {
    match r {
        Some(id) => !before.contains_key(id) && exists|i: int|
            {
                &&& 0 <= i < sites.len()
                &&& (#[trigger] sites[i]).open
                &&& sites[i].inside
                &&& !taken[i]
                &&& after == before.insert(
                    id,
                    Pickup { kind, position: sites[i].at }.as_piece(),
                )
            },
        None => after == before && forall|i: int|
            0 <= i < sites.len() && (#[trigger] sites[i]).open && sites[i].inside ==> taken[i],
    }
}

/// Everything is as it was, and whatever is new is a bonus lying there.
pub open spec fn bonuses_only(before: Map<u64, Piece>, after: Map<u64, Piece>) -> bool {
    forall|id: u64|
        #![trigger after.contains_key(id)]
        #![trigger before.contains_key(id)]
        if before.contains_key(id) {
            after.contains_key(id) && after[id] == before[id]
        } else {
            after.contains_key(id) ==> (after[id] matches Piece::Pickup(p) && (p.kind
                == PickupKind::Shield || p.kind == PickupKind::FrogHealth))
        }
}

/// One bonus beside a slot: not while one of its kind is already there, in
/// which case nothing is rolled; otherwise as the roll says, where there is a
/// site for it.
pub open spec fn bonus_done<
    N: Fn(Point, Point) -> bool,
    B: Fn(Point, Point) -> bool,
    R: Fn(PickupKind) -> bool,
>(
    same: N,
    beside: B,
    roll: R,
    slot: Point,
    kind: PickupKind,
    sites: Seq<Site>,
    before: Map<u64, Piece>,
    all: Seq<(u64, Pickup)>,
    there: bool,
    taken: Seq<bool>,
    after: Map<u64, Piece>,
    r: Option<u64>,
) -> bool {
    &&& lists::<Pickup>(before, all)
    &&& kind_beside(beside, slot, all, kind, there)
    &&& if there {
        r is None && after == before
    } else {
        ||| call_ensures(roll, (kind,), false) && r is None && after == before
        ||| {
            &&& call_ensures(roll, (kind,), true)
            &&& all_covered(same, spots_of(all), places(sites), taken)
            &&& dropped(sites, taken, kind, before, after, r)
        }
    }
}

/// See [`bonus_done`].
pub open spec fn bonus_rolled<
    N: Fn(Point, Point) -> bool,
    B: Fn(Point, Point) -> bool,
    R: Fn(PickupKind) -> bool,
>(
    same: N,
    beside: B,
    roll: R,
    slot: Point,
    kind: PickupKind,
    sites: Seq<Site>,
    before: Map<u64, Piece>,
    after: Map<u64, Piece>,
    r: Option<u64>,
) -> bool {
    exists|all: Seq<(u64, Pickup)>, there: bool, taken: Seq<bool>| #[trigger]
        bonus_done(same, beside, roll, slot, kind, sites, before, all, there, taken, after, r)
}

impl Game {
    /// Where everything lying on the field lies, and what it is.
    fn spots(&self) -> (r: (Vec<(u64, Pickup)>, Vec<Point>))
        ensures
            lists::<Pickup>(self.field@, r.0@),
            r.1@ == spots_of(r.0@),
    {
        let all: Vec<(u64, Pickup)> = self.field.all();
        let mut spots: Vec<Point> = Vec::new();
        let mut n: usize = 0;
        while n < all.len()
            invariant
                n <= all@.len(),
                spots@ == spots_of(all@).take(n as int),
            decreases all@.len() - n,
        {
            spots.push(all[n].1.position);
            n += 1;
            assert(spots@ =~= spots_of(all@).take(n as int));
        }
        assert(spots@ =~= spots_of(all@));
        (all, spots)
    }

    /// Maybe drop a bonus beside a slot. See [`bonus_done`]. Returns what was
    /// dropped.
    pub fn maybe_spawn_bonus<
        N: Fn(Point, Point) -> bool,
        B: Fn(Point, Point) -> bool,
        R: Fn(PickupKind) -> bool,
    >(
        &mut self,
        slot: Point,
        kind: PickupKind,
        sites: &Vec<Site>,
        same: &N,
        beside: &B,
        roll: &R,
        rng: &mut SmallRng,
    ) -> (r: Option<u64>)
        requires
            old(self).wf(),
            old(self).field.has_room(),
            forall|a: Point, b: Point| call_requires(*same, (a, b)),
            forall|a: Point, b: Point| call_requires(*beside, (a, b)),
            kind == PickupKind::Shield || kind == PickupKind::FrogHealth,
            forall|k: PickupKind| call_requires(*roll, (k,)),
        ensures
            final(self).wf(),
            bonus_rolled(
                *same,
                *beside,
                *roll,
                slot,
                kind,
                sites@,
                old(self).field@,
                final(self).field@,
                r,
            ),
            final(self).field@.dom().len() <= old(self).field@.dom().len() + 1,
            bonuses_only(old(self).field@, final(self).field@),
            r is None ==> *final(rng) == *old(rng),
            final(self).round == old(self).round,
            final(self).keeps_surroundings(old(self)),
            final(self).events == old(self).events,
    {
        let ghost before = self.field@;
        let (all, spots): (Vec<(u64, Pickup)>, Vec<Point>) = self.spots();
        let mut there: bool = false;
        let mut n: usize = 0;
        while n < all.len() && !there
            invariant
                n <= all@.len(),
                forall|a: Point, b: Point| call_requires(*beside, (a, b)),
                !there ==> forall|i: int|
                    0 <= i < n && (#[trigger] all@[i]).1.kind == kind ==> call_ensures(
                        *beside,
                        (slot, all@[i].1.position),
                        false,
                    ),
                there ==> exists|i: int|
                    0 <= i < all@.len() && (#[trigger] all@[i]).1.kind == kind && call_ensures(
                        *beside,
                        (slot, all@[i].1.position),
                        true,
                    ),
            decreases all@.len() - n,
        {
            let p: Pickup = all[n].1;
            if p.kind == kind {
                there = beside(slot, p.position);
                if there {
                    assert(all@[n as int].1.kind == kind);
                }
            }
            n += 1;
        }
        let ghost mut taken: Seq<bool> = Seq::empty();
        let mut r: Option<u64> = None;
        if !there && roll(kind) {
            let mut at: Vec<Point> = Vec::new();
            let mut k: usize = 0;
            while k < sites.len()
                invariant
                    k <= sites@.len(),
                    at@ == places(sites@).take(k as int),
                decreases sites@.len() - k,
            {
                at.push(sites[k].at);
                k += 1;
                assert(at@ =~= places(sites@).take(k as int));
            }
            assert(at@ =~= places(sites@));
            let full: Vec<bool> = cover_all(same, &spots, &at);
            proof {
                taken = full@;
            }
            let mut cells: Vec<BonusCell> = Vec::new();
            let mut k: usize = 0;
            while k < sites.len()
                invariant
                    k <= sites@.len() == full@.len(),
                    cells@.len() == k,
                    forall|i: int|
                        0 <= i < k ==> #[trigger] cells@[i] == (BonusCell {
                            at: sites@[i].at,
                            open: sites@[i].open,
                            inside: sites@[i].inside,
                            free: !full@[i],
                        }),
                decreases sites@.len() - k,
            {
                let s: Site = sites[k];
                cells.push(BonusCell { at: s.at, open: s.open, inside: s.inside, free: !full[k] });
                k += 1;
            }
            let found: Option<Point> = bonus_pickup_cell(&cells, rng);
            match found {
                Some(p) => {
                    let id: u64 = self.spawn_pickup_at(p, kind);
                    r = Some(id);
                    proof {
                        let i = choose|i: int|
                            0 <= i < cells@.len() && (#[trigger] cells@[i]).eligible()
                                && cells@[i].at == p;
                        assert(sites@[i].open && sites@[i].inside && !taken[i]);
                    }
                },
                None => {
                    assert forall|i: int| 0 <= i < sites@.len() && (#[trigger] sites@[i]).open
                        && sites@[i].inside implies taken[i] by {
                        assert(!cells@[i].eligible());
                    }
                },
            }
            assert(dropped(sites@, taken, kind, before, self.field@, r));
        }
        assert(bonus_done(
            *same,
            *beside,
            *roll,
            slot,
            kind,
            sites@,
            before,
            all@,
            there,
            taken,
            self.field@,
            r,
        ));
        r
    }
}

/// The bonuses that ride along with a health pack: a shield's roll always, and
/// a frog pack's only while the players' frog is hurt.
pub open spec fn bonuses_rolled<
    N: Fn(Point, Point) -> bool,
    B: Fn(Point, Point) -> bool,
    R: Fn(PickupKind) -> bool,
>(
    same: N,
    beside: B,
    roll: R,
    slot: Point,
    frog_hurt: bool,
    sites: Seq<Site>,
    before: Map<u64, Piece>,
    after: Map<u64, Piece>,
) -> bool {
    exists|mid: Map<u64, Piece>, shield: Option<u64>, pack: Option<u64>|
        {
            &&& #[trigger] bonus_rolled(
                same,
                beside,
                roll,
                slot,
                PickupKind::Shield,
                sites,
                before,
                mid,
                shield,
            )
            &&& #[trigger] pack_rolled(
                same,
                beside,
                roll,
                slot,
                frog_hurt,
                sites,
                mid,
                after,
                pack,
            )
        }
}

/// The frog pack's part of it.
pub open spec fn pack_rolled<
    N: Fn(Point, Point) -> bool,
    B: Fn(Point, Point) -> bool,
    R: Fn(PickupKind) -> bool,
>(
    same: N,
    beside: B,
    roll: R,
    slot: Point,
    frog_hurt: bool,
    sites: Seq<Site>,
    before: Map<u64, Piece>,
    after: Map<u64, Piece>,
    r: Option<u64>,
) -> bool {
    if frog_hurt {
        bonus_rolled(same, beside, roll, slot, PickupKind::FrogHealth, sites, before, after, r)
    } else {
        r is None && after == before
    }
}

/// A health pack whose frog is pristine rolls for the shield and for nothing
/// else.
pub proof fn a_pristine_frog_adds_no_roll<
    N: Fn(Point, Point) -> bool,
    B: Fn(Point, Point) -> bool,
    R: Fn(PickupKind) -> bool,
>(
    same: N,
    beside: B,
    roll: R,
    slot: Point,
    sites: Seq<Site>,
    before: Map<u64, Piece>,
    after: Map<u64, Piece>,
)
    requires
        bonuses_rolled(same, beside, roll, slot, false, sites, before, after),
    ensures
        exists|shield: Option<u64>| #[trigger]
            bonus_rolled(
                same,
                beside,
                roll,
                slot,
                PickupKind::Shield,
                sites,
                before,
                after,
                shield,
            ),
{
}

/// Where the slots are.
pub open spec fn slot_places(slots: Seq<PickupSlot>) -> Seq<Point> {
    Seq::new(slots.len(), |k: int| slots[k].at)
}

fn places_of(slots: &Vec<PickupSlot>) -> (at: Vec<Point>)
    ensures
        at@ == slot_places(slots@),
{
    let mut at: Vec<Point> = Vec::new();
    let mut n: usize = 0;
    while n < slots.len()
        invariant
            n <= slots@.len(),
            at@ == slot_places(slots@).take(n as int),
        decreases slots@.len() - n,
    {
        at.push(slots[n].at);
        n += 1;
        assert(at@ =~= slot_places(slots@).take(n as int));
    }
    assert(at@ =~= slot_places(slots@));
    at
}

/// One pickup came back to a free slot, and none did only if every slot is
/// taken. A health pack brings its bonuses along.
pub open spec fn supplied<
    N: Fn(Point, Point) -> bool,
    B: Fn(Point, Point) -> bool,
    R: Fn(PickupKind) -> bool,
    S: Fn(Point) -> Vec<Site>,
>(
    same: N,
    beside: B,
    roll: R,
    around: S,
    slots: Seq<PickupSlot>,
    frog_hurt: bool,
    before: Map<u64, Piece>,
    taken: Seq<bool>,
    sites: Vec<Site>,
    after: Map<u64, Piece>,
    r: Option<PickupSlot>,
) -> bool {
    match r {
        Some(s) => {
            &&& exists|i: int| 0 <= i < slots.len() && #[trigger] slots[i] == s && !taken[i]
            &&& exists|id: u64|
                {
                    let laid = before.insert(id, Pickup { kind: s.kind, position: s.at }.as_piece());
                    &&& #[trigger] is_new(before, id)
                    &&& if s.kind == PickupKind::Health {
                        &&& call_ensures(around, (s.at,), sites)
                        &&& bonuses_rolled(
                            same,
                            beside,
                            roll,
                            s.at,
                            frog_hurt,
                            sites@,
                            laid,
                            after,
                        )
                    } else {
                        after == laid
                    }
                }
        },
        None => after == before && forall|i: int| 0 <= i < slots.len() ==> #[trigger] taken[i],
    }
}

/// No entity has this name yet.
pub open spec fn is_new(pieces: Map<u64, Piece>, id: u64) -> bool {
    !pieces.contains_key(id)
}

/// See [`supplied`]; a slot is taken when something lies on it.
pub open spec fn respawned<
    N: Fn(Point, Point) -> bool,
    B: Fn(Point, Point) -> bool,
    R: Fn(PickupKind) -> bool,
    S: Fn(Point) -> Vec<Site>,
>(
    same: N,
    beside: B,
    roll: R,
    around: S,
    slots: Seq<PickupSlot>,
    frog_hurt: bool,
    before: Map<u64, Piece>,
    after: Map<u64, Piece>,
    r: Option<PickupSlot>,
) -> bool {
    exists|all: Seq<(u64, Pickup)>, taken: Seq<bool>, sites: Vec<Site>|
        {
            &&& lists::<Pickup>(before, all)
            &&& #[trigger] all_covered(same, spots_of(all), slot_places(slots), taken)
            &&& #[trigger] supplied(
                same,
                beside,
                roll,
                around,
                slots,
                frog_hurt,
                before,
                taken,
                sites,
                after,
                r,
            )
        }
}

impl Game {
    /// Roll the bonuses of a health pack. See [`bonuses_rolled`].
    pub fn maybe_spawn_health_slot_bonuses<
        N: Fn(Point, Point) -> bool,
        B: Fn(Point, Point) -> bool,
        R: Fn(PickupKind) -> bool,
    >(
        &mut self,
        slot: Point,
        frog_hurt: bool,
        sites: &Vec<Site>,
        same: &N,
        beside: &B,
        roll: &R,
        rng: &mut SmallRng,
    )
        requires
            old(self).wf(),
            old(self).field@.dom().len() + 1 < u32::MAX,
            forall|a: Point, b: Point| call_requires(*same, (a, b)),
            forall|a: Point, b: Point| call_requires(*beside, (a, b)),
            forall|k: PickupKind| call_requires(*roll, (k,)),
        ensures
            final(self).wf(),
            bonuses_rolled(
                *same,
                *beside,
                *roll,
                slot,
                frog_hurt,
                sites@,
                old(self).field@,
                final(self).field@,
            ),
            final(self).field@.dom().len() <= old(self).field@.dom().len() + 2,
            bonuses_only(old(self).field@, final(self).field@),
            final(self).round == old(self).round,
            final(self).keeps_surroundings(old(self)),
            final(self).events == old(self).events,
    {
        let ghost before = self.field@;
        let shield: Option<u64> = self.maybe_spawn_bonus(
            slot,
            PickupKind::Shield,
            sites,
            same,
            beside,
            roll,
            rng,
        );
        let ghost mid = self.field@;
        let mut pack: Option<u64> = None;
        if frog_hurt {
            pack = self.maybe_spawn_bonus(
                slot,
                PickupKind::FrogHealth,
                sites,
                same,
                beside,
                roll,
                rng,
            );
        }
        assert(pack_rolled(
            *same,
            *beside,
            *roll,
            slot,
            frog_hurt,
            sites@,
            mid,
            self.field@,
            pack,
        ));
    }

    /// Top up one pickup at a free slot, each as likely as any other, and
    /// record it. See [`supplied`].
    pub fn respawn_from_slots<
        N: Fn(Point, Point) -> bool,
        B: Fn(Point, Point) -> bool,
        R: Fn(PickupKind) -> bool,
        S: Fn(Point) -> Vec<Site>,
    >(
        &mut self,
        f: &mut Frame,
        slots: &Vec<PickupSlot>,
        frog_hurt: bool,
        around: &S,
        same: &N,
        beside: &B,
        roll: &R,
        rng: &mut SmallRng,
    ) -> (r: Option<PickupSlot>)
        requires
            old(self).wf(),
            old(self).field@.dom().len() + 2 < u32::MAX,
            forall|p: Point| call_requires(*around, (p,)),
            forall|a: Point, b: Point| call_requires(*same, (a, b)),
            forall|a: Point, b: Point| call_requires(*beside, (a, b)),
            forall|k: PickupKind| call_requires(*roll, (k,)),
        ensures
            final(self).wf(),
            respawned(
                *same,
                *beside,
                *roll,
                *around,
                slots@,
                frog_hurt,
                old(self).field@,
                final(self).field@,
                r,
            ),
            final(f)@ == respawn_told(old(f)@, r),
            r is None ==> *final(rng) == *old(rng),
            final(self).round == old(self).round,
            final(self).keeps_surroundings(old(self)),
            final(self).events == old(self).events,
    {
        let ghost before = self.field@;
        let (all, spots): (Vec<(u64, Pickup)>, Vec<Point>) = self.spots();
        let at: Vec<Point> = places_of(slots);
        let taken: Vec<bool> = cover_all(same, &spots, &at);
        let mut sites: Vec<Site> = Vec::new();
        let r: Option<PickupSlot> = respawn_from_slots(f, slots, &taken, rng);
        if let Some(s) = r {
            let id: u64 = self.spawn_pickup_at(s.at, s.kind);
            assert(is_new(before, id));
            if s.kind == PickupKind::Health {
                sites = around(s.at);
                self.maybe_spawn_health_slot_bonuses(
                    s.at,
                    frog_hurt,
                    &sites,
                    same,
                    beside,
                    roll,
                    rng,
                );
            }
        }
        assert(supplied(
            *same,
            *beside,
            *roll,
            *around,
            slots@,
            frog_hurt,
            before,
            taken@,
            sites,
            self.field@,
            r,
        ));
        r
    }
}

/// The record of a pickup coming back.
pub open spec fn respawn_told(f: Record, r: Option<PickupSlot>) -> Record {
    match r {
        Some(s) => f.with_event(
            Event::PickupRespawned { kind: s.kind, x: s.at.x, y: s.at.y },
        ),
        None => f,
    }
}

/// Whether the players' frog is hurt enough to be worth a pack.
pub open spec fn pack_wanted<H: Fn(Frog) -> bool>(
    hurt: H,
    pieces: Map<u64, Piece>,
    frog: Option<u64>,
    r: bool,
) -> bool {
    match frog {
        Some(e) => match thing::<Frog>(pieces, e) {
            Some(g) => exists|low: bool| #[trigger]
                call_ensures(hurt, (g,), low) && r == (!g.dead && low),
            None => !r,
        },
        None => !r,
    }
}

/// How many pickups lie on a slot.
pub open spec fn backed<N: Fn(Point, Point) -> bool>(
    same: N,
    slots: Seq<PickupSlot>,
    pieces: Map<u64, Piece>,
    live: nat,
) -> bool {
    exists|all: Seq<(u64, Pickup)>, on_slot: Seq<bool>|
        {
            &&& lists::<Pickup>(pieces, all)
            &&& #[trigger] all_covered(same, slot_places(slots), spots_of(all), on_slot)
            &&& live == count_true(on_slot, on_slot.len() as int)
        }
}

/// A frame of the respawn clock. It runs only while the field is short of its
/// slots and is held full otherwise; when it runs out a pickup comes back.
pub open spec fn supply_frame<
    N: Fn(Point, Point) -> bool,
    B: Fn(Point, Point) -> bool,
    R: Fn(PickupKind) -> bool,
    S: Fn(Point) -> Vec<Site>,
    H: Fn(Frog) -> bool,
>(
    same: N,
    beside: B,
    roll: R,
    around: S,
    hurt: H,
    slots: Seq<PickupSlot>,
    next: Scalar,
    whole: Scalar,
    before: Map<u64, Piece>,
    frog: Option<u64>,
    live: nat,
    wanted: bool,
    clock: Scalar,
    after: Map<u64, Piece>,
    r: Option<PickupSlot>,
) -> bool {
    let due = live < slots.len() && next.at_most(Scalar::zero());
    &&& backed(same, slots, before, live)
    &&& clock == (if live < slots.len() && !due {
        next
    } else {
        whole
    })
    &&& if due {
        &&& pack_wanted(hurt, before, frog, wanted)
        &&& respawned(same, beside, roll, around, slots, wanted, before, after, r)
    } else {
        r is None && after == before
    }
}

impl Game {
    /// Whether the players' frog is hurt enough to be worth a bonus pack.
    pub fn wants_a_pack<H: Fn(Frog) -> bool>(&self, hurt: &H) -> (r: bool)
        requires
            forall|g: Frog| call_requires(*hurt, (g,)),
        ensures
            pack_wanted(*hurt, self.field@, self.round.frog, r),
    {
        match self.round.frog {
            Some(e) => {
                let found: Option<Frog> = self.field.get(e);
                match found {
                    Some(g) => {
                        let low: bool = hurt(g);
                        frog_wants_a_pack(Some(g), low)
                    },
                    None => false,
                }
            },
            None => false,
        }
    }

    /// Run the respawn clock for a frame. `next` is the clock with this
    /// frame's time taken off and `whole` the full delay. See
    /// [`supply_frame`]. Returns what came back.
    pub fn tick_respawn<
        N: Fn(Point, Point) -> bool,
        B: Fn(Point, Point) -> bool,
        R: Fn(PickupKind) -> bool,
        S: Fn(Point) -> Vec<Site>,
        H: Fn(Frog) -> bool,
    >(
        &mut self,
        f: &mut Frame,
        slots: &Vec<PickupSlot>,
        next: Scalar,
        whole: Scalar,
        around: &S,
        same: &N,
        beside: &B,
        roll: &R,
        hurt: &H,
        rng: &mut SmallRng,
    ) -> (r: Option<PickupSlot>)
        requires
            old(self).wf(),
            old(self).field@.dom().len() + 2 < u32::MAX,
            forall|p: Point| call_requires(*around, (p,)),
            forall|a: Point, b: Point| call_requires(*same, (a, b)),
            forall|a: Point, b: Point| call_requires(*beside, (a, b)),
            forall|k: PickupKind| call_requires(*roll, (k,)),
            forall|g: Frog| call_requires(*hurt, (g,)),
        ensures
            final(self).wf(),
            exists|live: nat, wanted: bool| #[trigger]
                supply_frame(
                    *same,
                    *beside,
                    *roll,
                    *around,
                    *hurt,
                    slots@,
                    next,
                    whole,
                    old(self).field@,
                    old(self).round.frog,
                    live,
                    wanted,
                    final(self).round.pickup_respawn_timer,
                    final(self).field@,
                    r,
                ),
            final(f)@ == respawn_told(old(f)@, r),
            r is None ==> *final(rng) == *old(rng),
            final(self).round == (Round {
                pickup_respawn_timer: final(self).round.pickup_respawn_timer,
                ..old(self).round
            }),
            final(self).keeps_surroundings(old(self)),
            final(self).events == old(self).events,
    {
        let ghost before = self.field@;
        let (all, spots): (Vec<(u64, Pickup)>, Vec<Point>) = self.spots();
        let at: Vec<Point> = places_of(slots);
        let on_slot: Vec<bool> = cover_all(same, &at, &spots);
        let live: usize = slot_backed_count(&on_slot);
        let (clock, due): (Scalar, bool) = respawn_clock(live, slots.len(), next, whole);
        self.round.pickup_respawn_timer = clock;
        let mut wanted: bool = false;
        let mut r: Option<PickupSlot> = None;
        assert(backed(*same, slots@, before, live as nat));
        if due {
            wanted = self.wants_a_pack(hurt);
            r = self.respawn_from_slots(f, slots, wanted, around, same, beside, roll, rng);
        }
        assert(supply_frame(
            *same,
            *beside,
            *roll,
            *around,
            *hurt,
            slots@,
            next,
            whole,
            before,
            old(self).round.frog,
            live as nat,
            wanted,
            clock,
            self.field@,
            r,
        ));
        r
    }
}

/// While the field has a pickup on every slot the clock is held full and nothing
/// comes back; while it is short the clock runs, and a pickup comes back when it
/// has run out, after which it is full again.
pub proof fn a_pickup_comes_back_when_the_clock_has_run_out<
    N: Fn(Point, Point) -> bool,
    B: Fn(Point, Point) -> bool,
    R: Fn(PickupKind) -> bool,
    S: Fn(Point) -> Vec<Site>,
    H: Fn(Frog) -> bool,
>(
    same: N,
    beside: B,
    roll: R,
    around: S,
    hurt: H,
    slots: Seq<PickupSlot>,
    next: Scalar,
    whole: Scalar,
    before: Map<u64, Piece>,
    frog: Option<u64>,
    live: nat,
    wanted: bool,
    clock: Scalar,
    after: Map<u64, Piece>,
    r: Option<PickupSlot>,
)
    requires
        supply_frame(
            same,
            beside,
            roll,
            around,
            hurt,
            slots,
            next,
            whole,
            before,
            frog,
            live,
            wanted,
            clock,
            after,
            r,
        ),
    ensures
        live >= slots.len() ==> clock == whole && r is None && after == before,
        live < slots.len() && !next.at_most(Scalar::zero()) ==> clock == next && r is None && after
            == before,
        live < slots.len() && next.at_most(Scalar::zero()) ==> clock == whole && respawned(
            same,
            beside,
            roll,
            around,
            slots,
            wanted,
            before,
            after,
            r,
        ),
{
}

/// A pickup that comes back lies on the slot it came back to, as a new entity of
/// that slot's kind, and what lay before lies as it did; one that is no health
/// pack brings nothing along. Nothing comes back only when every slot is taken.
pub proof fn a_pickup_comes_back_to_a_free_slot<
    N: Fn(Point, Point) -> bool,
    B: Fn(Point, Point) -> bool,
    R: Fn(PickupKind) -> bool,
    S: Fn(Point) -> Vec<Site>,
>(
    same: N,
    beside: B,
    roll: R,
    around: S,
    slots: Seq<PickupSlot>,
    frog_hurt: bool,
    before: Map<u64, Piece>,
    taken: Seq<bool>,
    sites: Vec<Site>,
    after: Map<u64, Piece>,
    r: Option<PickupSlot>,
)
    requires
        supplied(
            same,
            beside,
            roll,
            around,
            slots,
            frog_hurt,
            before,
            taken,
            sites,
            after,
            r,
        ),
    ensures
        r is None ==> after == before && forall|i: int|
            0 <= i < slots.len() ==> #[trigger] taken[i],
        r matches Some(s) ==> {
            &&& exists|i: int|
                0 <= i < slots.len() && (#[trigger] slots[i]).at == s.at && slots[i].kind == s.kind
                    && !taken[i]
            &&& !(s.kind is Health) ==> exists|id: u64|
                !before.contains_key(id) && (#[trigger] after.contains_key(id)) && after[id]
                    == Piece::Pickup(Pickup { kind: s.kind, position: s.at }) && after
                    == before.insert(id, after[id])
        },
{
    if let Some(s) = r {
        let i = choose|i: int| 0 <= i < slots.len() && #[trigger] slots[i] == s && !taken[i];
        assert(slots[i].at == s.at);
        if !(s.kind is Health) {
            let id = choose|id: u64|
                {
                    let laid = before.insert(id, Pickup { kind: s.kind, position: s.at }.as_piece());
                    &&& #[trigger] is_new(before, id)
                    &&& after == laid
                };
            assert(after.contains_key(id));
        }
    }
}

/// A bonus drops on a site that is open, inside the walls and free, as a new
/// pickup of its kind, whenever there is one; else nothing drops.
pub proof fn a_bonus_drops_where_there_is_room(
    sites: Seq<Site>,
    taken: Seq<bool>,
    kind: PickupKind,
    before: Map<u64, Piece>,
    after: Map<u64, Piece>,
    r: Option<u64>,
)
    requires
        dropped(sites, taken, kind, before, after, r),
    ensures
        r is Some <==> exists|i: int|
            0 <= i < sites.len() && (#[trigger] sites[i]).open && sites[i].inside && !taken[i],
        r is None ==> after == before,
        r matches Some(id) ==> {
            &&& !before.contains_key(id) && after.contains_key(id) && after[id] is Pickup
            &&& after[id]->Pickup_0.kind == kind
            &&& exists|i: int|
                0 <= i < sites.len() && (#[trigger] sites[i]).open && sites[i].inside && !taken[i]
                    && after[id]->Pickup_0.position == sites[i].at
            &&& after == before.insert(id, after[id])
        },
{
    if let Some(id) = r {
        let i = choose|i: int|
            {
                &&& 0 <= i < sites.len()
                &&& (#[trigger] sites[i]).open
                &&& sites[i].inside
                &&& !taken[i]
                &&& after == before.insert(
                    id,
                    Pickup { kind, position: sites[i].at }.as_piece(),
                )
            };
        assert(after[id] == Piece::Pickup(Pickup { kind, position: sites[i].at }));
    }
}

/// A pack is wanted while the players' frog is alive and hurt, and for nobody
/// else.
pub proof fn a_pack_is_wanted_for_a_hurt_frog<H: Fn(Frog) -> bool>(
    hurt: H,
    pieces: Map<u64, Piece>,
    frog: Option<u64>,
    r: bool,
)
    requires
        pack_wanted(hurt, pieces, frog, r),
    ensures
        frog is None ==> !r,
        frog matches Some(e) ==> pieces.contains_key(e) && pieces[e] is Frog ==> {
            let g = pieces[e]->Frog_0;
            &&& g.dead ==> !r
            &&& !g.dead ==> call_ensures(hurt, (g,), r)
        },
{
    if let Some(e) = frog {
        if pieces.contains_key(e) && pieces[e] is Frog {
            assert(thing::<Frog>(pieces, e) == Some(pieces[e]->Frog_0));
        }
    }
}

/// A pickup coming back is told with its kind and its place.
pub proof fn a_pickup_coming_back_is_told(f: Record, r: Option<PickupSlot>)
    ensures
        r is None ==> respawn_told(f, r) == f,
        r matches Some(s) ==> respawn_told(f, r).events == f.events.push(
            Event::PickupRespawned { kind: s.kind, x: s.at.x, y: s.at.y },
        ),
{
}

} // verus!
