//! A round seen and poked at from outside: snapshots for tooling, and the
//! handful of commands a developer's console can give.

use vstd::prelude::*;

use crate::chassis::{enemy_row, sprite_order, TANK_VARIANTS};
use crate::clusters::{clustered, clusters};
use crate::engage::{
    find_tank, lemma_find_tank, EngageReport, EngageSlot, EngageStatus, EngageTank, Rejections, SlotReport,
    SLOT_COUNT,
};
use crate::event::Outcome;
use crate::field::{lists, selects, thing, Field, Kind};
use crate::frame::{Frame, Record};
use crate::game::{keeps_identities, lemma_identities};
use crate::game::Game;
use crate::kinds::{ActiveWeapon, Owner, PickupKind, MAX_SEATS};
use crate::overlays::Detail;
use crate::pieces::{armed_with, Frog, Mind, Pickup, Piece, ProvisionalKind, Shot, ShotState, Tank, Tile};
use crate::ranking::{in_order, lemma_pushed, ranked, sort_ranked, Ranked};
use crate::scalar::{Point, Scalar, INFINITE};
use crate::views::in_the_pack;

verus! {

/// Most projectiles a snapshot lists.
pub const PROJECTILE_CAP: usize = 64;

/// Where a shell's sprite is in its life.
#[derive(Clone, Copy, Debug, PartialEq, Eq, Structural)]
pub enum ShellState {
    Fire0,
    Fire1,
    Fire2,
    Flying,
    Hit0,
    Hit1,
    Hit2,
}

/// Where a plasma ball's sprite is in its life.
#[derive(Clone, Copy, Debug, PartialEq, Eq, Structural)]
pub enum PlasmaState {
    Fire0,
    Fire1,
    Fire2,
    Flying,
    Hit0,
    Hit1,
    Hit2,
}

/// Where a bullet's sprite is in its life.
#[derive(Clone, Copy, Debug, PartialEq, Eq, Structural)]
pub enum BulletState {
    Muzzle,
    Flying,
    Hit,
}

/// A shell's state in a word.
pub fn shell_state_name(s: ShellState) -> (name: &'static str)
    ensures
        name@ == (match s {
            ShellState::Fire0 | ShellState::Fire1 | ShellState::Fire2 => "fire"@,
            ShellState::Flying => "flying"@,
            ShellState::Hit0 | ShellState::Hit1 | ShellState::Hit2 => "hit"@,
        }),
{
    match s {
        ShellState::Fire0 | ShellState::Fire1 | ShellState::Fire2 => "fire",
        ShellState::Flying => "flying",
        ShellState::Hit0 | ShellState::Hit1 | ShellState::Hit2 => "hit",
    }
}

/// A plasma ball's state in a word.
pub fn plasma_state_name(s: PlasmaState) -> (name: &'static str)
    ensures
        name@ == (match s {
            PlasmaState::Fire0 | PlasmaState::Fire1 | PlasmaState::Fire2 => "fire"@,
            PlasmaState::Flying => "flying"@,
            PlasmaState::Hit0 | PlasmaState::Hit1 | PlasmaState::Hit2 => "hit"@,
        }),
{
    match s {
        PlasmaState::Fire0 | PlasmaState::Fire1 | PlasmaState::Fire2 => "fire",
        PlasmaState::Flying => "flying",
        PlasmaState::Hit0 | PlasmaState::Hit1 | PlasmaState::Hit2 => "hit",
    }
}

/// A bullet's state in a word.
pub fn bullet_state_name(s: BulletState) -> (name: &'static str)
    ensures
        name@ == (match s {
            BulletState::Muzzle => "fire"@,
            BulletState::Flying => "flying"@,
            BulletState::Hit => "hit"@,
        }),
{
    match s {
        BulletState::Muzzle => "fire",
        BulletState::Flying => "flying",
        BulletState::Hit => "hit",
    }
}

/// One tank in a snapshot.
#[derive(Clone, Copy, Debug, PartialEq, Eq)]
pub struct TankDebug {
    pub entity: u64,
    pub slot: usize,
    /// Player one's.
    pub is_player: bool,
    pub row: i32,
    /// The chassis by name.
    pub chassis: &'static str,
    /// Where it is, rounded.
    pub position: Point,
    pub rotation: Scalar,
    /// The body's velocity.
    pub velocity: Point,
    pub damage: Scalar,
    /// What the hull can still take.
    pub hp: Scalar,
    pub wreck: bool,
    pub shells: i32,
    pub minigun: i32,
    pub plasma: i32,
    pub laser: i32,
    pub weapon: ActiveWeapon,
    pub shield: Scalar,
    pub boost: Scalar,
    /// How far the closest other live enemy is; live enemies only.
    pub nearest_ally: Option<Scalar>,
    /// Commanded velocity, in a full snapshot.
    pub commanded: Option<Point>,
    /// Whether it leans on something that does not move, in a full snapshot.
    pub touching_static: Option<bool>,
    /// An enemy's mind, in a full snapshot.
    pub mind: Option<Mind>,
}

impl Ranked for TankDebug {
    open spec fn ahead(self, other: TankDebug) -> bool {
        self.slot < other.slot
    }

    proof fn ranks(a: TankDebug, b: TankDebug, c: TankDebug) {
    }

    fn is_ahead(&self, other: &TankDebug) -> (r: bool) {
        self.slot < other.slot
    }
}

/// The nearest other live enemy, given how far each of them is: the least of
/// the distances that are numbers, none when that is no finite number.
pub open spec fn least(distances: Seq<Scalar>, n: int) -> Option<Scalar>
    decreases n,
{
    if n <= 0 {
        None
    } else {
        let d = distances[n - 1];
        match least(distances, n - 1) {
            Some(best) => if d.below(best) {
                Some(d)
            } else {
                Some(best)
            },
            None => if d.magnitude() < INFINITE {
                Some(d)
            } else {
                None
            },
        }
    }
}

/// How far the nearest other live enemy is.
pub fn nearest_ally(distances: &Vec<Scalar>) -> (r: Option<Scalar>)
    ensures
        r == least(distances@, distances@.len() as int),
{
    let mut best: Option<Scalar> = None;
    let mut n: usize = 0;
    while n < distances.len()
        invariant
            n <= distances@.len(),
            best == least(distances@, n as int),
        decreases distances@.len() - n,
    {
        let d: Scalar = distances[n];
        match best {
            Some(b) => if d.lt(b) {
                best = Some(d);
            },
            None => if d.finite() {
                best = Some(d);
            },
        }
        n += 1;
    }
    best
}

/// Where the first `n` live enemies stand, but for the one in a slot.
pub open spec fn others(pack: Seq<(u64, Tank)>, slot: usize, n: int) -> Seq<Point>
    decreases n,
{
    if n <= 0 {
        Seq::empty()
    } else if pack[n - 1].1.slot() != slot {
        others(pack, slot, n - 1).push(pack[n - 1].1.position)
    } else {
        others(pack, slot, n - 1)
    }
}

/// How far each of some places is from here, as the host measures it.
pub open spec fn spaced<D: Fn(Point, Point) -> Scalar>(
    dist: D,
    places: Seq<Point>,
    here: Point,
    ds: Seq<Scalar>,
) -> bool {
    ds.len() == places.len() && forall|k: int|
        0 <= k < ds.len() ==> call_ensures(dist, (places[k], here), #[trigger] ds[k])
}

/// How far a live enemy's closest ally is. Nobody else has one, and it has none
/// while no other enemy lives.
pub open spec fn ally_at<D: Fn(Point, Point) -> Scalar>(
    dist: D,
    pack: Seq<(u64, Tank)>,
    t: Tank,
    far: Option<Scalar>,
) -> bool {
    if in_the_pack()(t) {
        exists|ds: Seq<Scalar>|
            {
                &&& #[trigger] spaced(
                    dist,
                    others(pack, t.slot(), pack.len() as int),
                    t.position,
                    ds,
                )
                &&& far == least(ds, ds.len() as int)
            }
    } else {
        far is None
    }
}

fn ally_of<D: Fn(Point, Point) -> Scalar>(pack: &Vec<(u64, Tank)>, t: &Tank, dist: &D) -> (far:
    Option<Scalar>)
    requires
        forall|a: Point, b: Point| call_requires(*dist, (a, b)),
    ensures
        ally_at(*dist, pack@, *t, far),
{
    if t.mind.is_none() || t.wreck {
        return None;
    }
    let slot: usize = t.owner_slot();
    let mut ds: Vec<Scalar> = Vec::new();
    let mut n: usize = 0;
    while n < pack.len()
        invariant
            n <= pack@.len(),
            slot == t.slot(),
            forall|a: Point, b: Point| call_requires(*dist, (a, b)),
            spaced(*dist, others(pack@, slot, n as int), t.position, ds@),
        decreases pack@.len() - n,
    {
        let ghost were = (others(pack@, slot, n as int), ds@);
        let other: Tank = pack[n].1;
        if other.owner_slot() != slot {
            let d: Scalar = dist(other.position, t.position);
            ds.push(d);
            proof {
                let now = others(pack@, slot, n + 1);
                assert forall|k: int| 0 <= k < ds@.len() implies call_ensures(
                    *dist,
                    (now[k], t.position),
                    #[trigger] ds@[k],
                ) by {
                    if k < were.1.len() {
                        assert(ds@[k] == were.1[k] && now[k] == were.0[k]);
                    }
                }
            }
        }
        n += 1;
    }
    nearest_ally(&ds)
}

/// What the host works out of each tank: its closest ally, what it leans on,
/// where it is once rounded and what its hull can still take.
#[verifier::ext_equal]
pub struct Probed {
    pub far: Option<Scalar>,
    pub touching: bool,
    pub at: Point,
    pub hp: Scalar,
}

/// The host's part in a snapshot, bundled.
pub struct Probe<D, T, P, H> {
    /// How far two places are apart.
    pub dist: D,
    /// Whether a tank leans on something that does not move.
    pub touching: T,
    /// A place, rounded.
    pub tidy: P,
    /// What a hull with so much damage can still take.
    pub left: H,
}

/// The host's part can be asked for anything.
pub open spec fn probes_well<
    D: Fn(Point, Point) -> Scalar,
    T: Fn(u64) -> bool,
    P: Fn(Point) -> Point,
    H: Fn(Scalar) -> Scalar,
>(o: Probe<D, T, P, H>) -> bool {
    &&& forall|a: Point, b: Point| call_requires(o.dist, (a, b))
    &&& forall|e: u64| call_requires(o.touching, (e,))
    &&& forall|p: Point| call_requires(o.tidy, (p,))
    &&& forall|d: Scalar| call_requires(o.left, (d,))
}

/// What the host keeps of a frame and the round does not.
#[derive(Clone, Copy, Debug, PartialEq, Eq, Structural)]
pub struct FrameFacts {
    /// Seconds the round has run.
    pub time: Scalar,
    pub width: Scalar,
    pub height: Scalar,
    /// The player's frog is in the air.
    pub hopping: bool,
}

/// Every tank's chassis has a name.
pub open spec fn all_named(pieces: Map<u64, Piece>, names: Seq<&'static str>) -> bool {
    forall|e: u64| #[trigger] thing::<Tank>(pieces, e) matches Some(t) ==> 0 <= t.row < names.len()
}

/// The measurements of the first `n` tanks.
pub open spec fn probes<
    D: Fn(Point, Point) -> Scalar,
    T: Fn(u64) -> bool,
    P: Fn(Point) -> Point,
    H: Fn(Scalar) -> Scalar,
>(
    o: Probe<D, T, P, H>,
    pack: Seq<(u64, Tank)>,
    all: Seq<(u64, Tank)>,
    full: bool,
    ps: Seq<Probed>,
    n: int,
) -> bool {
    ps.len() == n && forall|k: int|
        0 <= k < n ==> {
            &&& ally_at(o.dist, pack, all[k].1, (#[trigger] ps[k]).far)
            &&& full ==> call_ensures(o.touching, (all[k].0,), ps[k].touching)
            &&& call_ensures(o.tidy, (all[k].1.position,), ps[k].at)
            &&& call_ensures(o.left, (all[k].1.damage,), ps[k].hp)
        }
}

/// A tank's entry.
pub open spec fn tank_entry(
    entity: u64,
    t: Tank,
    names: Seq<&'static str>,
    full: bool,
    p: Probed,
) -> TankDebug {
    TankDebug {
        entity,
        slot: t.slot(),
        is_player: t.slot() == 0,
        row: t.row,
        chassis: names[t.row as int],
        position: p.at,
        rotation: t.rotation,
        velocity: t.velocity,
        damage: t.damage,
        hp: p.hp,
        wreck: t.wreck,
        shells: t.shells,
        minigun: t.minigun_ammo,
        plasma: t.plasma_ammo,
        laser: t.laser_charges,
        weapon: t.weapon,
        shield: t.shield,
        boost: t.speed_boost,
        nearest_ally: p.far,
        commanded: if full {
            Some(t.commanded)
        } else {
            None
        },
        touching_static: if full {
            Some(p.touching)
        } else {
            None
        },
        mind: if full {
            t.mind
        } else {
            None
        },
    }
}

/// The entries of all tanks, by slot.
pub open spec fn tank_entries(
    all: Seq<(u64, Tank)>,
    names: Seq<&'static str>,
    full: bool,
    ps: Seq<Probed>,
) -> Seq<TankDebug> {
    ranked(Seq::new(all.len(), |i: int| tank_entry(all[i].0, all[i].1, names, full, ps[i])))
}

fn list_tanks<
    D: Fn(Point, Point) -> Scalar,
    T: Fn(u64) -> bool,
    P: Fn(Point) -> Point,
    H: Fn(Scalar) -> Scalar,
>(
    field: &Field,
    pack: &Vec<(u64, Tank)>,
    names: &Vec<&'static str>,
    full: bool,
    o: &Probe<D, T, P, H>,
) -> (tanks: Vec<TankDebug>)
    requires
        all_named(field@, names@),
        probes_well(*o),
    ensures
        in_order(tanks@),
        exists|all: Seq<(u64, Tank)>, ps: Seq<Probed>|
            {
                &&& lists::<Tank>(field@, all)
                &&& #[trigger] probes(*o, pack@, all, full, ps, all.len() as int)
                &&& tanks@ == tank_entries(all, names@, full, ps)
            },
{
    let all: Vec<(u64, Tank)> = field.all();
    let ghost mut ps: Seq<Probed> = Seq::empty();
    let mut tanks: Vec<TankDebug> = Vec::new();
    let mut n: usize = 0;
    while n < all.len()
        invariant
            n <= all@.len(),
            tanks@.len() == n,
            all_named(field@, names@),
            lists::<Tank>(field@, all@),
            probes_well(*o),
            probes(*o, pack@, all@, full, ps, n as int),
            forall|i: int|
                0 <= i < n ==> #[trigger] tanks@[i] == tank_entry(
                    all@[i].0,
                    all@[i].1,
                    names@,
                    full,
                    ps[i],
                ),
        decreases all@.len() - n,
    {
        let (entity, t) = all[n];
        let slot: usize = t.owner_slot();
        let ghost were = ps;
        assert(thing::<Tank>(field@, all@[n as int].0) == Some(t));
        let far: Option<Scalar> = ally_of(pack, &t, &o.dist);
        let leans: bool = full && (o.touching)(entity);
        let at: Point = (o.tidy)(t.position);
        let hp: Scalar = (o.left)(t.damage);
        proof {
            ps = ps.push(Probed { far, touching: leans, at, hp });
            assert forall|k: int| 0 <= k < n + 1 implies {
                &&& ally_at(o.dist, pack@, all@[k].1, (#[trigger] ps[k]).far)
                &&& full ==> call_ensures(o.touching, (all@[k].0,), ps[k].touching)
                &&& call_ensures(o.tidy, (all@[k].1.position,), ps[k].at)
                &&& call_ensures(o.left, (all@[k].1.damage,), ps[k].hp)
            } by {
                if k < n {
                    assert(ps[k] == were[k]);
                }
            }
        }
        tanks.push(
            TankDebug {
                entity,
                slot,
                is_player: slot == 0,
                row: t.row,
                chassis: names[t.row as usize],
                position: at,
                rotation: t.rotation,
                velocity: t.velocity,
                damage: t.damage,
                hp,
                wreck: t.wreck,
                shells: t.shells,
                minigun: t.minigun_ammo,
                plasma: t.plasma_ammo,
                laser: t.laser_charges,
                weapon: t.weapon,
                shield: t.shield,
                boost: t.speed_boost,
                nearest_ally: far,
                commanded: if full {
                    Some(t.commanded)
                } else {
                    None
                },
                touching_static: if full {
                    Some(leans)
                } else {
                    None
                },
                mind: if full {
                    t.mind
                } else {
                    None
                },
            },
        );
        n += 1;
    }
    assert(tanks@ =~= Seq::new(
        all@.len(),
        |i: int| tank_entry(all@[i].0, all@[i].1, names@, full, ps[i]),
    ));
    assert(probes(*o, pack@, all@, full, ps, all@.len() as int));
    sort_ranked(&tanks)
}

/// Two places are close, or not, as the host measures it.
pub open spec fn close<D: Fn(Point, Point) -> Scalar>(
    dist: D,
    radius: Scalar,
    a: Point,
    b: Point,
    yes: bool,
) -> bool {
    exists|d: Scalar| #[trigger] call_ensures(dist, (a, b), d) && yes == d.at_most(radius)
}

/// Which of the first `m` tanks are close to which later ones.
pub open spec fn pairs_read<D: Fn(Point, Point) -> Scalar>(
    dist: D,
    radius: Scalar,
    pack: Seq<(u64, Tank)>,
    near: Seq<Vec<bool>>,
    m: int,
) -> bool {
    &&& near.len() == m
    &&& forall|i: int| 0 <= i < m ==> (#[trigger] near[i])@.len() == pack.len()
    &&& forall|i: int, j: int|
        0 <= i < m && i < j < pack.len() ==> close(
            dist,
            radius,
            pack[i].1.position,
            pack[j].1.position,
            #[trigger] near[i]@[j],
        )
}

/// The slots of some tanks.
pub open spec fn slots_of(pack: Seq<(u64, Tank)>) -> Seq<usize> {
    Seq::new(pack.len(), |k: int| pack[k].1.slot())
}

fn bunches<D: Fn(Point, Point) -> Scalar>(pack: &Vec<(u64, Tank)>, radius: Scalar, dist: &D) -> (groups:
    Vec<Vec<usize>>)
    requires
        slots_of(pack@).no_duplicates(),
        forall|a: Point, b: Point| call_requires(*dist, (a, b)),
    ensures
        exists|near: Seq<Vec<bool>>|
            {
                &&& #[trigger] pairs_read(*dist, radius, pack@, near, pack@.len() as int)
                &&& clustered(slots_of(pack@), near, groups@)
            },
{
    let mut slots: Vec<usize> = Vec::new();
    let mut near: Vec<Vec<bool>> = Vec::new();
    let mut i: usize = 0;
    while i < pack.len()
        invariant
            i <= pack@.len(),
            slots@ == slots_of(pack@).take(i as int),
            forall|a: Point, b: Point| call_requires(*dist, (a, b)),
            pairs_read(*dist, radius, pack@, near@, i as int),
        decreases pack@.len() - i,
    {
        slots.push(pack[i].1.owner_slot());
        assert(slots@ =~= slots_of(pack@).take(i + 1));
        let here: Point = pack[i].1.position;
        let mut row: Vec<bool> = Vec::new();
        let mut j: usize = 0;
        while j < pack.len()
            invariant
                i < pack@.len(),
                j <= pack@.len(),
                here == pack@[i as int].1.position,
                row@.len() == j,
                forall|a: Point, b: Point| call_requires(*dist, (a, b)),
                forall|k: int|
                    i < k < j ==> close(
                        *dist,
                        radius,
                        here,
                        pack@[k].1.position,
                        #[trigger] row@[k],
                    ),
            decreases pack@.len() - j,
        {
            let ghost were = row@;
            if i < j {
                let d: Scalar = dist(here, pack[j].1.position);
                let yes: bool = d.le(radius);
                row.push(yes);
                assert(close(*dist, radius, here, pack@[j as int].1.position, yes));
            } else {
                row.push(false);
            }
            assert forall|k: int| i < k < j + 1 implies close(
                *dist,
                radius,
                here,
                pack@[k].1.position,
                #[trigger] row@[k],
            ) by {
                if k < j {
                    assert(row@[k] == were[k]);
                }
            }
            j += 1;
        }
        let ghost were = near@;
        near.push(row);
        assert forall|a: int, b: int| 0 <= a < i + 1 && a < b < pack@.len() implies close(
            *dist,
            radius,
            pack@[a].1.position,
            pack@[b].1.position,
            #[trigger] near@[a]@[b],
        ) by {
            if a < i {
                assert(near@[a] == were[a]);
            }
        }
        i += 1;
    }
    assert(slots@ =~= slots_of(pack@));
    assert(pairs_read(*dist, radius, pack@, near@, pack@.len() as int));
    clusters(&slots, &near)
}

/// One projectile in a snapshot.
#[derive(Clone, Copy, Debug, PartialEq, Eq, Structural)]
pub struct ProjectileDebug {
    pub kind: ProvisionalKind,
    pub owner: usize,
    pub position: Point,
    pub velocity: Point,
    pub state: ShotState,
}

/// A projectile's entry.
pub open spec fn shot_entry(s: Shot) -> ProjectileDebug {
    ProjectileDebug {
        kind: s.kind,
        owner: s.owner.round_slot(),
        position: s.position,
        velocity: s.velocity,
        state: s.state,
    }
}

/// The entries of all shots of one kind, among the first `n`.
pub open spec fn shots_of(all: Seq<(u64, Shot)>, kind: ProvisionalKind, n: int) -> Seq<
    ProjectileDebug,
>
    decreases n,
{
    if n <= 0 {
        Seq::empty()
    } else if all[n - 1].1.kind == kind {
        shots_of(all, kind, n - 1).push(shot_entry(all[n - 1].1))
    } else {
        shots_of(all, kind, n - 1)
    }
}

/// The entries of all shots: shells, plasma, bullets.
pub open spec fn shot_entries(all: Seq<(u64, Shot)>) -> Seq<ProjectileDebug> {
    shots_of(all, ProvisionalKind::Shell, all.len() as int) + shots_of(
        all,
        ProvisionalKind::Plasma,
        all.len() as int,
    ) + shots_of(all, ProvisionalKind::Bullet, all.len() as int)
}

fn push_shots(out: &mut Vec<ProjectileDebug>, all: &Vec<(u64, Shot)>, kind: ProvisionalKind)
    ensures
        final(out)@ == old(out)@ + shots_of(all@, kind, all@.len() as int),
{
    let mut n: usize = 0;
    assert(out@ =~= old(out)@ + shots_of(all@, kind, 0));
    while n < all.len()
        invariant
            n <= all@.len(),
            out@ == old(out)@ + shots_of(all@, kind, n as int),
        decreases all@.len() - n,
    {
        let s: Shot = all[n].1;
        if s.kind == kind {
            out.push(
                ProjectileDebug {
                    kind: s.kind,
                    owner: s.owner.slot(),
                    position: s.position,
                    velocity: s.velocity,
                    state: s.state,
                },
            );
        }
        n += 1;
        assert(out@ =~= old(out)@ + shots_of(all@, kind, n as int));
    }
}

/// The first of a list, up to a cap.
pub open spec fn capped<T>(s: Seq<T>, cap: int) -> Seq<T> {
    if s.len() <= cap {
        s
    } else {
        s.take(cap)
    }
}

fn list_shots(field: &Field) -> (r: (Vec<ProjectileDebug>, usize))
    ensures
        exists|all: Seq<(u64, Shot)>| #[trigger]
            lists::<Shot>(field@, all) && r.1 == shot_entries(all).len() && r.0@ == capped(
                shot_entries(all),
                PROJECTILE_CAP as int,
            ),
{
    let all: Vec<(u64, Shot)> = field.all();
    let mut out: Vec<ProjectileDebug> = Vec::new();
    push_shots(&mut out, &all, ProvisionalKind::Shell);
    push_shots(&mut out, &all, ProvisionalKind::Plasma);
    push_shots(&mut out, &all, ProvisionalKind::Bullet);
    assert(out@ =~= shot_entries(all@));
    let total: usize = out.len();
    if total > PROJECTILE_CAP {
        out.truncate(PROJECTILE_CAP);
        assert(out@ =~= shot_entries(all@).take(PROJECTILE_CAP as int));
    }
    (out, total)
}

/// One pickup in a snapshot.
#[derive(Clone, Copy, Debug, PartialEq, Eq, Structural)]
pub struct PickupDebug {
    pub kind: PickupKind,
    pub position: Point,
}

impl Ranked for PickupDebug {
    open spec fn ahead(self, other: PickupDebug) -> bool {
        self.position.x.rank() < other.position.x.rank() || (self.position.x.rank()
            == other.position.x.rank() && self.position.y.rank() < other.position.y.rank())
    }

    proof fn ranks(a: PickupDebug, b: PickupDebug, c: PickupDebug) {
    }

    fn is_ahead(&self, other: &PickupDebug) -> (r: bool) {
        let (ax, bx): (i64, i64) = (self.position.x.number_key(), other.position.x.number_key());
        let (ay, by): (i64, i64) = (self.position.y.number_key(), other.position.y.number_key());
        ax < bx || (ax == bx && ay < by)
    }
}

/// Where the host rounds each of the first `n` pickups to.
pub open spec fn rounded<P: Fn(Point) -> Point>(
    tidy: P,
    all: Seq<(u64, Pickup)>,
    at: Seq<Point>,
    n: int,
) -> bool {
    at.len() == n && forall|k: int|
        0 <= k < n ==> call_ensures(tidy, (all[k].1.position,), #[trigger] at[k])
}

/// The entries of all pickups where they are rounded to, from left to right and
/// top to bottom.
pub open spec fn pickup_entries(all: Seq<(u64, Pickup)>, at: Seq<Point>) -> Seq<PickupDebug> {
    ranked(Seq::new(all.len(), |k: int| PickupDebug { kind: all[k].1.kind, position: at[k] }))
}

fn list_pickups<P: Fn(Point) -> Point>(field: &Field, tidy: &P) -> (pickups: Vec<PickupDebug>)
    requires
        forall|p: Point| call_requires(*tidy, (p,)),
    ensures
        in_order(pickups@),
        exists|all: Seq<(u64, Pickup)>, at: Seq<Point>|
            {
                &&& lists::<Pickup>(field@, all)
                &&& #[trigger] rounded(*tidy, all, at, all.len() as int)
                &&& pickups@ == pickup_entries(all, at)
            },
{
    let all: Vec<(u64, Pickup)> = field.all();
    let ghost mut at: Seq<Point> = Seq::empty();
    let mut pickups: Vec<PickupDebug> = Vec::new();
    let mut n: usize = 0;
    while n < all.len()
        invariant
            n <= all@.len(),
            pickups@.len() == n,
            forall|p: Point| call_requires(*tidy, (p,)),
            rounded(*tidy, all@, at, n as int),
            forall|i: int|
                0 <= i < n ==> #[trigger] pickups@[i] == (PickupDebug {
                    kind: all@[i].1.kind,
                    position: at[i],
                }),
        decreases all@.len() - n,
    {
        let p: Pickup = all[n].1;
        let place: Point = tidy(p.position);
        pickups.push(PickupDebug { kind: p.kind, position: place });
        proof {
            at = at.push(place);
        }
        n += 1;
    }
    assert(pickups@ =~= Seq::new(
        all@.len(),
        |k: int| PickupDebug { kind: all@[k].1.kind, position: at[k] },
    ));
    assert(rounded(*tidy, all@, at, all@.len() as int));
    sort_ranked(&pickups)
}

/// One enemy's engagement in a snapshot.
#[derive(Clone, Copy, Debug, PartialEq, Eq, Structural)]
pub struct EngageTankDebug {
    pub slot: usize,
    pub status: EngageStatus,
    /// The ring slot held, by table position; none steers at the player.
    pub ring: Option<u8>,
    pub target: Option<Point>,
    pub sticky: bool,
    /// Candidates passed over, in a full snapshot of an engaged tank.
    pub rejected: Option<Rejections>,
}

/// The table position of a held slot.
pub open spec fn ring_place(slot: Option<EngageSlot>) -> Option<u8> {
    match slot {
        Some(s) => Some(s.place() as u8),
        None => None,
    }
}

fn ring_of(slot: Option<EngageSlot>) -> (r: Option<u8>)
    ensures
        r == ring_place(slot),
{
    match slot {
        Some(s) => Some(#[verifier::truncate] (s.index() as u8)),
        None => None,
    }
}

/// An enemy's entry.
pub open spec fn engage_entry(t: EngageTank, full: bool) -> EngageTankDebug {
    EngageTankDebug {
        slot: t.owner,
        status: t.status,
        ring: ring_place(t.slot),
        target: t.target,
        sticky: t.sticky,
        rejected: if full && t.status == EngageStatus::Engaged {
            Some(t.rejected)
        } else {
            None
        },
    }
}

/// One ring slot in a snapshot.
#[derive(Clone, Copy, Debug, PartialEq, Eq, Structural)]
pub struct EngageSlotDebug {
    pub i: u8,
    pub slot: EngageSlot,
    /// None is off the map for this player position.
    pub point: Option<Point>,
    /// None was never looked at this frame.
    pub los: Option<bool>,
    /// Round slot of the tank holding it.
    pub claimed_by: Option<usize>,
}

/// The round slot of an entity the report knows.
pub open spec fn owner_in(tanks: Seq<EngageTank>, entity: Option<u64>) -> Option<usize> {
    match entity {
        Some(e) => if find_tank(tanks, e) < tanks.len() {
            Some(tanks[find_tank(tanks, e)].owner)
        } else {
            None
        },
        None => None,
    }
}

/// A ring slot's entry.
pub open spec fn slot_entry(tanks: Seq<EngageTank>, s: SlotReport, i: int) -> EngageSlotDebug {
    EngageSlotDebug {
        i: i as u8,
        slot: EngageSlot::at(i),
        point: s.point,
        los: s.line_of_sight,
        claimed_by: owner_in(tanks, s.claimed_by),
    }
}

/// What the last assignment decided, in a snapshot.
pub struct EngageSnapshot {
    pub built: bool,
    pub tanks: Vec<EngageTankDebug>,
    /// The sixteen slots, in a full snapshot of a ring that was built.
    pub slots: Option<Vec<EngageSlotDebug>>,
}

impl EngageSnapshot {
    /// Says of a report what a snapshot says.
    pub open spec fn tells(&self, report: &EngageReport, full: bool) -> bool {
        &&& self.built == report.built
        &&& self.tanks@ == report.tanks@.map_values(|t: EngageTank| engage_entry(t, full))
        &&& self.slots is Some == (full && report.built)
        &&& self.slots matches Some(slots) ==> slots@ == Seq::new(
            16,
            |i: int| slot_entry(report.tanks@, report.slots@[i], i),
        )
    }
}

fn engage_snapshot(report: &EngageReport, full: bool) -> (snap: EngageSnapshot)
    ensures
        snap.tells(report, full),
{
    let mut tanks: Vec<EngageTankDebug> = Vec::new();
    let mut n: usize = 0;
    while n < report.tanks.len()
        invariant
            n <= report.tanks@.len(),
            tanks@.len() == n,
            forall|i: int|
                0 <= i < n ==> #[trigger] tanks@[i] == engage_entry(report.tanks@[i], full),
        decreases report.tanks@.len() - n,
    {
        let t: EngageTank = report.tanks[n];
        tanks.push(
            EngageTankDebug {
                slot: t.owner,
                status: t.status,
                ring: ring_of(t.slot),
                target: t.target,
                sticky: t.sticky,
                rejected: if full && t.status == EngageStatus::Engaged {
                    Some(t.rejected)
                } else {
                    None
                },
            },
        );
        n += 1;
    }
    assert(tanks@ =~= report.tanks@.map_values(|t: EngageTank| engage_entry(t, full)));
    if !(full && report.built) {
        return EngageSnapshot { built: report.built, tanks, slots: None };
    }
    let mut slots: Vec<EngageSlotDebug> = Vec::new();
    let mut i: usize = 0;
    while i < SLOT_COUNT
        invariant
            i <= SLOT_COUNT,
            slots@.len() == i,
            forall|k: int|
                0 <= k < i ==> #[trigger] slots@[k] == slot_entry(
                    report.tanks@,
                    report.slots@[k],
                    k,
                ),
        decreases SLOT_COUNT - i,
    {
        let s: SlotReport = report.slots[i];
        let claimed_by: Option<usize> = match s.claimed_by {
            Some(e) => {
                let k: usize = report.find(e);
                if k < report.tanks.len() {
                    Some(report.tanks[k].owner)
                } else {
                    None
                }
            },
            None => None,
        };
        slots.push(
            EngageSlotDebug {
                i: i as u8,
                slot: EngageSlot::from_index(i),
                point: s.point,
                los: s.line_of_sight,
                claimed_by,
            },
        );
        i += 1;
    }
    assert(slots@ =~= Seq::new(16, |k: int| slot_entry(report.tanks@, report.slots@[k], k)));
    EngageSnapshot { built: report.built, tanks, slots: Some(slots) }
}

/// Everything is asked for.
pub open spec fn is_full(detail: Detail) -> bool {
    detail == Detail::Full
}

/// A frame's world as plain values.
pub struct DebugSnapshot {
    pub frame: u64,
    pub facts: FrameFacts,
    pub seed: u64,
    pub outcome: Outcome,
    pub paused: bool,
    pub restart_timer: Scalar,
    /// By slot, so two snapshots line up entry for entry.
    pub tanks: Vec<TankDebug>,
    /// At most the cap; the total is the real count.
    pub projectiles: Vec<ProjectileDebug>,
    pub projectiles_total: usize,
    pub pickups: Vec<PickupDebug>,
    pub frog: Option<Frog>,
    pub obstacles_alive: usize,
    pub engage: EngageSnapshot,
    /// The live enemies that are bunched up, by slot.
    pub clusters: Vec<Vec<usize>>,
}

/// The live tiles among the first `n`.
pub open spec fn standing(all: Seq<(u64, Tile)>, n: int) -> nat
    decreases n,
{
    if n <= 0 {
        0
    } else {
        standing(all, n - 1) + (if all[n - 1].1.destroyed {
            0nat
        } else {
            1
        })
    }
}

fn count_standing(field: &Field) -> (count: usize)
    ensures
        exists|all: Seq<(u64, Tile)>| #[trigger]
            lists::<Tile>(field@, all) && count == standing(all, all.len() as int),
{
    let all: Vec<(u64, Tile)> = field.all();
    let mut count: usize = 0;
    let mut n: usize = 0;
    while n < all.len()
        invariant
            n <= all@.len(),
            count <= n,
            count == standing(all@, n as int),
        decreases all@.len() - n,
    {
        if !all[n].1.destroyed {
            count += 1;
        }
        n += 1;
    }
    assert(lists::<Tile>(field@, all@));
    count
}

impl Game {
    /// The world as plain values, in as much detail as asked for. `names` has
    /// a name for each chassis row. Tanks and pickups are where they round to.
    pub fn debug_snapshot<
        D: Fn(Point, Point) -> Scalar,
        T: Fn(u64) -> bool,
        P: Fn(Point) -> Point,
        H: Fn(Scalar) -> Scalar,
    >(
        &self,
        detail: Detail,
        radius: Scalar,
        facts: FrameFacts,
        names: &Vec<&'static str>,
        o: &Probe<D, T, P, H>,
    ) -> (snap: DebugSnapshot)
        requires
            slots_unique(self.field@),
            all_named(self.field@, names@),
            probes_well(*o),
        ensures
            snap.frame == self.round.frame,
            snap.facts == facts,
            snap.seed == self.round.round_seed,
            snap.outcome == self.round.outcome,
            snap.paused == self.round.paused,
            snap.restart_timer == self.round.restart_timer,
            in_order(snap.tanks@),
            exists|pack: Seq<(u64, Tank)>, all: Seq<(u64, Tank)>, ps: Seq<Probed>, near: Seq<
                Vec<bool>,
            >|
                {
                    &&& selects::<Tank>(self.field@, in_the_pack(), pack)
                    &&& lists::<Tank>(self.field@, all)
                    &&& #[trigger] probes(
                        *o,
                        pack,
                        all,
                        is_full(detail),
                        ps,
                        all.len() as int,
                    )
                    &&& snap.tanks@ == tank_entries(all, names@, is_full(detail), ps)
                    &&& #[trigger] pairs_read(o.dist, radius, pack, near, pack.len() as int)
                    &&& clustered(slots_of(pack), near, snap.clusters@)
                },
            exists|all: Seq<(u64, Shot)>| #[trigger]
                lists::<Shot>(self.field@, all) && snap.projectiles_total == shot_entries(all).len()
                    && snap.projectiles@ == capped(shot_entries(all), PROJECTILE_CAP as int),
            in_order(snap.pickups@),
            exists|all: Seq<(u64, Pickup)>, at: Seq<Point>|
                {
                    &&& lists::<Pickup>(self.field@, all)
                    &&& #[trigger] rounded(o.tidy, all, at, all.len() as int)
                    &&& snap.pickups@ == pickup_entries(all, at)
                },
            snap.frog == (match self.round.frog {
                Some(e) => thing::<Frog>(self.field@, e),
                None => None,
            }),
            exists|all: Seq<(u64, Tile)>| #[trigger]
                lists::<Tile>(self.field@, all) && snap.obstacles_alive == standing(
                    all,
                    all.len() as int,
                ),
            snap.engage.tells(&self.pack.report, is_full(detail)),
    {
        let full: bool = detail == Detail::Full;
        let (projectiles, projectiles_total) = list_shots(&self.field);
        let frog: Option<Frog> = match self.round.frog {
            Some(e) => self.field.get(e),
            None => None,
        };
        let pack: Vec<(u64, Tank)> = self.standing_enemies();
        assert(slots_of(pack@).no_duplicates()) by {
            assert forall|i: int, j: int| 0 <= i < j < pack@.len() implies slots_of(pack@)[i]
                != slots_of(pack@)[j] by {
                assert(pack@[i].0 != pack@[j].0);
                assert(thing::<Tank>(self.field@, pack@[i].0) == Some(pack@[i].1));
                assert(thing::<Tank>(self.field@, pack@[j].0) == Some(pack@[j].1));
            }
        }
        let tanks: Vec<TankDebug> = list_tanks(&self.field, &pack, names, full, o);
        let groups: Vec<Vec<usize>> = bunches(&pack, radius, &o.dist);
        let snap: DebugSnapshot = DebugSnapshot {
            frame: self.round.frame,
            facts,
            seed: self.round.round_seed,
            outcome: self.round.outcome,
            paused: self.round.paused,
            restart_timer: self.round.restart_timer,
            tanks,
            projectiles,
            projectiles_total,
            pickups: list_pickups(&self.field, &o.tidy),
            frog,
            obstacles_alive: count_standing(&self.field),
            engage: engage_snapshot(&self.pack.report, full),
            clusters: groups,
        };
        proof {
            let (all, ps) = choose|all: Seq<(u64, Tank)>, ps: Seq<Probed>|
                {
                    &&& lists::<Tank>(self.field@, all)
                    &&& #[trigger] probes(
                        *o,
                        pack@,
                        all,
                        full,
                        ps,
                        all.len() as int,
                    )
                    &&& snap.tanks@ == tank_entries(all, names@, full, ps)
                };
            let near = choose|near: Seq<Vec<bool>>|
                {
                    &&& #[trigger] pairs_read(o.dist, radius, pack@, near, pack@.len() as int)
                    &&& clustered(slots_of(pack@), near, snap.clusters@)
                };
            assert(selects::<Tank>(self.field@, in_the_pack(), pack@));
            assert(probes(
                *o,
                pack@,
                all,
                is_full(detail),
                ps,
                all.len() as int,
            ));
            assert(pairs_read(o.dist, radius, pack@, near, pack@.len() as int));
        }
        snap
    }
}

/// Only a live enemy has a closest ally in a snapshot, and only while another
/// enemy lives.
pub proof fn only_a_live_enemy_has_an_ally<D: Fn(Point, Point) -> Scalar>(
    dist: D,
    pieces: Map<u64, Piece>,
    pack: Seq<(u64, Tank)>,
    entity: u64,
    t: Tank,
    far: Option<Scalar>,
)
    requires
        selects::<Tank>(pieces, in_the_pack(), pack),
        thing::<Tank>(pieces, entity) == Some(t),
        ally_at(dist, pack, t, far),
        far is Some,
    ensures
        t.mind is Some && !t.wreck,
        exists|other: u64|
            other != entity && ((#[trigger] thing::<Tank>(pieces, other)) matches Some(o)
                && o.mind is Some && !o.wreck),
{
    let ds = choose|ds: Seq<Scalar>|
        {
            &&& #[trigger] spaced(dist, others(pack, t.slot(), pack.len() as int), t.position, ds)
            &&& far == least(ds, ds.len() as int)
        };
    assert(ds.len() > 0);
    let k = lemma_other(pack, t.slot(), pack.len() as int);
    assert(thing::<Tank>(pieces, pack[k].0) == Some(pack[k].1));
    assert(in_the_pack()(pack[k].1));
}

proof fn lemma_other(pack: Seq<(u64, Tank)>, slot: usize, n: int) -> (k: int)
    requires
        0 <= n <= pack.len(),
        others(pack, slot, n).len() > 0,
    ensures
        0 <= k < n,
        pack[k].1.slot() != slot,
    decreases n,
{
    if pack[n - 1].1.slot() != slot {
        n - 1
    } else {
        lemma_other(pack, slot, n - 1)
    }
}

/// One live tank's row for a history of the round.
#[derive(Clone, Copy, Debug, PartialEq, Eq, Structural)]
pub struct TrackRow {
    pub entity: u64,
    pub slot: usize,
    pub position: Point,
    /// The ring slot held, by table position.
    pub ring: Option<u8>,
}

impl Ranked for TrackRow {
    open spec fn ahead(self, other: TrackRow) -> bool {
        self.slot < other.slot
    }

    proof fn ranks(a: TrackRow, b: TrackRow, c: TrackRow) {
    }

    fn is_ahead(&self, other: &TrackRow) -> (r: bool) {
        self.slot < other.slot
    }
}

/// A tank's row.
pub open spec fn track_row(report: &EngageReport, entity: u64, t: Tank) -> TrackRow {
    TrackRow {
        entity,
        slot: t.slot(),
        position: t.position,
        ring: match report.entry(entity) {
            Some(e) => ring_place(e.slot),
            None => None,
        },
    }
}

/// A live tank.
pub open spec fn live() -> spec_fn(Tank) -> bool {
    |t: Tank| !t.wreck
}

impl Game {
    /// One row per live tank, by slot.
    pub fn debug_track_rows(&self) -> (rows: Vec<TrackRow>)
        ensures
            in_order(rows@),
            exists|all: Seq<(u64, Tank)>| #[trigger]
                selects::<Tank>(self.field@, live(), all) && rows@ == ranked(
                    all.map_values(
                        |e: (u64, Tank)| track_row(&self.pack.report, e.0, e.1),
                    ),
                ),
    {
        let test = |t: Tank| -> (b: bool)
            ensures
                b == !t.wreck,
        { !t.wreck };
        let all = self.field.select(Ghost(live()), test);
        let mut rows: Vec<TrackRow> = Vec::new();
        let mut n: usize = 0;
        while n < all.len()
            invariant
                n <= all@.len(),
                rows@.len() == n,
                forall|i: int|
                    0 <= i < n ==> #[trigger] rows@[i] == track_row(
                        &self.pack.report,
                        all@[i].0,
                        all@[i].1,
                    ),
            decreases all@.len() - n,
        {
            let (entity, t) = all[n];
            let held: Option<EngageSlot> = self.pack.report.slot_of(entity);
            rows.push(
                TrackRow {
                    entity,
                    slot: t.owner_slot(),
                    position: t.position,
                    ring: ring_of(held),
                },
            );
            n += 1;
        }
        assert(rows@ =~= all@.map_values(
            |e: (u64, Tank)| track_row(&self.pack.report, e.0, e.1),
        ));
        sort_ranked(&rows)
    }

    /// The tank in an owner slot, if there is one.
    pub fn tank_entity_by_slot(&self, slot: usize) -> (r: Option<u64>)
        ensures
            match r {
                Some(e) => thing::<Tank>(self.field@, e) matches Some(t) && t.slot() == slot,
                None => forall|e: u64|
                    (#[trigger] thing::<Tank>(self.field@, e)) matches Some(t) ==> t.slot() != slot,
            },
    {
        let all: Vec<(u64, Tank)> = self.field.all();
        let mut n: usize = 0;
        while n < all.len()
            invariant
                n <= all@.len(),
                lists::<Tank>(self.field@, all@),
                forall|i: int| 0 <= i < n ==> (#[trigger] all@[i]).1.slot() != slot,
            decreases all@.len() - n,
        {
            let (e, t) = all[n];
            assert(thing::<Tank>(self.field@, all@[n as int].0) == Some(all@[n as int].1));
            if t.owner_slot() == slot {
                return Some(e);
            }
            n += 1;
        }
        assert forall|e: u64| #[trigger] thing::<Tank>(self.field@, e) is Some implies thing::<
            Tank,
        >(self.field@, e)->0.slot() != slot by {
            let i = choose|i: int| 0 <= i < all@.len() && (#[trigger] all@[i]).0 == e;
            assert(thing::<Tank>(self.field@, all@[i].0) == Some(all@[i].1));
        }
        None
    }
}

/// Slots are never shared, so a slot names a tank for the whole round.
pub open spec fn slots_unique(pieces: Map<u64, Piece>) -> bool {
    forall|a: u64, b: u64|
        (#[trigger] thing::<Tank>(pieces, a)) is Some && (#[trigger] thing::<Tank>(pieces, b)) is Some
            && thing::<Tank>(pieces, a)->0.slot() == thing::<Tank>(pieces, b)->0.slot() ==> a == b
}

/// The slot holds a tank.
pub open spec fn slot_taken(pieces: Map<u64, Piece>, slot: usize) -> bool {
    exists|e: u64| (#[trigger] thing::<Tank>(pieces, e)) matches Some(t) && t.slot() == slot
}

/// The slot holds that tank.
pub open spec fn in_slot(pieces: Map<u64, Piece>, slot: usize, e: u64) -> bool {
    thing::<Tank>(pieces, e) matches Some(t) && t.slot() == slot
}

/// The tank a slot names.
pub open spec fn tank_in(pieces: Map<u64, Piece>, slot: usize) -> u64 {
    choose|e: u64| #[trigger] in_slot(pieces, slot, e)
}

/// Why a console command was refused.
#[derive(Clone, Copy, Debug, PartialEq, Eq, Structural)]
pub enum DebugError {
    NoTank(usize),
    AlreadyWreck(usize),
    SlotsFull,
    RowOutside(i32),
}

/// Fields to overwrite; one left out is left alone.
#[derive(Clone, Copy, Debug, PartialEq, Eq, Structural)]
pub struct TankPatch {
    pub damage: Option<Scalar>,
    pub shells_ammo: Option<i32>,
    pub minigun_ammo: Option<i32>,
    pub plasma_ammo: Option<i32>,
    pub laser_charges: Option<i32>,
    pub shield: Option<Scalar>,
    pub speed_boost: Option<Scalar>,
    pub portal_cooldown: Option<Scalar>,
}

/// A count brought up to nothing.
pub open spec fn counted(patch: Option<i32>, now: i32) -> i32 {
    match patch {
        Some(n) => if n < 0 {
            0
        } else {
            n
        },
        None => now,
    }
}

fn count(patch: Option<i32>, now: i32) -> (n: i32)
    ensures
        n == counted(patch, now),
{
    match patch {
        Some(n) => if n < 0 {
            0
        } else {
            n
        },
        None => now,
    }
}

/// Seconds brought up to none.
pub open spec fn timed(patch: Option<Scalar>, now: Scalar) -> Scalar {
    match patch {
        Some(t) => if Scalar::zero().below(t) {
            t
        } else {
            Scalar::zero()
        },
        None => now,
    }
}

fn time(patch: Option<Scalar>, now: Scalar) -> (t: Scalar)
    ensures
        t == timed(patch, now),
{
    match patch {
        Some(t) => if t.positive() {
            t
        } else {
            Scalar::zero()
        },
        None => now,
    }
}

/// Damage brought between none and the most a hull takes.
pub open spec fn clamped(d: Scalar, max: Scalar) -> Scalar {
    if d.below(Scalar::zero()) {
        Scalar::zero()
    } else if max.below(d) {
        max
    } else {
        d
    }
}

/// A tank once patched. It is a wreck exactly when its damage has reached the
/// most, which only setting the damage changes.
pub open spec fn patched(t: Tank, patch: TankPatch, max: Scalar) -> Tank {
    let t = match patch.damage {
        Some(d) => Tank { damage: clamped(d, max), wreck: max.at_most(clamped(d, max)), ..t },
        None => t,
    };
    Tank {
        shells: counted(patch.shells_ammo, t.shells),
        minigun_ammo: counted(patch.minigun_ammo, t.minigun_ammo),
        plasma_ammo: counted(patch.plasma_ammo, t.plasma_ammo),
        laser_charges: counted(patch.laser_charges, t.laser_charges),
        shield: timed(patch.shield, t.shield),
        speed_boost: timed(patch.speed_boost, t.speed_boost),
        portal_cooldown: timed(patch.portal_cooldown, t.portal_cooldown),
        ..t
    }
}

/// A tank that is handed some weapons in turn.
pub open spec fn all_armed(t: Tank, weapons: Seq<ActiveWeapon>, n: int) -> Tank
    decreases n,
{
    if n <= 0 {
        t
    } else {
        armed_with(all_armed(t, weapons, n - 1), weapons[n - 1])
    }
}

/// The special weapons a patch stocks, in the order they are queued: exactly
/// as collecting their pickups would, so that they can fire.
pub open spec fn stocked(patch: TankPatch) -> Seq<ActiveWeapon> {
    let one = |n: Option<i32>, w: ActiveWeapon|
        if n matches Some(k) && k > 0 {
            seq![w]
        } else {
            Seq::empty()
        };
    one(patch.minigun_ammo, ActiveWeapon::Minigun) + one(patch.plasma_ammo, ActiveWeapon::Plasma)
        + one(patch.laser_charges, ActiveWeapon::Laser)
}

fn stocks(n: Option<i32>) -> (r: bool)
    ensures
        r == (n matches Some(k) && k > 0),
{
    match n {
        Some(k) => k > 0,
        None => false,
    }
}

fn list_stocked(patch: &TankPatch) -> (weapons: Vec<ActiveWeapon>)
    ensures
        weapons@ == stocked(*patch),
{
    let mut weapons: Vec<ActiveWeapon> = Vec::new();
    if stocks(patch.minigun_ammo) {
        weapons.push(ActiveWeapon::Minigun);
    }
    if stocks(patch.plasma_ammo) {
        weapons.push(ActiveWeapon::Plasma);
    }
    if stocks(patch.laser_charges) {
        weapons.push(ActiveWeapon::Laser);
    }
    assert(weapons@ =~= stocked(*patch));
    weapons
}

fn apply_patch(t: Tank, patch: &TankPatch, max_damage: Scalar) -> (after: Tank)
    ensures
        after == patched(t, *patch, max_damage),
{
    let mut t: Tank = t;
    if let Some(d) = patch.damage {
        let d: Scalar = if d.lt(Scalar::zero()) {
            Scalar::zero()
        } else if max_damage.lt(d) {
            max_damage
        } else {
            d
        };
        t.damage = d;
        t.wreck = max_damage.le(d);
    }
    t.shells = count(patch.shells_ammo, t.shells);
    t.minigun_ammo = count(patch.minigun_ammo, t.minigun_ammo);
    t.plasma_ammo = count(patch.plasma_ammo, t.plasma_ammo);
    t.laser_charges = count(patch.laser_charges, t.laser_charges);
    t.shield = time(patch.shield, t.shield);
    t.speed_boost = time(patch.speed_boost, t.speed_boost);
    t.portal_cooldown = time(patch.portal_cooldown, t.portal_cooldown);
    t
}

fn arm_all(t: Tank, weapons: &Vec<ActiveWeapon>) -> (after: Tank)
    ensures
        after == all_armed(t, weapons@, weapons@.len() as int),
        after.owner == t.owner,
        after.mind == t.mind,
{
    let ghost plain = t;
    let mut t: Tank = t;
    let mut n: usize = 0;
    while n < weapons.len()
        invariant
            n <= weapons@.len(),
            t == all_armed(plain, weapons@, n as int),
            t.owner == plain.owner,
            t.mind == plain.mind,
        decreases weapons@.len() - n,
    {
        t.enqueue_weapon(weapons[n]);
        n += 1;
    }
    t
}

impl Game {
    /// Overwrite fields of the tank in a slot and queue the weapons that gives
    /// it. Returns those weapons, and refuses a slot with no tank.
    pub fn debug_set_tank(&mut self, slot: usize, patch: &TankPatch, max_damage: Scalar) -> (r:
        Result<Vec<ActiveWeapon>, DebugError>)
        requires
            old(self).wf(),
            slots_unique(old(self).field@),
        ensures
            final(self).wf(),
            final(self).keeps_surroundings(old(self)),
            final(self).events == old(self).events,
            final(self).round == old(self).round,
            r is Err == !slot_taken(old(self).field@, slot),
            r matches Err(e) ==> e == DebugError::NoTank(slot) && final(self).field@ == old(
                self,
            ).field@,
            r matches Ok(weapons) ==> weapons@ == stocked(*patch) && forall|e: u64| #[trigger]
                in_slot(old(self).field@, slot, e) ==> final(self).field@ == old(
                    self,
                ).field@.insert(
                    e,
                    all_armed(
                        patched(thing::<Tank>(old(self).field@, e)->0, *patch, max_damage),
                        stocked(*patch),
                        stocked(*patch).len() as int,
                    ).as_piece(),
                ),
    {
        let entity: u64 = match self.tank_entity_by_slot(slot) {
            Some(e) => e,
            None => return Err(DebugError::NoTank(slot)),
        };
        assert(in_slot(self.field@, slot, entity));
        let found: Option<Tank> = self.field.get(entity);
        let mut t: Tank = match found {
            Some(t) => t,
            None => return Err(DebugError::NoTank(slot)),
        };
        let weapons: Vec<ActiveWeapon> = list_stocked(patch);
        t = arm_all(apply_patch(t, patch, max_damage), &weapons);
        self.field.put(entity, t);
        proof {
            let seats = self.round.seats@;
            assert forall|i: int| #![trigger seats[i]] 0 <= i < MAX_SEATS implies (
            seats[i] matches Some(e) ==> i < self.round.players.seated() && (thing::<Tank>(
                self.field@,
                e,
            ) matches Some(t) && t.owner == Owner::Player(i as u8) && t.mind is None)) by {
                assert(seats[i] == old(self).round.seats@[i]);
            }
            assert forall|e: u64| #[trigger] in_slot(old(self).field@, slot, e) implies e
                == entity by {
                assert(thing::<Tank>(old(self).field@, e) is Some);
                assert(thing::<Tank>(old(self).field@, entity) is Some);
            }
        }
        Ok(weapons)
    }

    /// Queue the tank in a slot to die at the top of the next playing frame,
    /// so that it dies like any other. Refuses a slot with no tank and a tank
    /// that is a wreck already.
    pub fn debug_kill(&mut self, slot: usize) -> (r: Result<(), DebugError>)
        requires
            slots_unique(old(self).field@),
        ensures
            final(self).field == old(self).field,
            final(self).round == old(self).round,
            final(self).pack == old(self).pack,
            final(self).ground == old(self).ground,
            final(self).show == old(self).show,
            final(self).events == old(self).events,
            !slot_taken(old(self).field@, slot) ==> r == Err::<(), DebugError>(
                DebugError::NoTank(slot),
            ),
            forall|e: u64| #[trigger]
                in_slot(old(self).field@, slot, e) ==> (if thing::<Tank>(
                    old(self).field@,
                    e,
                )->0.wreck {
                    r == Err::<(), DebugError>(DebugError::AlreadyWreck(slot))
                } else {
                    r == Ok::<(), DebugError>(())
                }),
            final(self).debug_kills@ == (if r is Ok && !old(self).debug_kills@.contains(slot) {
                old(self).debug_kills@.push(slot)
            } else {
                old(self).debug_kills@
            }),
    {
        let entity: u64 = match self.tank_entity_by_slot(slot) {
            Some(e) => e,
            None => {
                return Err(DebugError::NoTank(slot));
            },
        };
        assert(in_slot(self.field@, slot, entity));
        assert forall|e: u64| #[trigger] in_slot(self.field@, slot, e) implies e == entity by {
            assert(thing::<Tank>(self.field@, e) is Some);
            assert(thing::<Tank>(self.field@, entity) is Some);
        }
        let found: Option<Tank> = self.field.get(entity);
        if let Some(t) = found {
            if t.wreck {
                return Err(DebugError::AlreadyWreck(slot));
            }
        }
        let mut known: bool = false;
        let mut i: usize = 0;
        while i < self.debug_kills.len()
            invariant
                i <= self.debug_kills@.len(),
                self.debug_kills@ == old(self).debug_kills@,
                known == exists|k: int| 0 <= k < i && self.debug_kills@[k] == slot,
            decreases self.debug_kills@.len() - i,
        {
            if self.debug_kills[i] == slot {
                known = true;
            }
            i += 1;
        }
        assert(known == old(self).debug_kills@.contains(slot));
        if !known {
            self.debug_kills.push(slot);
        }
        Ok(())
    }
}

/// A tank killed outright: no shield, all the damage there is.
pub open spec fn struck_down(t: Tank, max: Scalar) -> Tank {
    Tank { shield: Scalar::zero(), damage: max, wreck: true, ..t }
}

/// The field and the record once the first `n` slots asked for have died.
#[verifier::ext_equal]
pub struct Execution {
    pub pieces: Map<u64, Piece>,
    pub record: Record,
}

/// The first `n` of the slots asked to die do so, those that hold a live tank.
pub open spec fn executed(at: Execution, slots: Seq<usize>, max: Scalar, n: int) -> Execution
    decreases n,
{
    if n <= 0 {
        at
    } else {
        let at = executed(at, slots, max, n - 1);
        if slot_taken(at.pieces, slots[n - 1]) {
            let e = tank_in(at.pieces, slots[n - 1]);
            let t = thing::<Tank>(at.pieces, e)->0;
            if t.wreck {
                at
            } else {
                Execution {
                    pieces: at.pieces.insert(e, struck_down(t, max).as_piece()),
                    record: at.record.with_kill(t.position, t.owner),
                }
            }
        } else {
            at
        }
    }
}

impl Game {
    /// Carry out the kills asked for, first thing in a playing frame.
    pub fn apply_debug_kills(&mut self, f: &mut Frame, max_damage: Scalar)
        requires
            old(self).wf(),
            slots_unique(old(self).field@),
        ensures
            final(self).wf(),
            slots_unique(final(self).field@),
            final(self).round == old(self).round,
            final(self).pack == old(self).pack,
            final(self).ground == old(self).ground,
            final(self).show == old(self).show,
            final(self).events == old(self).events,
            final(self).debug_kills@ == Seq::<usize>::empty(),
            (Execution { pieces: final(self).field@, record: final(f)@ }) == executed(
                Execution { pieces: old(self).field@, record: old(f)@ },
                old(self).debug_kills@,
                max_damage,
                old(self).debug_kills@.len() as int,
            ),
    {
        let ghost start = Execution { pieces: self.field@, record: f@ };
        let mut n: usize = 0;
        while n < self.debug_kills.len()
            invariant
                n <= self.debug_kills@.len(),
                self.wf(),
                slots_unique(self.field@),
                self.round == old(self).round,
                self.keeps_surroundings(old(self)),
                self.events == old(self).events,
                (Execution { pieces: self.field@, record: f@ }) == executed(
                    start,
                    old(self).debug_kills@,
                    max_damage,
                    n as int,
                ),
            decreases self.debug_kills@.len() - n,
        {
            let slot: usize = self.debug_kills[n];
            let ghost before = self.field@;
            let found: Option<u64> = self.tank_entity_by_slot(slot);
            if let Some(entity) = found {
                assert(in_slot(before, slot, entity));
                proof {
                    let e = tank_in(before, slot);
                    assert(thing::<Tank>(before, e) is Some);
                    assert(thing::<Tank>(before, entity) is Some);
                    assert(e == entity);
                }
                let tank: Option<Tank> = self.field.get(entity);
                if let Some(t) = tank {
                    if !t.wreck {
                        let dead = Tank {
                            shield: Scalar::zero(),
                            damage: max_damage,
                            wreck: true,
                            ..t
                        };
                        self.field.put(entity, dead);
                        f.kill(t.position, t.owner);
                        proof {
                            lemma_same_tanks(before, self.field@, entity, dead);
                            let seats = self.round.seats@;
                            assert forall|i: int| #![trigger seats[i]] 0 <= i < MAX_SEATS implies (
                            seats[i] matches Some(e) ==> i < self.round.players.seated() && (
                            thing::<Tank>(self.field@, e) matches Some(t) && t.owner
                                == Owner::Player(i as u8) && t.mind is None)) by {
                                assert(seats[i] == old(self).round.seats@[i]);
                            }
                        }
                    }
                }
            }
            n += 1;
        }
        self.debug_kills = Vec::new();
    }
}

proof fn lemma_same_tanks(before: Map<u64, Piece>, after: Map<u64, Piece>, entity: u64, t: Tank)
    requires
        slots_unique(before),
        thing::<Tank>(before, entity) matches Some(was) && was.owner == t.owner,
        after == before.insert(entity, t.as_piece()),
    ensures
        slots_unique(after),
{
    assert forall|a: u64, b: u64|
        (#[trigger] thing::<Tank>(after, a)) is Some && (#[trigger] thing::<Tank>(after, b)) is Some
            && thing::<Tank>(after, a)->0.slot() == thing::<Tank>(after, b)->0.slot() implies a
        == b by {
        assert(thing::<Tank>(before, a) is Some);
        assert(thing::<Tank>(before, b) is Some);
        assert(thing::<Tank>(before, a)->0.slot() == thing::<Tank>(after, a)->0.slot());
        assert(thing::<Tank>(before, b)->0.slot() == thing::<Tank>(after, b)->0.slot());
    }
}

/// The highest slot a tank holds; zero with no tank at all.
pub open spec fn is_top_slot(pieces: Map<u64, Piece>, top: usize) -> bool {
    &&& forall|e: u64|
        (#[trigger] thing::<Tank>(pieces, e)) matches Some(t) ==> t.slot() <= top
    &&& top == 0 || slot_taken(pieces, top)
}

/// Last slot an enemy may take.
pub const LAST_SLOT: usize = 31;

/// The slot and the chassis the next enemy would get, or why there is none:
/// the slot after the last one taken, and the row asked for or else the next
/// in the spawn order.
pub open spec fn next_enemy(top: usize, row: Option<i32>) -> Result<(usize, i32), DebugError> {
    let chosen = match row {
        Some(r) => r,
        None => sprite_order()[top as int % 12],
    };
    if top >= LAST_SLOT {
        Err(DebugError::SlotsFull)
    } else if !(0 <= chosen < TANK_VARIANTS) {
        Err(DebugError::RowOutside(chosen))
    } else {
        Ok(((top + 1) as usize, chosen))
    }
}

impl Game {
    fn top_slot(&self) -> (top: usize)
        ensures
            is_top_slot(self.field@, top),
    {
        let all: Vec<(u64, Tank)> = self.field.all();
        let mut top: usize = 0;
        let mut n: usize = 0;
        while n < all.len()
            invariant
                n <= all@.len(),
                lists::<Tank>(self.field@, all@),
                forall|i: int| 0 <= i < n ==> (#[trigger] all@[i]).1.slot() <= top,
                top == 0 || slot_taken(self.field@, top),
            decreases all@.len() - n,
        {
            let (e, t) = all[n];
            let slot: usize = t.owner_slot();
            assert(thing::<Tank>(self.field@, all@[n as int].0) == Some(all@[n as int].1));
            if slot > top {
                top = slot;
                assert(thing::<Tank>(self.field@, e) == Some(t));
            }
            n += 1;
        }
        assert forall|e: u64| #[trigger] thing::<Tank>(self.field@, e) is Some implies thing::<
            Tank,
        >(self.field@, e)->0.slot() <= top by {
            let i = choose|i: int| 0 <= i < all@.len() && (#[trigger] all@[i]).0 == e;
            assert(thing::<Tank>(self.field@, all@[i].0) == Some(all@[i].1));
        }
        top
    }

    /// Add an enemy in the next free slot. `tank` is what the host rolled for
    /// it; its slot and chassis are set here. Returns the slot.
    pub fn debug_spawn_enemy(&mut self, tank: Tank, row: Option<i32>) -> (r: Result<
        usize,
        DebugError,
    >)
        requires
            old(self).wf(),
            old(self).field.has_room(),
            tank.mind is Some,
        ensures
            final(self).wf(),
            final(self).keeps_surroundings(old(self)),
            final(self).events == old(self).events,
            final(self).round == old(self).round,
            exists|top: usize|
                {
                    &&& #[trigger] is_top_slot(old(self).field@, top)
                    &&& match next_enemy(top, row) {
                        Err(e) => r == Err::<usize, DebugError>(e) && final(self).field@ == old(
                            self,
                        ).field@,
                        Ok((slot, chosen)) => r == Ok::<usize, DebugError>(slot) && exists|id: u64|
                            {
                                &&& !old(self).field@.contains_key(id)
                                &&& final(self).field@ == #[trigger] old(self).field@.insert(
                                    id,
                                    (Tank {
                                        owner: Owner::Enemy(slot),
                                        row: chosen,
                                        ..tank
                                    }).as_piece(),
                                )
                            },
                    }
                },
    {
        let top: usize = self.top_slot();
        if top >= LAST_SLOT {
            return Err(DebugError::SlotsFull);
        }
        let chosen: i32 = match row {
            Some(r) => r,
            None => enemy_row(top),
        };
        if chosen < 0 || chosen >= TANK_VARIANTS {
            return Err(DebugError::RowOutside(chosen));
        }
        let slot: usize = top + 1;
        self.place_enemy(slot, Tank { row: chosen, ..tank });
        Ok(slot)
    }
}

/// A slot given to a new enemy was free.
pub proof fn a_new_enemy_gets_a_free_slot(pieces: Map<u64, Piece>, top: usize, row: Option<i32>)
    requires
        is_top_slot(pieces, top),
        next_enemy(top, row) is Ok,
    ensures
        !slot_taken(pieces, (next_enemy(top, row)->Ok_0).0),
        (next_enemy(top, row)->Ok_0).0 <= LAST_SLOT,
        0 <= (next_enemy(top, row)->Ok_0).1 < TANK_VARIANTS,
{
}

impl Game {
    /// Put the tank in a slot somewhere else, at rest, and turn it where a
    /// heading is given. Returns which it is, for its body to follow.
    pub fn debug_teleport(
        &mut self,
        slot: usize,
        position: Point,
        rotation: Option<Scalar>,
    ) -> (r: Result<u64, DebugError>)
        requires
            old(self).wf(),
            slots_unique(old(self).field@),
        ensures
            final(self).wf(),
            final(self).round == old(self).round,
            final(self).keeps_surroundings(old(self)),
            final(self).events == old(self).events,
            r is Err == !slot_taken(old(self).field@, slot),
            r matches Err(e) ==> e == DebugError::NoTank(slot) && final(self).field@ == old(
                self,
            ).field@,
            r matches Ok(entity) ==> in_slot(old(self).field@, slot, entity) && final(self).field@
                == old(self).field@.insert(
                entity,
                (Tank {
                    position,
                    commanded: Point { x: Scalar::zero(), y: Scalar::zero() },
                    asked: Point { x: Scalar::zero(), y: Scalar::zero() },
                    velocity: Point { x: Scalar::zero(), y: Scalar::zero() },
                    rotation: match rotation {
                        Some(to) => to,
                        None => (thing::<Tank>(old(self).field@, entity)->0).rotation,
                    },
                    ..thing::<Tank>(old(self).field@, entity)->0
                }).as_piece(),
            ),
    {
        let ghost before = self.field@;
        let entity: u64 = match self.tank_entity_by_slot(slot) {
            Some(e) => e,
            None => return Err(DebugError::NoTank(slot)),
        };
        assert(in_slot(self.field@, slot, entity));
        let found: Option<Tank> = self.field.get(entity);
        if let Some(t) = found {
            let mut t: Tank = t;
            t.position = position;
            t.commanded = Point { x: Scalar::zero(), y: Scalar::zero() };
            t.asked = Point { x: Scalar::zero(), y: Scalar::zero() };
            t.velocity = Point { x: Scalar::zero(), y: Scalar::zero() };
            if let Some(to) = rotation {
                t.rotation = to;
            }
            self.field.put(entity, t);
        }
        proof {
            assert(keeps_identities(before, self.field@));
            lemma_identities(self.round, before, self.field@);
        }
        Ok(entity)
    }
}

proof fn lemma_least(distances: Seq<Scalar>, n: int)
    requires
        0 <= n <= distances.len(),
        forall|i: int|
            0 <= i < n ==> !(#[trigger] distances[i]).is_nan() && distances[i].magnitude()
                < INFINITE,
    ensures
        match least(distances, n) {
            Some(d) => !d.is_nan() && distances.contains(d) && forall|i: int|
                0 <= i < n ==> d.at_most(#[trigger] distances[i]),
            None => n == 0,
        },
    decreases n,
{
    if n > 0 {
        lemma_least(distances, n - 1);
        assert(distances.contains(distances[n - 1]));
    }
}

/// The closest ally is the one with the least distance, and there is one
/// whenever there is a distance at all.
pub proof fn the_closest_ally_is_the_nearest(distances: Seq<Scalar>)
    requires
        forall|i: int|
            0 <= i < distances.len() ==> !(#[trigger] distances[i]).is_nan()
                && distances[i].magnitude() < INFINITE,
    ensures
        match least(distances, distances.len() as int) {
            Some(d) => distances.contains(d) && forall|i: int|
                0 <= i < distances.len() ==> d.at_most(#[trigger] distances[i]),
            None => distances.len() == 0,
        },
{
    lemma_least(distances, distances.len() as int);
}

/// The others are all of the pack but the one in the slot.
pub proof fn everyone_else_is_another(pack: Seq<(u64, Tank)>, slot: usize, n: int, at: Point)
    requires
        0 <= n <= pack.len(),
    ensures
        others(pack, slot, n).contains(at) <==> exists|k: int|
            0 <= k < n && (#[trigger] pack[k]).1.owner.round_slot() != slot && pack[k].1.position
                == at,
    decreases n,
{
    if n > 0 {
        everyone_else_is_another(pack, slot, n - 1, at);
        lemma_pushed(others(pack, slot, n - 1), pack[n - 1].1.position, at);
    }
}

/// A tank's entry says of it what it is, and its mind, what it was told and
/// what it leans on only in full.
pub proof fn an_entry_shows_the_tank(
    entity: u64,
    t: Tank,
    names: Seq<&'static str>,
    p: Probed,
    other: Tank,
)
    ensures
        ({
            let e = tank_entry(entity, t, names, true, p);
            let c = tank_entry(entity, t, names, false, p);
            &&& e.entity == entity && e.slot == t.owner.round_slot() && e.row == t.row
            &&& e.is_player <==> t.owner.round_slot() == 0
            &&& e.chassis == names[t.row as int] && e.position == p.at && e.hp == p.hp
            &&& e.rotation == t.rotation && e.velocity == t.velocity && e.damage == t.damage
            &&& e.wreck == t.wreck && e.shells == t.shells && e.minigun == t.minigun_ammo
            &&& e.plasma == t.plasma_ammo && e.laser == t.laser_charges && e.weapon == t.weapon
            &&& e.shield == t.shield && e.boost == t.speed_boost && e.nearest_ally == p.far
            &&& e.commanded == Some(t.commanded) && e.touching_static == Some(p.touching)
            &&& e.mind == t.mind
            &&& c == (TankDebug { commanded: None, touching_static: None, mind: None, ..e })
            &&& e.ahead(tank_entry(entity, other, names, true, p)) <==> t.owner.round_slot()
                < other.owner.round_slot()
        }),
        is_full(Detail::Full) && !is_full(Detail::Compact),
{
}

/// Every shot of a kind is among the entries of that kind, and shells come
/// before plasma and plasma before bullets.
pub proof fn every_shot_is_listed(
    all: Seq<(u64, Shot)>,
    kind: ProvisionalKind,
    n: int,
    e: ProjectileDebug,
)
    requires
        0 <= n <= all.len(),
    ensures
        shots_of(all, kind, n).contains(e) <==> exists|k: int|
            {
                &&& 0 <= k < n && (#[trigger] all[k]).1.kind == kind && e.kind == kind
                &&& e.owner == all[k].1.owner.round_slot() && e.position == all[k].1.position
                &&& e.velocity == all[k].1.velocity && e.state == all[k].1.state
            },
        shot_entries(all) == shots_of(all, ProvisionalKind::Shell, all.len() as int) + shots_of(
            all,
            ProvisionalKind::Plasma,
            all.len() as int,
        ) + shots_of(all, ProvisionalKind::Bullet, all.len() as int),
    decreases n,
{
    if n > 0 {
        every_shot_is_listed(all, kind, n - 1, e);
        lemma_pushed(shots_of(all, kind, n - 1), shot_entry(all[n - 1].1), e);
    }
}

/// A capped list holds the first of what it is capped from, as many as it may.
pub proof fn a_capped_list_holds_the_first<T>(s: Seq<T>, cap: int)
    requires
        cap >= 0,
    ensures
        capped(s, cap).len() == (if s.len() <= cap {
            s.len() as int
        } else {
            cap
        }),
        forall|k: int| 0 <= k < capped(s, cap).len() ==> #[trigger] capped(s, cap)[k] == s[k],
{
}

/// Pickups come from left to right and, level with each other, from the top;
/// rows come by slot.
pub proof fn entries_come_in_order(a: PickupDebug, b: PickupDebug, r: TrackRow, s: TrackRow)
    ensures
        a.position.x.rank() < b.position.x.rank() ==> a.ahead(b) && !b.ahead(a),
        a.position.x.rank() == b.position.x.rank() ==> (a.ahead(b) <==> a.position.y.rank()
            < b.position.y.rank()),
        r.ahead(s) <==> r.slot < s.slot,
{
}

/// An engagement's entry says what the report says, by table position, and why
/// slots were passed over only in full and of those who compete.
pub proof fn an_engagement_is_shown_as_reported(
    t: EngageTank,
    tanks: Seq<EngageTank>,
    s: SlotReport,
    i: int,
)
    requires
        0 <= i < 16,
    ensures
        ({
            let e = engage_entry(t, true);
            let c = engage_entry(t, false);
            &&& e.slot == t.owner && e.status == t.status && e.target == t.target
            &&& e.sticky == t.sticky
            &&& t.slot is None ==> e.ring is None
            &&& t.slot matches Some(slot) ==> e.ring == Some(slot.place() as u8)
            &&& t.status is Engaged ==> e.rejected == Some(t.rejected)
            &&& !(t.status is Engaged) ==> e.rejected is None
            &&& c == (EngageTankDebug { rejected: None, ..e })
        }),
        ({
            let e = slot_entry(tanks, s, i);
            &&& e.i == i && e.slot == EngageSlot::at(i) && e.point == s.point
            &&& e.los == s.line_of_sight
            &&& s.claimed_by is None ==> e.claimed_by is None
            &&& forall|k: int|
                0 <= k < tanks.len() && s.claimed_by == Some((#[trigger] tanks[k]).entity) && (
                forall|j: int| 0 <= j < k ==> (#[trigger] tanks[j]).entity != tanks[k].entity)
                    ==> e.claimed_by == Some(tanks[k].owner)
        }),
{
    if s.claimed_by is Some {
        let e = s.claimed_by->0;
        lemma_find_tank(tanks, e);
        let at = find_tank(tanks, e);
        assert forall|k: int|
            0 <= k < tanks.len() && (#[trigger] tanks[k]).entity == e && (forall|j: int|
                0 <= j < k ==> (#[trigger] tanks[j]).entity != tanks[k].entity) implies at == k by {
            if at < k {
                assert(tanks[at].entity == e);
            }
        }
    }
}

/// What stands is what was not destroyed: one more for each, and none of the
/// rest.
pub proof fn only_what_stands_is_counted(all: Seq<(u64, Tile)>, n: int)
    requires
        0 < n <= all.len(),
    ensures
        standing(all, 0) == 0,
        !all[n - 1].1.destroyed ==> standing(all, n) == standing(all, n - 1) + 1,
        all[n - 1].1.destroyed ==> standing(all, n) == standing(all, n - 1),
{
}

/// A row says where a live tank is and which slot it holds.
pub proof fn a_row_shows_the_tank(report: &EngageReport, entity: u64, t: Tank)
    ensures
        ({
            let r = track_row(report, entity, t);
            &&& r.entity == entity && r.slot == t.owner.round_slot() && r.position == t.position
            &&& report.entry(entity) is None ==> r.ring is None
            &&& report.entry(entity) matches Some(e) ==> (match e.slot {
                Some(slot) => r.ring == Some(slot.place() as u8),
                None => r.ring is None,
            })
        }),
        live()(t) <==> !t.wreck,
{
}

/// A patch sets what it names, counts and clocks never below nothing and damage
/// between none and the most, and leaves the rest; a tank patched to the most
/// damage is a wreck, and one patched below it is not.
pub proof fn a_patch_sets_what_it_names(t: Tank, patch: TankPatch, max: Scalar)
    requires
        Scalar::zero().below(max),
    ensures
        ({
            let a = patched(t, patch, max);
            &&& patch.damage is None ==> a.damage == t.damage && a.wreck == t.wreck
            &&& patch.damage matches Some(d) ==> {
                &&& d.below(Scalar::zero()) ==> a.damage == Scalar::zero() && !a.wreck
                &&& max.at_most(d) ==> a.wreck && (a.damage == max || a.damage == d)
                &&& max.below(d) ==> a.damage == max
                &&& Scalar::zero().at_most(d) && d.below(max) ==> a.damage == d && !a.wreck
            }
            &&& patch.shells_ammo is None ==> a.shells == t.shells
            &&& patch.shells_ammo matches Some(n) ==> a.shells == (if n > 0 {
                n as int
            } else {
                0
            })
            &&& patch.minigun_ammo is None ==> a.minigun_ammo == t.minigun_ammo
            &&& patch.minigun_ammo matches Some(n) ==> a.minigun_ammo == (if n > 0 {
                n as int
            } else {
                0
            })
            &&& patch.plasma_ammo is None ==> a.plasma_ammo == t.plasma_ammo
            &&& patch.plasma_ammo matches Some(n) ==> a.plasma_ammo == (if n > 0 {
                n as int
            } else {
                0
            })
            &&& patch.laser_charges is None ==> a.laser_charges == t.laser_charges
            &&& patch.laser_charges matches Some(n) ==> a.laser_charges == (if n > 0 {
                n as int
            } else {
                0
            })
            &&& patch.shield is None ==> a.shield == t.shield
            &&& patch.shield matches Some(s) ==> a.shield == (if Scalar::zero().below(s) {
                s
            } else {
                Scalar::zero()
            })
            &&& patch.speed_boost is None ==> a.speed_boost == t.speed_boost
            &&& patch.speed_boost matches Some(s) ==> a.speed_boost == (if Scalar::zero().below(s) {
                s
            } else {
                Scalar::zero()
            })
            &&& patch.portal_cooldown is None ==> a.portal_cooldown == t.portal_cooldown
            &&& patch.portal_cooldown matches Some(s) ==> a.portal_cooldown == (
            if Scalar::zero().below(s) {
                s
            } else {
                Scalar::zero()
            })
            &&& a.position == t.position && a.owner == t.owner && a.mind == t.mind
        }),
{
}

/// A patch that gives a special weapon ammunition queues it, minigun first,
/// plasma after it and the laser last.
pub proof fn a_stocked_weapon_is_queued(patch: TankPatch)
    ensures
        ({
            let m = patch.minigun_ammo is Some && patch.minigun_ammo->0 > 0;
            let p = patch.plasma_ammo is Some && patch.plasma_ammo->0 > 0;
            let l = patch.laser_charges is Some && patch.laser_charges->0 > 0;
            let s = stocked(patch);
            &&& m && p && l ==> s =~= seq![
                ActiveWeapon::Minigun,
                ActiveWeapon::Plasma,
                ActiveWeapon::Laser,
            ]
            &&& m && p && !l ==> s =~= seq![ActiveWeapon::Minigun, ActiveWeapon::Plasma]
            &&& m && !p && l ==> s =~= seq![ActiveWeapon::Minigun, ActiveWeapon::Laser]
            &&& !m && p && l ==> s =~= seq![ActiveWeapon::Plasma, ActiveWeapon::Laser]
            &&& m && !p && !l ==> s =~= seq![ActiveWeapon::Minigun]
            &&& !m && p && !l ==> s =~= seq![ActiveWeapon::Plasma]
            &&& !m && !p && l ==> s =~= seq![ActiveWeapon::Laser]
            &&& !m && !p && !l ==> s.len() == 0
        }),
{
}

/// A slot asked to die takes its live tank with it: no shield, all the damage,
/// a wreck, and a kill where it stood; a slot without one changes nothing.
pub proof fn a_slot_asked_to_die_does(
    at: Execution,
    slots: Seq<usize>,
    max: Scalar,
    n: int,
    e: u64,
)
    requires
        0 < n <= slots.len(),
        slots_unique(executed(at, slots, max, n - 1).pieces),
        executed(at, slots, max, n - 1).pieces.contains_key(e),
        executed(at, slots, max, n - 1).pieces[e] is Tank,
        executed(at, slots, max, n - 1).pieces[e]->Tank_0.owner.round_slot() == slots[n - 1],
    ensures
        ({
            let was = executed(at, slots, max, n - 1);
            let now = executed(at, slots, max, n);
            let t = was.pieces[e]->Tank_0;
            &&& t.wreck ==> now == was
            &&& !t.wreck ==> {
                &&& now.pieces.contains_key(e) && now.pieces[e] is Tank
                &&& now.pieces[e]->Tank_0.wreck && now.pieces[e]->Tank_0.damage == max
                &&& now.pieces[e]->Tank_0.shield == Scalar::zero()
                &&& now.pieces[e]->Tank_0.position == t.position
                &&& now.record.kills.len() == was.record.kills.len() + 1
                &&& now.record.kills.last().at == t.position && now.record.kills.last().victim
                    == t.owner
            }
        }),
{
    let was = executed(at, slots, max, n - 1);
    assert(thing::<Tank>(was.pieces, e) == Some(was.pieces[e]->Tank_0));
    assert(in_slot(was.pieces, slots[n - 1], e));
    let f = tank_in(was.pieces, slots[n - 1]);
    assert(in_slot(was.pieces, slots[n - 1], f));
    assert(f == e);
}

/// The next enemy takes the slot after the last one taken, in the chassis asked
/// for or else the next in the spawn order; there is none past the last slot,
/// and none in a chassis that is not on the sheet.
pub proof fn the_next_enemy_takes_the_next_slot(top: usize, row: Option<i32>)
    ensures
        top >= 31 ==> next_enemy(top, row) == Err::<(usize, i32), DebugError>(
            DebugError::SlotsFull,
        ),
        top < 31 && row is Some && 0 <= row->0 < 12 ==> next_enemy(top, row) == Ok::<
            (usize, i32),
            DebugError,
        >(((top + 1) as usize, row->0)),
        top < 31 && row is Some && !(0 <= row->0 < 12) ==> next_enemy(top, row) == Err::<
            (usize, i32),
            DebugError,
        >(DebugError::RowOutside(row->0)),
        top < 31 && row is None && next_enemy(top, row) is Ok ==> (next_enemy(top, row)->Ok_0).0
            == top + 1,
{
}

} // verus!
