//! What a shot strikes first.
//!
//! The host sweeps a projectile's whole movement this frame against every
//! box it could meet and hands over the times at which it enters each. Which
//! of them is the hit, which tiles it flies over, whether a shield throws it
//! back and whether it bounces are decided here.

use rand::rngs::SmallRng;
use vstd::prelude::*;

use crate::dice::{chance, Odds};
use crate::event::Event;
use crate::frame::Frame;
use crate::kinds::{Material, Owner};
use crate::scalar::{Point, Scalar};

verus! {

/// What a projectile or beam hit. The caller applies the effect.
#[derive(Clone, Copy, Debug, PartialEq, Eq, Structural)]
pub enum ShellTarget {
    PlayerTank(u64),
    EnemyTank(u64),
    Frog(u64),
    Obstacle(u64),
    Wall,
}

impl ShellTarget {
    /// Who wins an exact tie: players, enemies, frogs, obstacles, walls.
    #[verifier::allow_in_spec]
    pub fn rank(self) -> u8
        returns
            (match self {
                ShellTarget::PlayerTank(_) => 0u8,
                ShellTarget::EnemyTank(_) => 1u8,
                ShellTarget::Frog(_) => 2u8,
                ShellTarget::Obstacle(_) => 3u8,
                ShellTarget::Wall => 4u8,
            }),
    {
        match self {
            ShellTarget::PlayerTank(_) => 0u8,
            ShellTarget::EnemyTank(_) => 1u8,
            ShellTarget::Frog(_) => 2u8,
            ShellTarget::Obstacle(_) => 3u8,
            ShellTarget::Wall => 4u8,
        }
    }
}

impl ShellTarget {
    /// A tank, of either side.
    pub open spec fn is_tank(self) -> bool {
        self is PlayerTank || self is EnemyTank
    }
}

/// The nearest hit found so far: entry time, rank and target.
pub type Best = Option<(Scalar, u8, ShellTarget)>;

/// An entry at time `t` with rank `rank` beats `best`: earlier, or as early
/// with a lower rank.
pub open spec fn beats(t: Scalar, rank: u8, best: Best) -> bool {
    match best {
        None => true,
        Some((best_t, best_rank, _)) => t.below(best_t) || (t.same(best_t) && rank < best_rank),
    }
}

/// The best of `best` and one more candidate.
pub open spec fn considered(best: Best, hit: Option<Scalar>, rank: u8, target: ShellTarget) -> Best {
    match hit {
        Some(t) => if beats(t, rank, best) {
            Some((t, rank, target))
        } else {
            best
        },
        None => best,
    }
}

/// Keep `*best` as the candidate with the smallest entry time so far, ties
/// broken by `rank` ascending.
pub fn consider_hit(best: &mut Best, hit: Option<Scalar>, rank: u8, target: ShellTarget)
    ensures
        *final(best) == considered(*old(best), hit, rank, target),
{
    if let Some(t) = hit {
        let better: bool = match best {
            None => true,
            Some(b) => t.lt(b.0) || (t.num_eq(b.0) && rank < b.1),
        };
        if better {
            *best = Some((t, rank, target));
        }
    }
}

/// One box a shot could meet.
#[derive(Clone, Copy, Debug, PartialEq, Eq, Structural)]
pub struct Candidate {
    pub target: ShellTarget,
    /// Whose box it is, if it is a tank's.
    pub owner: Option<Owner>,
    /// A wreck's box: shots pass through it.
    pub wreck: bool,
    /// When the shot enters it, 0 to 1 along its movement, if it does.
    pub enters: Option<Scalar>,
}

impl Candidate {
    /// The shot can strike it: not the shooter's own box, not a wreck's and
    /// not a tile it is flying over.
    pub open spec fn counts(self, shooter: Owner, ignored: Seq<u64>) -> bool {
        self.owner != Some(shooter) && !self.wreck && !(self.target matches ShellTarget::Obstacle(tile)
            && ignored.contains(tile))
    }

    /// When the shot strikes it, if it can.
    pub open spec fn strikes(self, shooter: Owner, ignored: Seq<u64>) -> Option<Scalar> {
        if self.counts(shooter, ignored) {
            self.enters
        } else {
            None
        }
    }
}

/// The nearest of the first `n` candidates.
pub open spec fn nearest(cs: Seq<Candidate>, shooter: Owner, ignored: Seq<u64>, n: int) -> Best
    decreases n,
{
    if n <= 0 {
        None
    } else {
        considered(
            nearest(cs, shooter, ignored, n - 1),
            cs[n - 1].strikes(shooter, ignored),
            cs[n - 1].target.rank(),
            cs[n - 1].target,
        )
    }
}

/// What a shot hits, and when.
pub open spec fn swept(cs: Seq<Candidate>, shooter: Owner, ignored: Seq<u64>) -> Option<
    (ShellTarget, Scalar),
> {
    match nearest(cs, shooter, ignored, cs.len() as int) {
        Some((t, _, target)) => Some((target, t)),
        None => None,
    }
}

fn contains_tile(v: &Vec<u64>, tile: u64) -> (r: bool)
    ensures
        r == v@.contains(tile),
{
    let mut i: usize = 0;
    while i < v.len()
        invariant
            i <= v@.len(),
            forall|j: int| 0 <= j < i ==> v@[j] != tile,
        decreases v@.len() - i,
    {
        if v[i] == tile {
            return true;
        }
        i += 1;
    }
    false
}

fn same_owner(a: Owner, b: Owner) -> (r: bool)
    ensures
        r == (a == b),
{
    match (a, b) {
        (Owner::Player(x), Owner::Player(y)) => x == y,
        (Owner::Enemy(x), Owner::Enemy(y)) => x == y,
        _ => false,
    }
}

/// The first thing a shot hits, flying over the `ignored` tiles. The nearest
/// wins; exact ties go players, enemies, frogs, obstacles, walls. The
/// shooter's own boxes and every wreck's are skipped.
pub fn sweep_ignoring(cs: &Vec<Candidate>, shooter: Owner, ignored: &Vec<u64>) -> (hit: Option<
    (ShellTarget, Scalar),
>)
    ensures
        hit == swept(cs@, shooter, ignored@),
{
    let mut best: Best = None;
    let mut n: usize = 0;
    while n < cs.len()
        invariant
            n <= cs@.len(),
            best == nearest(cs@, shooter, ignored@, n as int),
        decreases cs@.len() - n,
    {
        let c: Candidate = cs[n];
        let own: bool = match c.owner {
            Some(owner) => same_owner(owner, shooter),
            None => false,
        };
        let over: bool = match c.target {
            ShellTarget::Obstacle(tile) => contains_tile(ignored, tile),
            _ => false,
        };
        let hit: Option<Scalar> = if own || c.wreck || over {
            None
        } else {
            c.enters
        };
        consider_hit(&mut best, hit, c.target.rank(), c.target);
        n += 1;
    }
    match best {
        Some(b) => Some((b.2, b.0)),
        None => None,
    }
}

/// The first thing a shot hits.
pub fn sweep(cs: &Vec<Candidate>, shooter: Owner) -> (hit: Option<(ShellTarget, Scalar)>)
    ensures
        hit == swept(cs@, shooter, Seq::<u64>::empty()),
{
    let none: Vec<u64> = Vec::new();
    sweep_ignoring(cs, shooter, &none)
}

proof fn lemma_nearest(cs: Seq<Candidate>, shooter: Owner, ignored: Seq<u64>, n: int)
    requires
        0 <= n <= cs.len(),
        forall|i: int|
            0 <= i < cs.len() ==> ((#[trigger] cs[i]).enters matches Some(t) ==> !t.is_nan()),
    ensures
        nearest(cs, shooter, ignored, n) matches Some((t, rank, target)) ==> !t.is_nan() && (exists|
            i: int,
        |
            0 <= i < n && (#[trigger] cs[i]).strikes(shooter, ignored) == Some(t) && cs[i].target
                == target && target.rank() == rank),
        forall|i: int|
            0 <= i < n ==> ((#[trigger] cs[i]).strikes(shooter, ignored) matches Some(t)
                ==> nearest(cs, shooter, ignored, n) is Some && !beats(
                t,
                cs[i].target.rank(),
                nearest(cs, shooter, ignored, n),
            )),
    decreases n,
{
    if n > 0 {
        lemma_nearest(cs, shooter, ignored, n - 1);
        let before = nearest(cs, shooter, ignored, n - 1);
        let c = cs[n - 1];
        let after = nearest(cs, shooter, ignored, n);
        if after != before {
            assert(cs[n - 1].strikes(shooter, ignored) == Some((after->0).0));
        } else if let Some((t, rank, target)) = before {
            let i = choose|i: int|
                0 <= i < n - 1 && (#[trigger] cs[i]).strikes(shooter, ignored) == Some(t)
                    && cs[i].target == target && target.rank() == rank;
            assert(cs[i].strikes(shooter, ignored) == Some(t));
        }
    }
}

/// The nearest candidate wins whatever order they were measured in: the hit
/// is one of the candidates that count, nothing that counts is nearer or as
/// near with a better rank, and there is no hit only when nothing counts.
pub proof fn the_nearest_hit_wins(cs: Seq<Candidate>, shooter: Owner, ignored: Seq<u64>)
    requires
        forall|i: int|
            0 <= i < cs.len() ==> ((#[trigger] cs[i]).enters matches Some(t) ==> !t.is_nan()),
    ensures
        swept(cs, shooter, ignored) matches Some((target, t)) ==> {
            &&& exists|i: int|
                0 <= i < cs.len() && (#[trigger] cs[i]).strikes(shooter, ignored) == Some(t)
                    && cs[i].target == target
            &&& forall|i: int|
                0 <= i < cs.len() ==> ((#[trigger] cs[i]).strikes(shooter, ignored) matches Some(
                    other,
                ) ==> t.below(other) || (t.same(other) && target.rank() <= cs[i].target.rank()))
        },
        swept(cs, shooter, ignored) is None ==> forall|i: int|
            0 <= i < cs.len() ==> (#[trigger] cs[i]).strikes(shooter, ignored) is None,
{
    lemma_nearest(cs, shooter, ignored, cs.len() as int);
}

/// One obstacle tile's hit box this frame.
#[derive(Clone, Copy, Debug, PartialEq, Eq, Structural)]
pub struct TerrainBox {
    pub entity: u64,
    pub center: Point,
    pub half: Point,
    pub material: Material,
}

impl Material {
    /// Low enough to see over.
    #[verifier::allow_in_spec]
    pub fn sees_over(self) -> bool
        returns
            (self == Material::Sandbag || self == Material::Fence),
    {
        self == Material::Sandbag || self == Material::Fence
    }
}

/// Whether a line between two points is clear, given which boxes and frogs it
/// enters: every obstacle but those low enough to see over blocks it, and so
/// does a frog.
pub fn line_of_sight(boxes: &Vec<TerrainBox>, enters: &Vec<bool>, enters_frog: &Vec<bool>) -> (clear:
    bool)
    requires
        enters@.len() == boxes@.len(),
    ensures
        clear == ((forall|i: int|
            0 <= i < boxes@.len() ==> !(#[trigger] enters@[i] && !boxes@[i].material.sees_over()))
            && (forall|i: int| 0 <= i < enters_frog@.len() ==> !(#[trigger] enters_frog@[i]))),
{
    let mut n: usize = 0;
    while n < boxes.len()
        invariant
            n <= boxes@.len() == enters@.len(),
            forall|i: int|
                0 <= i < n ==> !(#[trigger] enters@[i] && !boxes@[i].material.sees_over()),
        decreases boxes@.len() - n,
    {
        if enters[n] && !boxes[n].material.sees_over() {
            return false;
        }
        n += 1;
    }
    let mut k: usize = 0;
    while k < enters_frog.len()
        invariant
            k <= enters_frog@.len(),
            forall|i: int| 0 <= i < k ==> !(#[trigger] enters_frog@[i]),
        decreases enters_frog@.len() - k,
    {
        if enters_frog[k] {
            return false;
        }
        k += 1;
    }
    true
}

/// The hit box of one obstacle entity, if it is in this snapshot.
pub open spec fn find_box(boxes: Seq<TerrainBox>, entity: u64) -> Option<TerrainBox>
    decreases boxes.len(),
{
    if boxes.len() == 0 {
        None
    } else if boxes[0].entity == entity {
        Some(boxes[0])
    } else {
        find_box(boxes.skip(1), entity)
    }
}

/// The hit box of one obstacle entity, if it is in this snapshot.
pub fn obstacle(boxes: &Vec<TerrainBox>, entity: u64) -> (r: Option<TerrainBox>)
    ensures
        r == find_box(boxes@, entity),
{
    let mut i: usize = 0;
    assert(boxes@.skip(0) =~= boxes@);
    while i < boxes.len()
        invariant
            i <= boxes@.len(),
            find_box(boxes@, entity) == find_box(boxes@.skip(i as int), entity),
        decreases boxes@.len() - i,
    {
        if boxes[i].entity == entity {
            return Some(boxes[i]);
        }
        assert(boxes@.skip(i as int).skip(1) =~= boxes@.skip(i + 1));
        i += 1;
    }
    None
}

/// Which axis a shell reflects on to bounce off a box, given how far outside
/// it was on each just before this frame's motion crossed in: whichever axis
/// it was more clearly outside on is the face that was struck. Returns
/// `(reflect_x, reflect_y)`.
pub fn obstacle_reflect_axis(outside_x: Scalar, outside_y: Scalar) -> (axes: (bool, bool))
    ensures
        axes == (outside_y.below(outside_x), !outside_y.below(outside_x)),
{
    let x: bool = outside_y.lt(outside_x);
    (x, !x)
}

/// How often a shot flies over each material, or bounces off it.
pub struct MaterialOdds {
    pub brick: Odds,
    pub iron: Odds,
    pub wood: Odds,
    pub glass: Odds,
    pub sandbag: Odds,
    pub barrel: Odds,
    pub fence: Odds,
    pub tree: Odds,
    pub pine: Odds,
}

impl MaterialOdds {
    /// A material's chance.
    pub open spec fn chance_of(&self, material: Material) -> Odds {
        match material {
            Material::Brick => self.brick,
            Material::Iron => self.iron,
            Material::Wood => self.wood,
            Material::Glass => self.glass,
            Material::Sandbag => self.sandbag,
            Material::Barrel => self.barrel,
            Material::Fence => self.fence,
            Material::Tree => self.tree,
            Material::Pine => self.pine,
        }
    }

    fn of(&self, material: Material) -> (odds: &Odds)
        ensures
            *odds == self.chance_of(material),
    {
        match material {
            Material::Brick => &self.brick,
            Material::Iron => &self.iron,
            Material::Wood => &self.wood,
            Material::Glass => &self.glass,
            Material::Sandbag => &self.sandbag,
            Material::Barrel => &self.barrel,
            Material::Fence => &self.fence,
            Material::Tree => &self.tree,
            Material::Pine => &self.pine,
        }
    }
}

/// A tile may be flown over: it is in the snapshot and its material has a
/// chance of it.
pub open spec fn may_fly_over(boxes: Seq<TerrainBox>, odds: &MaterialOdds, tile: u64) -> bool {
    find_box(boxes, tile) matches Some(b) && !(odds.chance_of(b.material) is Never)
}

/// A tile is flown over for certain.
pub open spec fn must_fly_over(boxes: Seq<TerrainBox>, odds: &MaterialOdds, tile: u64) -> bool {
    find_box(boxes, tile) matches Some(b) && odds.chance_of(b.material) is Always
}

/// Going from one list of tiles flown over to a longer one: each tile added
/// was what the shot would have hit just then, and could be flown over.
pub open spec fn flown(
    cs: Seq<Candidate>,
    shooter: Owner,
    boxes: Seq<TerrainBox>,
    odds: &MaterialOdds,
    before: Seq<u64>,
    after: Seq<u64>,
) -> bool
    decreases after.len(),
{
    if after.len() <= before.len() {
        after == before
    } else {
        let tile = after.last();
        &&& flown(cs, shooter, boxes, odds, before, after.drop_last())
        &&& swept(cs, shooter, after.drop_last()) matches Some((hit, _)) && hit
            == ShellTarget::Obstacle(tile)
        &&& may_fly_over(boxes, odds, tile)
    }
}

/// How many of the first `n` candidates count.
spec fn counting(cs: Seq<Candidate>, shooter: Owner, ignored: Seq<u64>, n: int) -> nat
    decreases n,
{
    if n <= 0 {
        0
    } else {
        counting(cs, shooter, ignored, n - 1) + (if cs[n - 1].counts(shooter, ignored) {
            1nat
        } else {
            0
        })
    }
}

proof fn lemma_counting(cs: Seq<Candidate>, shooter: Owner, ignored: Seq<u64>, tile: u64, n: int)
    ensures
        counting(cs, shooter, ignored.push(tile), n) <= counting(cs, shooter, ignored, n),
        (exists|i: int|
            0 <= i < n && (#[trigger] cs[i]).counts(shooter, ignored) && cs[i].target
                == ShellTarget::Obstacle(tile)) ==> counting(cs, shooter, ignored.push(tile), n)
            < counting(cs, shooter, ignored, n),
    decreases n,
{
    if n > 0 {
        lemma_counting(cs, shooter, ignored, tile, n - 1);
        let c = cs[n - 1];
        assert(ignored.push(tile)[ignored.len() as int] == tile);
        assert(ignored.push(tile).contains(tile));
        assert(forall|x: u64| ignored.contains(x) ==> #[trigger] ignored.push(tile).contains(x)) by {
            assert forall|x: u64| ignored.contains(x) implies #[trigger] ignored.push(
                tile,
            ).contains(x) by {
                let k = choose|k: int| 0 <= k < ignored.len() && ignored[k] == x;
                assert(ignored.push(tile)[k] == x);
            }
        }
        if exists|i: int|
            0 <= i < n && (#[trigger] cs[i]).counts(shooter, ignored) && cs[i].target
                == ShellTarget::Obstacle(tile) {
            let i = choose|i: int|
                0 <= i < n && (#[trigger] cs[i]).counts(shooter, ignored) && cs[i].target
                    == ShellTarget::Obstacle(tile);
            if i < n - 1 {
                assert(cs[i].counts(shooter, ignored));
            }
        }
    }
}

proof fn lemma_hit_counts(cs: Seq<Candidate>, shooter: Owner, ignored: Seq<u64>, n: int)
    requires
        0 <= n <= cs.len(),
    ensures
        nearest(cs, shooter, ignored, n) matches Some((_, _, target)) ==> exists|i: int|
            0 <= i < n && (#[trigger] cs[i]).counts(shooter, ignored) && cs[i].target == target,
    decreases n,
{
    if n > 0 {
        lemma_hit_counts(cs, shooter, ignored, n - 1);
        let before = nearest(cs, shooter, ignored, n - 1);
        let after = nearest(cs, shooter, ignored, n);
        if after != before {
            assert(cs[n - 1].counts(shooter, ignored));
        } else if before is Some {
            let target = (before->0).2;
            let i = choose|i: int|
                0 <= i < n - 1 && (#[trigger] cs[i]).counts(shooter, ignored) && cs[i].target
                    == target;
            assert(cs[i].counts(shooter, ignored));
        }
    }
}

/// Sweep a shot's movement, and sweep again past any tile it rolls to fly
/// over. Each such tile joins `ignored`, which the projectile remembers, since
/// a movement ending inside the tile would otherwise roll for it again next
/// frame. A tile without a chance draws nothing.
pub fn fly(
    cs: &Vec<Candidate>,
    shooter: Owner,
    boxes: &Vec<TerrainBox>,
    odds: &MaterialOdds,
    ignored: &mut Vec<u64>,
    rng: &mut SmallRng,
) -> (hit: Option<(ShellTarget, Scalar)>)
    ensures
        hit == swept(cs@, shooter, final(ignored)@),
        flown(cs@, shooter, boxes@, odds, old(ignored)@, final(ignored)@),
        !(swept(cs@, shooter, old(ignored)@) matches Some((ShellTarget::Obstacle(tile), _))
            && may_fly_over(boxes@, odds, tile)) ==> final(ignored)@ == old(ignored)@ && *final(rng)
            == *old(rng),
        !(hit matches Some((ShellTarget::Obstacle(tile), _)) && must_fly_over(boxes@, odds, tile)),
{
    let mut first: bool = true;
    loop
        invariant
            flown(cs@, shooter, boxes@, odds, old(ignored)@, ignored@),
            old(ignored)@.len() <= ignored@.len(),
            first ==> ignored@ == old(ignored)@ && *rng == *old(rng),
            !first ==> (swept(cs@, shooter, old(ignored)@) matches Some(
                (ShellTarget::Obstacle(tile), _),
            ) && may_fly_over(boxes@, odds, tile)),
        decreases counting(cs@, shooter, ignored@, cs@.len() as int),
    {
        let hit: Option<(ShellTarget, Scalar)> = sweep_ignoring(cs, shooter, ignored);
        if let Some((ShellTarget::Obstacle(tile), _)) = hit {
            if let Some(b) = obstacle(boxes, tile) {
                if chance(rng, odds.of(b.material)) {
                    proof {
                        lemma_hit_counts(cs@, shooter, ignored@, cs@.len() as int);
                        lemma_counting(cs@, shooter, ignored@, tile, cs@.len() as int);
                        assert(ignored@.push(tile).drop_last() =~= ignored@);
                    }
                    ignored.push(tile);
                    first = false;
                    continue;
                }
            }
        }
        return hit;
    }
}

/// What a landed shot does.
#[derive(Clone, Copy, Debug, PartialEq, Eq, Structural)]
pub enum Impact {
    /// A shield throws it back, and it becomes the shielded tank's.
    Deflected(Owner),
    /// It bounces and flies on.
    Ricochet,
    /// It bursts where it struck.
    Burst,
}

/// How one projectile bounces.
#[derive(Clone, Copy, Debug, PartialEq, Eq, Structural)]
pub struct Bounce {
    /// Its own rule bounces it off what it struck.
    pub ricochets: bool,
    /// It can be deflected by chance.
    pub can_bounce: bool,
}

/// The material of the tile a shot struck.
pub open spec fn struck_material(boxes: Seq<TerrainBox>, target: ShellTarget) -> Option<Material> {
    match target {
        ShellTarget::Obstacle(tile) => match find_box(boxes, tile) {
            Some(b) => Some(b.material),
            None => None,
        },
        _ => None,
    }
}

/// The bounce rests on a coin: a tile whose material has a chance of it, and a
/// projectile that can but does not bounce by its own rule.
pub open spec fn bounce_open(
    target: ShellTarget,
    boxes: Seq<TerrainBox>,
    bounce: Bounce,
    odds: &MaterialOdds,
) -> bool {
    struck_material(boxes, target) matches Some(m) && !bounce.ricochets && bounce.can_bounce
        && !(odds.chance_of(m) is Never)
}

/// What a landed shot may do: a shielded tank throws it back, a tile bounces it
/// by the projectile's own rule or, if the coin is open, by chance, and
/// otherwise it bursts.
pub open spec fn may_impact(
    target: ShellTarget,
    shield: Option<Owner>,
    boxes: Seq<TerrainBox>,
    bounce: Bounce,
    odds: &MaterialOdds,
    r: Impact,
) -> bool {
    if target.is_tank() {
        r == (match shield {
            Some(owner) => Impact::Deflected(owner),
            None => Impact::Burst,
        })
    } else if struck_material(boxes, target) is Some && bounce.ricochets {
        r == Impact::Ricochet
    } else if bounce_open(target, boxes, bounce, odds) {
        r == Impact::Ricochet || (r == Impact::Burst && !(odds.chance_of(
            struck_material(boxes, target)->0,
        ) is Always))
    } else {
        r == Impact::Burst
    }
}

/// What a landed shot does. `shield` is whose shield it struck. Draws only
/// where chance decides.
pub fn impact(
    target: ShellTarget,
    shield: Option<Owner>,
    boxes: &Vec<TerrainBox>,
    bounce: Bounce,
    odds: &MaterialOdds,
    rng: &mut SmallRng,
) -> (r: Impact)
    ensures
        may_impact(target, shield, boxes@, bounce, odds, r),
        !bounce_open(target, boxes@, bounce, odds) ==> *final(rng) == *old(rng),
{
    match target {
        ShellTarget::PlayerTank(_) | ShellTarget::EnemyTank(_) => match shield {
            Some(owner) => Impact::Deflected(owner),
            None => Impact::Burst,
        },
        ShellTarget::Obstacle(tile) => match obstacle(boxes, tile) {
            Some(b) => if bounce.ricochets {
                Impact::Ricochet
            } else if bounce.can_bounce && chance(rng, odds.of(b.material)) {
                Impact::Ricochet
            } else {
                Impact::Burst
            },
            None => Impact::Burst,
        },
        _ => Impact::Burst,
    }
}

/// What a landed shot leaves in the record where it does not burst: whose
/// shield threw it back, or whose shot it is that flies on and along what
/// heading.
pub open spec fn impact_event(impact: Impact, shooter: Owner, at: Point, heading: Scalar) -> Option<
    Event,
> {
    match impact {
        Impact::Deflected(owner) => Some(
            Event::Deflected { slot: owner.round_slot(), x: at.x, y: at.y },
        ),
        Impact::Ricochet => Some(
            Event::Ricochet { slot: shooter.round_slot(), x: at.x, y: at.y, heading },
        ),
        Impact::Burst => None,
    }
}

/// Record a landed shot. Returns whether its hit is still to be applied: only
/// a burst hurts anything, and only while the round is live.
pub fn record_impact(
    f: &mut Frame,
    impact: Impact,
    shooter: Owner,
    at: Point,
    heading: Scalar,
    live: bool,
) -> (applies: bool)
    ensures
        applies == (live && impact == Impact::Burst),
        final(f)@ == (match impact_event(impact, shooter, at, heading) {
            Some(event) => old(f)@.with_event(event),
            None => old(f)@,
        }),
{
    match impact {
        Impact::Deflected(owner) => {
            f.record(Event::Deflected { slot: owner.slot(), x: at.x, y: at.y });
            false
        },
        Impact::Ricochet => {
            f.record(Event::Ricochet { slot: shooter.slot(), x: at.x, y: at.y, heading });
            false
        },
        Impact::Burst => live,
    }
}

/// What a shot strikes, in so many words: something it enters that is not its
/// shooter's own, no wreck's and no tile it flies over; nothing such is entered
/// earlier, and at the same instant a player's tank comes before an enemy's, an
/// enemy's before a frog, a frog before a tile and a tile before a wall. It
/// strikes nothing only when there is nothing such.
pub proof fn a_shot_strikes_what_it_meets_first(
    cs: Seq<Candidate>,
    shooter: Owner,
    ignored: Seq<u64>,
    i: int,
)
    requires
        forall|k: int|
            0 <= k < cs.len() ==> ((#[trigger] cs[k]).enters matches Some(t) ==> !t.is_nan()),
        0 <= i < cs.len(),
        cs[i].enters is Some,
        cs[i].owner != Some(shooter),
        !cs[i].wreck,
        !(cs[i].target is Obstacle && ignored.contains(cs[i].target->Obstacle_0)),
    ensures
        swept(cs, shooter, ignored) is Some,
        ({
            let (target, t) = swept(cs, shooter, ignored)->0;
            &&& !cs[i].enters->0.below(t)
            &&& cs[i].enters->0.same(t) ==> {
                &&& cs[i].target is PlayerTank ==> target is PlayerTank
                &&& cs[i].target is EnemyTank ==> target is PlayerTank || target is EnemyTank
                &&& cs[i].target is Frog ==> !(target is Obstacle) && !(target is Wall)
                &&& cs[i].target is Obstacle ==> !(target is Wall)
            }
            &&& exists|k: int|
                0 <= k < cs.len() && (#[trigger] cs[k]).target == target && cs[k].enters == Some(t)
                    && cs[k].owner != Some(shooter) && !cs[k].wreck && !(cs[k].target is Obstacle
                    && ignored.contains(cs[k].target->Obstacle_0))
        }),
{
    the_nearest_hit_wins(cs, shooter, ignored);
    assert(cs[i].strikes(shooter, ignored) == cs[i].enters);
    let (target, t) = swept(cs, shooter, ignored)->0;
    let k = choose|k: int|
        0 <= k < cs.len() && (#[trigger] cs[k]).strikes(shooter, ignored) == Some(t)
            && cs[k].target == target;
    assert(cs[k].counts(shooter, ignored));
}

/// What a landed shot does. A tank with its shield up throws it back and owns it
/// from there; any other tank, a frog and a wall stop it. A tile bounces it by
/// the shot's own rule, or by a chance that is certain, and else stops it unless
/// the chance is open.
pub proof fn an_impact_by_what_was_struck(
    target: ShellTarget,
    shield: Option<Owner>,
    boxes: Seq<TerrainBox>,
    bounce: Bounce,
    odds: &MaterialOdds,
    r: Impact,
)
    requires
        may_impact(target, shield, boxes, bounce, odds, r),
    ensures
        (target is PlayerTank || target is EnemyTank) && shield is Some ==> r == (
        Impact::Deflected(shield->0)),
        (target is PlayerTank || target is EnemyTank) && shield is None ==> r is Burst,
        target is Frog || target is Wall ==> r is Burst,
        target matches ShellTarget::Obstacle(e) ==> {
            let found = find_box(boxes, e);
            &&& !(r is Deflected)
            &&& found is Some && bounce.ricochets ==> r is Ricochet
            &&& found is Some && bounce.can_bounce && odds.chance_of(found->0.material) is Always
                ==> r is Ricochet
            &&& !bounce.ricochets && !bounce.can_bounce ==> r is Burst
            &&& found is Some && !bounce.ricochets && odds.chance_of(found->0.material) is Never
                ==> r is Burst
        },
{
}

/// A tile's box is found when it is in the snapshot, and only its own.
pub proof fn a_tile_in_the_snapshot_is_found(boxes: Seq<TerrainBox>, entity: u64)
    ensures
        match find_box(boxes, entity) {
            Some(b) => b.entity == entity && boxes.contains(b),
            None => forall|i: int| 0 <= i < boxes.len() ==> (#[trigger] boxes[i]).entity != entity,
        },
    decreases boxes.len(),
{
    if boxes.len() > 0 && boxes[0].entity != entity {
        let rest = boxes.skip(1);
        a_tile_in_the_snapshot_is_found(rest, entity);
        match find_box(rest, entity) {
            Some(b) => {
                let k = choose|k: int| 0 <= k < rest.len() && rest[k] == b;
                assert(boxes[k + 1] == b);
            },
            None => {
                assert forall|i: int| 0 <= i < boxes.len() implies (
                #[trigger] boxes[i]).entity != entity by {
                    if i > 0 {
                        assert(rest[i - 1] == boxes[i]);
                    }
                }
            },
        }
    }
}

/// Each material has the chance that is its own.
pub proof fn each_material_has_its_own_chance(odds: &MaterialOdds)
    ensures
        odds.chance_of(Material::Brick) == odds.brick,
        odds.chance_of(Material::Iron) == odds.iron,
        odds.chance_of(Material::Wood) == odds.wood,
        odds.chance_of(Material::Glass) == odds.glass,
        odds.chance_of(Material::Sandbag) == odds.sandbag,
        odds.chance_of(Material::Barrel) == odds.barrel,
        odds.chance_of(Material::Fence) == odds.fence,
        odds.chance_of(Material::Tree) == odds.tree,
        odds.chance_of(Material::Pine) == odds.pine,
{
}

/// A shot thrown back is told under the slot whose shield it was, one that
/// bounces under its own shooter's; a burst tells nothing of its own.
pub proof fn a_bounce_is_told(impact: Impact, shooter: Owner, at: Point, heading: Scalar)
    ensures
        impact is Burst ==> impact_event(impact, shooter, at, heading) is None,
        impact matches Impact::Deflected(owner) ==> impact_event(impact, shooter, at, heading)
            == Some(Event::Deflected { slot: owner.round_slot(), x: at.x, y: at.y }),
        impact is Ricochet ==> impact_event(impact, shooter, at, heading) == Some(
            Event::Ricochet { slot: shooter.round_slot(), x: at.x, y: at.y, heading },
        ),
{
}

/// A shot flies over a tile only when it is in the snapshot and its material
/// leaves a chance for it, and for certain where that chance is certain; what
/// is low enough to see over is a sandbag or a fence.
pub proof fn only_what_has_a_chance_is_flown_over(
    boxes: Seq<TerrainBox>,
    odds: &MaterialOdds,
    tile: u64,
    m: Material,
)
    ensures
        find_box(boxes, tile) is None ==> !may_fly_over(boxes, odds, tile) && !must_fly_over(
            boxes,
            odds,
            tile,
        ),
        find_box(boxes, tile) matches Some(b) ==> {
            &&& odds.chance_of(b.material) is Never ==> !may_fly_over(boxes, odds, tile)
            &&& !(odds.chance_of(b.material) is Never) ==> may_fly_over(boxes, odds, tile)
            &&& odds.chance_of(b.material) is Always ==> must_fly_over(boxes, odds, tile)
            &&& !(odds.chance_of(b.material) is Always) ==> !must_fly_over(boxes, odds, tile)
        },
        m.sees_over() <==> m is Sandbag || m is Fence,
{
}

} // verus!
