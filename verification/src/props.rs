//! The destructible props' rules: how each material takes damage, what a dead
//! tile leaves behind, fuses and the drums they launch, fires on the ground
//! and what they spread to, and tanks pushing into things.

use rand::distr::Bernoulli;
use rand::rngs::SmallRng;
use vstd::prelude::*;

use crate::dice::{chance, toss, Odds};
use crate::event::Event;
use crate::frame::{BlastShape, Frame, PendingBlast, Record, Rubble};
use crate::kinds::{Cell, Drum, Material};
use crate::pieces::{Fuse, Tile};
use crate::scalar::{Point, Scalar};

verus! {

/// What is damaging a tile.
#[derive(Clone, Copy, Debug, PartialEq, Eq, Structural)]
pub enum DamageCause {
    /// A projectile, travelling along `dir` when known.
    Shot { dir: Option<Point> },
    Ram,
    /// A blast: how much of it reaches the tile, and where it was.
    Blast { falloff: Scalar, from: Point },
    /// Sustained heat.
    Fire,
}

/// What the host worked out about one blow before the rules see it.
#[derive(Clone, Copy, Debug, PartialEq, Eq, Structural)]
pub struct Blow {
    /// The tile as plain damage leaves it, and whether that kills it.
    pub worn: Tile,
    pub worn_out: bool,
    /// The fuse a blast would light on it, wherever that came from.
    pub fuse: Fuse,
    /// Half its full health.
    pub half_health: Scalar,
    /// The face it came at, as a wall keeps its soot.
    pub face: u8,
}

/// No health left.
pub open spec fn killed(tile: Tile) -> Tile {
    Tile { health: Scalar::zero(), destroyed: true, ..tile }
}

/// On a fuse: no health left, but not gone yet.
pub open spec fn fused(tile: Tile, fuse: Fuse) -> Tile {
    Tile { health: Scalar::zero(), fuse: Some(fuse), ..tile }
}

/// A fence that has never been hit.
pub open spec fn pristine_fence(tile: Tile) -> bool {
    tile.material == Material::Fence && tile.max_health.at_most(tile.health)
}

/// A blow's outcome rests on a coin: only a pristine fence's does, and not when
/// it burns down.
pub open spec fn coin_decides(tile: Tile, cause: DamageCause) -> bool {
    !tile.spent() && pristine_fence(tile) && !(cause is Fire)
}

/// The tile as plain damage leaves it; one that is worn out is gone.
pub open spec fn worn_down(b: Blow) -> Tile {
    Tile { destroyed: b.worn.destroyed || b.worn_out, ..b.worn }
}

/// What a blow does to a tile, given the coin a pristine fence tosses. A fence
/// does not care how hard it is hit: a pristine one dies outright on heads,
/// else it drops to its damaged stage, and a damaged one dies; fire takes it
/// outright. A barrel in a blast goes on a fuse. A tree shouldered over dies
/// outright. Everything else wears down, and is gone once it is worn out.
pub open spec fn blow(tile: Tile, b: Blow, cause: DamageCause, heads: bool) -> (Tile, bool) {
    if tile.spent() {
        (tile, false)
    } else if tile.material == Material::Fence {
        if pristine_fence(tile) && !heads && !(cause is Fire) {
            (Tile { health: b.half_health, ..tile }, false)
        } else {
            (killed(tile), true)
        }
    } else if tile.material == Material::Barrel && cause is Blast {
        (fused(tile, Fuse { from: Some(cause->from), ..b.fuse }), false)
    } else if tile.material.is_tree() && cause == DamageCause::Ram {
        (killed(tile), true)
    } else {
        (worn_down(b), b.worn_out)
    }
}

/// A tile once it has died of a blow is gone, so no later blow kills it again.
pub proof fn a_tile_dies_only_once(
    tile: Tile,
    b: Blow,
    cause: DamageCause,
    heads: bool,
    again: Blow,
    later: DamageCause,
    coin: bool,
)
    requires
        blow(tile, b, cause, heads).1,
    ensures
        blow(tile, b, cause, heads).0.destroyed,
        blow(blow(tile, b, cause, heads).0, again, later, coin) == (
            blow(tile, b, cause, heads).0,
            false,
        ),
        !coin_decides(blow(tile, b, cause, heads).0, later),
{
}

/// A barrel caught in a blast never dies of it on the spot: it goes on a fuse,
/// whatever was rolled, and remembers what lit it.
pub proof fn a_barrel_in_a_blast_goes_on_a_fuse(
    tile: Tile,
    b: Blow,
    falloff: Scalar,
    from: Point,
    heads: bool,
)
    requires
        tile.material == Material::Barrel,
        !tile.spent(),
    ensures
        blow(tile, b, DamageCause::Blast { falloff, from }, heads) == (
            fused(tile, Fuse { from: Some(from), ..b.fuse }),
            false,
        ),
{
}

/// Apply a blow to a tile. Returns the tile afterwards and whether it died
/// this instant. Draws only for a pristine fence, and not for fire.
pub fn damage_obstacle(
    tile: Tile,
    b: &Blow,
    cause: DamageCause,
    one_shot: &Bernoulli,
    rng: &mut SmallRng,
) -> (r: (Tile, bool))
    ensures
        coin_decides(tile, cause) ==> r == blow(tile, *b, cause, true) || r == blow(
            tile,
            *b,
            cause,
            false,
        ),
        !coin_decides(tile, cause) ==> r == blow(tile, *b, cause, false) && *final(rng) == *old(rng),
{
    if tile.destroyed || tile.burning || tile.fuse.is_some() {
        return (tile, false);
    }
    let mut tile: Tile = tile;
    if tile.material == Material::Fence {
        let pristine: bool = tile.max_health.le(tile.health);
        if pristine && !matches!(cause, DamageCause::Fire) && !toss(rng, one_shot) {
            tile.health = b.half_health;
            return (tile, false);
        }
        tile.health = Scalar::zero();
        tile.destroyed = true;
        return (tile, true);
    }
    if tile.material == Material::Barrel {
        if let DamageCause::Blast { from, .. } = cause {
            tile.health = Scalar::zero();
            tile.fuse = Some(Fuse { from: Some(from), ..b.fuse });
            return (tile, false);
        }
    }
    if tile.material.is_tree() && matches!(cause, DamageCause::Ram) {
        tile.health = Scalar::zero();
        tile.destroyed = true;
        return (tile, true);
    }
    let mut worn: Tile = b.worn;
    worn.destroyed = b.worn.destroyed || b.worn_out;
    (worn, b.worn_out)
}

/// A tile that just died.
#[derive(Clone, Copy, Debug, PartialEq, Eq, Structural)]
pub struct DeadTile {
    pub material: Material,
    pub drum: Drum,
    pub position: Point,
    /// Another blast or a fire set it off, rather than a shot or a ram.
    pub chained: bool,
    /// It burnt out rather than breaking.
    pub charred: bool,
    /// What its blast looks like, for a barrel.
    pub shape: BlastShape,
}

/// What a blow's cause makes of a barrel's blast.
#[verifier::allow_in_spec]
pub fn shape_of(cause: DamageCause) -> BlastShape
    returns
        (match cause {
            DamageCause::Shot { dir: Some(dir) } => BlastShape::Shot { dir },
            DamageCause::Shot { dir: None } => BlastShape::Plain,
            DamageCause::Ram => BlastShape::Ram,
            DamageCause::Blast { .. } => BlastShape::Plain,
            DamageCause::Fire => BlastShape::Plain,
        }),
{
    match cause {
        DamageCause::Shot { dir: Some(dir) } => BlastShape::Shot { dir },
        DamageCause::Shot { dir: None } => BlastShape::Plain,
        DamageCause::Ram => BlastShape::Ram,
        DamageCause::Blast { .. } => BlastShape::Plain,
        DamageCause::Fire => BlastShape::Plain,
    }
}

/// What a death adds to the frame: it is announced; a barrel queues its blast
/// and everything else drops its rubble in place.
pub open spec fn mourned(f: Record, tile: DeadTile) -> Record {
    let (x, y) = (tile.position.x, tile.position.y);
    let f = f.with_event(Event::ObstacleDestroyed { material: tile.material, x, y });
    if tile.material.is_explosive() {
        let f = f.with_event(
            Event::Blast { x, y, chained: tile.chained, drum: tile.drum },
        );
        Record {
            pending_blasts: f.pending_blasts.push(
                PendingBlast { center: tile.position, drum: tile.drum, shape: tile.shape },
            ),
            ..f
        }
    } else if tile.material == Material::Iron {
        f
    } else {
        Record {
            rubble: f.rubble.push(
                Rubble { material: tile.material, at: tile.position, charred: tile.charred },
            ),
            ..f
        }
    }
}

/// Record a tile's death and leave its rubble behind, where it has any: iron
/// has none. An explosive one queues its blast. Every tile death comes through
/// here.
pub fn obstacle_died(f: &mut Frame, tile: DeadTile)
    ensures
        final(f)@ == mourned(old(f)@, tile),
{
    let x: Scalar = tile.position.x;
    let y: Scalar = tile.position.y;
    f.record(Event::ObstacleDestroyed { material: tile.material, x, y });
    if tile.material.is_explosive() {
        f.record(Event::Blast { x, y, chained: tile.chained, drum: tile.drum });
        f.pending_blasts.push(
            PendingBlast { center: tile.position, drum: tile.drum, shape: tile.shape },
        );
    } else if tile.material != Material::Iron {
        f.rubble.push(
            Rubble { material: tile.material, at: tile.position, charred: tile.charred },
        );
    }
}

/// A cell of ground on fire: a drum's pool or a lit trail cell.
#[derive(Clone, Copy, Debug, PartialEq, Eq, Structural)]
pub struct GroundFire {
    pub cell: Cell,
    /// Seconds of burning left.
    pub left: Scalar,
    /// How long it burns in total.
    pub total: Scalar,
    /// Round time at which this fire spreads to its oil-trail neighbours,
    /// none once it has.
    pub spread_at: Option<Scalar>,
    /// From a drum's pool rather than a painted trail cell.
    pub pool: bool,
}

/// The four orthogonal neighbours of a grid cell.
pub open spec fn beside(cell: Cell) -> Seq<Cell> {
    seq![
        Cell { col: (cell.col + 1) as i32, row: cell.row },
        Cell { col: (cell.col - 1) as i32, row: cell.row },
        Cell { col: cell.col, row: (cell.row + 1) as i32 },
        Cell { col: cell.col, row: (cell.row - 1) as i32 },
    ]
}

/// The four orthogonal neighbours of a grid cell.
pub fn neighbours(cell: Cell) -> (n: [Cell; 4])
    requires
        cell.interior(),
    ensures
        n@ == beside(cell),
{
    let n: [Cell; 4] = [
        Cell { col: cell.col + 1, row: cell.row },
        Cell { col: cell.col - 1, row: cell.row },
        Cell { col: cell.col, row: cell.row + 1 },
        Cell { col: cell.col, row: cell.row - 1 },
    ];
    assert(n@ =~= beside(cell));
    n
}

/// A cell is on fire.
pub open spec fn alight(fires: Seq<GroundFire>, cell: Cell) -> bool {
    exists|i: int| 0 <= i < fires.len() && (#[trigger] fires[i]).cell == cell
}

/// How a cell is to be lit.
#[derive(Clone, Copy, Debug, PartialEq, Eq, Structural)]
pub struct Spark {
    pub cell: Cell,
    /// The cell's centre.
    pub at: Point,
    /// The centre lies on the field.
    pub on_field: bool,
    /// Water stands in the cell.
    pub wet: bool,
    pub seconds: Scalar,
    pub spread_at: Scalar,
    pub pool: bool,
}

/// Fires and frame after a spark: a cell already alight, off the field or under
/// water stays as it was, any other starts burning and says so.
pub open spec fn lit(fires: Seq<GroundFire>, f: Record, spark: Spark) -> (Seq<GroundFire>, Record) {
    if alight(fires, spark.cell) || !spark.on_field || spark.wet {
        (fires, f)
    } else {
        (
            fires.push(
                GroundFire {
                    cell: spark.cell,
                    left: spark.seconds,
                    total: spark.seconds,
                    spread_at: Some(spark.spread_at),
                    pool: spark.pool,
                },
            ),
            f.with_event(
                Event::FireStarted { x: spark.at.x, y: spark.at.y, pool: spark.pool },
            ),
        )
    }
}

pub(crate) fn is_alight(fires: &Vec<GroundFire>, cell: Cell) -> (r: bool)
    ensures
        r == alight(fires@, cell),
{
    let mut i: usize = 0;
    while i < fires.len()
        invariant
            i <= fires@.len(),
            forall|j: int| 0 <= j < i ==> (#[trigger] fires@[j]).cell != cell,
        decreases fires@.len() - i,
    {
        if fires[i].cell == cell {
            return true;
        }
        i += 1;
    }
    false
}

/// Set a ground cell on fire, unless it already is. Water takes no fire.
pub fn light_cell(fires: &mut Vec<GroundFire>, f: &mut Frame, spark: Spark)
    ensures
        (final(fires)@, final(f)@) == lit(old(fires)@, old(f)@, spark),
{
    if is_alight(fires, spark.cell) || !spark.on_field || spark.wet {
        return;
    }
    fires.push(
        GroundFire {
            cell: spark.cell,
            left: spark.seconds,
            total: spark.seconds,
            spread_at: Some(spark.spread_at),
            pool: spark.pool,
        },
    );
    f.record(Event::FireStarted { x: spark.at.x, y: spark.at.y, pool: spark.pool });
}

/// No cell burns twice at once.
pub open spec fn one_fire_per_cell(fires: Seq<GroundFire>) -> bool {
    forall|i: int, j: int|
        0 <= i < j < fires.len() ==> (#[trigger] fires[i]).cell != (#[trigger] fires[j]).cell
}

/// Lighting keeps to one fire per cell.
pub proof fn a_cell_never_burns_twice(fires: Seq<GroundFire>, f: Record, spark: Spark)
    requires
        one_fire_per_cell(fires),
    ensures
        one_fire_per_cell(lit(fires, f, spark).0),
{
    let after = lit(fires, f, spark).0;
    assert forall|i: int, j: int| 0 <= i < j < after.len() implies (#[trigger] after[i]).cell != (
    #[trigger] after[j]).cell by {
        if j == fires.len() {
            assert(fires[i].cell != spark.cell);
        }
    }
}

/// The fire is due to spread.
pub open spec fn due(fire: GroundFire, now: Scalar) -> bool {
    fire.spread_at matches Some(at) && at.at_most(now)
}

/// A fire once this frame's time has passed.
pub open spec fn burnt(fire: GroundFire, left: Scalar, now: Scalar) -> GroundFire {
    GroundFire {
        left,
        spread_at: if due(fire, now) {
            None
        } else {
            fire.spread_at
        },
        ..fire
    }
}

/// The first `k` neighbours of a cell that hold oil.
pub open spec fn oily(cell: Cell, oil: Seq<Cell>, k: int) -> Seq<Cell>
    decreases k,
{
    if k <= 0 {
        Seq::empty()
    } else if oil.contains(beside(cell)[k - 1]) {
        oily(cell, oil, k - 1).push(beside(cell)[k - 1])
    } else {
        oily(cell, oil, k - 1)
    }
}

/// Where the first `n` fires spread to: the oily neighbours of those due.
pub open spec fn spread(fires: Seq<GroundFire>, oil: Seq<Cell>, now: Scalar, n: int) -> Seq<Cell>
    decreases n,
{
    if n <= 0 {
        Seq::empty()
    } else if due(fires[n - 1], now) {
        spread(fires, oil, now, n - 1) + oily(fires[n - 1].cell, oil, 4)
    } else {
        spread(fires, oil, now, n - 1)
    }
}

/// Every burning cell has a neighbour on every side.
pub open spec fn fires_inside(fires: Seq<GroundFire>) -> bool {
    forall|i: int| 0 <= i < fires.len() ==> (#[trigger] fires[i]).cell.interior()
}

fn contains_cell(v: &Vec<Cell>, cell: Cell) -> (r: bool)
    ensures
        r == v@.contains(cell),
{
    let mut i: usize = 0;
    while i < v.len()
        invariant
            i <= v@.len(),
            forall|j: int| 0 <= j < i ==> v@[j] != cell,
        decreases v@.len() - i,
    {
        if v[i] == cell {
            return true;
        }
        i += 1;
    }
    false
}

/// Burn every fire down to the time it has left and find where the ones that
/// are due spread to. A fire spreads once, so a lit trail is a wave that
/// advances one cell at a time.
pub fn burn_down(
    fires: &mut Vec<GroundFire>,
    oil: &Vec<Cell>,
    lefts: &Vec<Scalar>,
    now: Scalar,
) -> (to: Vec<Cell>)
    requires
        lefts@.len() == old(fires)@.len(),
        fires_inside(old(fires)@),
    ensures
        final(fires)@ == Seq::new(
            old(fires)@.len(),
            |i: int| burnt(old(fires)@[i], lefts@[i], now),
        ),
        to@ == spread(old(fires)@, oil@, now, old(fires)@.len() as int),
        forall|c: Cell| #[trigger]
            to@.contains(c) <==> exists|i: int|
                0 <= i < old(fires)@.len() && spreads_to(#[trigger] old(fires)@[i], oil@, now, c),
        fires_inside(final(fires)@),
{
    let ghost before = fires@;
    let mut to: Vec<Cell> = Vec::new();
    let mut n: usize = 0;
    while n < fires.len()
        invariant
            n <= fires@.len() == before.len() == lefts@.len(),
            fires_inside(before),
            to@ == spread(before, oil@, now, n as int),
            forall|i: int|
                0 <= i < n ==> #[trigger] fires@[i] == burnt(before[i], lefts@[i], now),
            forall|i: int| n <= i < before.len() ==> #[trigger] fires@[i] == before[i],
        decreases before.len() - n,
    {
        let mut fire: GroundFire = fires[n];
        assert(before[n as int].cell.interior());
        fire.left = lefts[n];
        let is_due: bool = match fire.spread_at {
            Some(at) => at.le(now),
            None => false,
        };
        let ghost so_far = to@;
        if is_due {
            fire.spread_at = None;
            let around: [Cell; 4] = neighbours(fire.cell);
            let mut k: usize = 0;
            assert(so_far + Seq::<Cell>::empty() =~= so_far);
            while k < 4
                invariant
                    k <= 4,
                    around@ == beside(fire.cell),
                    to@ == so_far + oily(fire.cell, oil@, k as int),
                decreases 4 - k,
            {
                if contains_cell(oil, around[k]) {
                    to.push(around[k]);
                }
                k += 1;
                assert(to@ =~= so_far + oily(fire.cell, oil@, k as int));
            }
        }
        fires.set(n, fire);
        n += 1;
    }
    assert(fires@ =~= Seq::new(before.len(), |i: int| burnt(before[i], lefts@[i], now)));
    assert forall|i: int| 0 <= i < fires@.len() implies (#[trigger] fires@[i]).cell.interior() by {
        assert(before[i].cell.interior());
    }
    assert forall|c: Cell| #[trigger] to@.contains(c) <==> exists|i: int|
        0 <= i < before.len() && spreads_to(#[trigger] before[i], oil@, now, c) by {
        a_due_fire_spreads_along_its_trail(before, oil@, now, c);
    }
    to
}

/// Fires and frame after the first `n` sparks.
pub open spec fn all_lit(
    fires: Seq<GroundFire>,
    f: Record,
    sparks: Seq<Spark>,
    n: int,
) -> (Seq<GroundFire>, Record)
    decreases n,
{
    if n <= 0 {
        (fires, f)
    } else {
        let (fires, f) = all_lit(fires, f, sparks, n - 1);
        lit(fires, f, sparks[n - 1])
    }
}

/// Light several cells in turn.
pub fn light_cells(fires: &mut Vec<GroundFire>, f: &mut Frame, sparks: &Vec<Spark>)
    ensures
        (final(fires)@, final(f)@) == all_lit(
            old(fires)@,
            old(f)@,
            sparks@,
            sparks@.len() as int,
        ),
{
    let mut n: usize = 0;
    while n < sparks.len()
        invariant
            n <= sparks@.len(),
            (fires@, f@) == all_lit(old(fires)@, old(f)@, sparks@, n as int),
        decreases sparks@.len() - n,
    {
        light_cell(fires, f, sparks[n]);
        n += 1;
    }
}

/// The cells of the first `n` fires still burning.
pub open spec fn still_burning(fires: Seq<GroundFire>, n: int) -> Seq<Cell>
    decreases n,
{
    if n <= 0 {
        Seq::empty()
    } else if Scalar::zero().below(fires[n - 1].left) {
        still_burning(fires, n - 1).push(fires[n - 1].cell)
    } else {
        still_burning(fires, n - 1)
    }
}

/// The cells still burning.
pub fn burning_cells(fires: &Vec<GroundFire>) -> (cells: Vec<Cell>)
    ensures
        cells@ == still_burning(fires@, fires@.len() as int),
{
    let mut cells: Vec<Cell> = Vec::new();
    let mut n: usize = 0;
    while n < fires.len()
        invariant
            n <= fires@.len(),
            cells@ == still_burning(fires@, n as int),
        decreases fires@.len() - n,
    {
        if fires[n].left.positive() {
            cells.push(fires[n].cell);
        }
        n += 1;
    }
    cells
}

/// The same cell, or side by side.
pub open spec fn touches(a: Cell, b: Cell) -> bool {
    let (dc, dr) = (a.col - b.col, a.row - b.row);
    (dc == 0 && -1 <= dr <= 1) || (dr == 0 && -1 <= dc <= 1)
}

/// The first burning cell that reaches `cell`.
pub open spec fn source_of(burning: Seq<Cell>, cell: Cell) -> Option<Cell>
    decreases burning.len(),
{
    if burning.len() == 0 {
        None
    } else if touches(burning[0], cell) {
        Some(burning[0])
    } else {
        source_of(burning.skip(1), cell)
    }
}

/// What sets a tile alight: the first burning cell under or beside it.
pub fn fire_source(burning: &Vec<Cell>, cell: Cell) -> (r: Option<Cell>)
    ensures
        r == source_of(burning@, cell),
{
    let mut i: usize = 0;
    assert(burning@.skip(0) =~= burning@);
    while i < burning.len()
        invariant
            i <= burning@.len(),
            source_of(burning@, cell) == source_of(burning@.skip(i as int), cell),
        decreases burning@.len() - i,
    {
        let b: Cell = burning[i];
        let dc: i64 = b.col as i64 - cell.col as i64;
        let dr: i64 = b.row as i64 - cell.row as i64;
        if (dc == 0 && -1 <= dr && dr <= 1) || (dr == 0 && -1 <= dc && dc <= 1) {
            return Some(b);
        }
        assert(burning@.skip(i as int).skip(1) =~= burning@.skip(i + 1));
        i += 1;
    }
    None
}

/// A tile beside a fire: a drum goes on a fuse, a flammable tile catches.
pub open spec fn caught(tile: Tile, near_fire: bool, fuse: Fuse) -> Tile {
    if tile.spent() || !near_fire {
        tile
    } else if tile.material.is_explosive() {
        fused(tile, fuse)
    } else if tile.flammable {
        Tile { health: Scalar::zero(), burning: true, ..tile }
    } else {
        tile
    }
}

/// Let a fire at a tile; `fuse` is what it would light on a drum.
pub fn catch_fire(tile: Tile, near_fire: bool, fuse: Fuse) -> (after: Tile)
    ensures
        after == caught(tile, near_fire, fuse),
{
    let mut tile: Tile = tile;
    if tile.destroyed || tile.burning || tile.fuse.is_some() || !near_fire {
        return tile;
    }
    if tile.material.is_explosive() {
        tile.health = Scalar::zero();
        tile.fuse = Some(fuse);
    } else if tile.flammable {
        tile.health = Scalar::zero();
        tile.burning = true;
    }
    tile
}

/// The first `n` fires, those with time left or those without.
pub open spec fn sifted(fires: Seq<GroundFire>, left: bool, n: int) -> Seq<GroundFire>
    decreases n,
{
    if n <= 0 {
        Seq::empty()
    } else if Scalar::zero().below(fires[n - 1].left) == left {
        sifted(fires, left, n - 1).push(fires[n - 1])
    } else {
        sifted(fires, left, n - 1)
    }
}

/// The first `n` oil cells that no fire in `done` has used up.
pub open spec fn oil_left(oil: Seq<Cell>, done: Seq<GroundFire>, n: int) -> Seq<Cell>
    decreases n,
{
    if n <= 0 {
        Seq::empty()
    } else if alight(done, oil[n - 1]) {
        oil_left(oil, done, n - 1)
    } else {
        oil_left(oil, done, n - 1).push(oil[n - 1])
    }
}

/// Put out the fires whose time is up and use up the trail under them.
/// Returns the ones that went out.
pub fn burn_out(fires: &mut Vec<GroundFire>, oil: &mut Vec<Cell>) -> (done: Vec<GroundFire>)
    ensures
        final(fires)@ == sifted(old(fires)@, true, old(fires)@.len() as int),
        done@ == sifted(old(fires)@, false, old(fires)@.len() as int),
        final(oil)@ == oil_left(old(oil)@, done@, old(oil)@.len() as int),
{
    let mut going: Vec<GroundFire> = Vec::new();
    let mut done: Vec<GroundFire> = Vec::new();
    let mut n: usize = 0;
    while n < fires.len()
        invariant
            n <= fires@.len(),
            going@ == sifted(fires@, true, n as int),
            done@ == sifted(fires@, false, n as int),
        decreases fires@.len() - n,
    {
        if fires[n].left.positive() {
            going.push(fires[n]);
        } else {
            done.push(fires[n]);
        }
        n += 1;
    }
    let mut rest: Vec<Cell> = Vec::new();
    let mut k: usize = 0;
    while k < oil.len()
        invariant
            k <= oil@.len(),
            rest@ == oil_left(oil@, done@, k as int),
        decreases oil@.len() - k,
    {
        if !is_alight(&done, oil[k]) {
            rest.push(oil[k]);
        }
        k += 1;
    }
    *fires = going;
    *oil = rest;
    done
}

/// The fuse as it reads once this frame's time has passed.
pub open spec fn fuse_burnt(tile: Tile, left: Scalar) -> Tile {
    match tile.fuse {
        Some(fuse) => Tile { fuse: Some(Fuse { left, ..fuse }), ..tile },
        None => tile,
    }
}

/// The fuse has run out on a tile that is still standing.
pub open spec fn pops(tile: Tile, left: Scalar) -> bool {
    tile.fuse is Some && left.at_most(Scalar::zero()) && !tile.destroyed
}

/// A fuel drum in the air: flying to the landing cell chosen for it, and
/// detonating there when it lands.
#[derive(Clone, Copy, Debug, PartialEq, Eq, Structural)]
pub struct FlyingDrum {
    pub from: Point,
    pub to: Point,
    pub age: Scalar,
    pub drum: Drum,
}

/// A cell a drum could land in, furthest first.
#[derive(Clone, Copy, Debug, PartialEq, Eq, Structural)]
pub struct Landing {
    pub cell: Cell,
    pub at: Point,
    /// Well inside the field.
    pub inside: bool,
}

/// The furthest landing that is inside the field, not where the drum stood
/// and not occupied.
pub open spec fn landing(ways: Seq<Landing>, start: Cell, solid: Seq<Cell>) -> Option<Point>
    decreases ways.len(),
{
    if ways.len() == 0 {
        None
    } else if ways[0].inside && ways[0].cell != start && !solid.contains(ways[0].cell) {
        Some(ways[0].at)
    } else {
        landing(ways.skip(1), start, solid)
    }
}

fn find_landing(ways: &Vec<Landing>, start: Cell, solid: &Vec<Cell>) -> (to: Option<Point>)
    ensures
        to == landing(ways@, start, solid@),
{
    let mut i: usize = 0;
    assert(ways@.skip(0) =~= ways@);
    while i < ways.len()
        invariant
            i <= ways@.len(),
            landing(ways@, start, solid@) == landing(ways@.skip(i as int), start, solid@),
        decreases ways@.len() - i,
    {
        let way: Landing = ways[i];
        if way.inside && way.cell != start && !contains_cell(solid, way.cell) {
            return Some(way.at);
        }
        assert(ways@.skip(i as int).skip(1) =~= ways@.skip(i + 1));
        i += 1;
    }
    None
}

/// Where a launched fuel drum lands: the furthest free cell on the way,
/// walking back toward the drum. None when it does not launch at all, which
/// draws only where the odds are open.
pub fn launch_target(
    odds: &Odds,
    ways: &Vec<Landing>,
    start: Cell,
    solid: &Vec<Cell>,
    rng: &mut SmallRng,
) -> (to: Option<Point>)
    ensures
        odds is Never ==> to is None && *final(rng) == *old(rng),
        odds is Always ==> to == landing(ways@, start, solid@) && *final(rng) == *old(rng),
        odds is Sometimes ==> to is None || to == landing(ways@, start, solid@),
{
    if !chance(rng, odds) {
        return None;
    }
    find_landing(ways, start, solid)
}

/// The tile whose fuse ran out is a fuel drum that another blast lit: only
/// that one may launch.
pub open spec fn may_launch(tile: Tile) -> bool {
    tile.material.is_explosive() && tile.drum == Drum::Fuel && (tile.fuse matches Some(fuse)
        && fuse.from is Some)
}

/// What a spent fuse does: the drum launches toward `to`, or goes off where it
/// stands. Either way the tile is gone.
pub open spec fn fuse_spent(f: Record, tile: Tile, to: Option<Point>, smoulder: Scalar) -> (
    Record,
    Tile,
    Option<FlyingDrum>,
) {
    let gone = Tile { destroyed: true, ..tile };
    let at = tile.position;
    if may_launch(tile) && to is Some {
        let to = to->0;
        (
            f.with_event(
                Event::ObstacleDestroyed { material: Material::Barrel, x: at.x, y: at.y },
            ).with_event(Event::DrumLaunched { x: at.x, y: at.y, to_x: to.x, to_y: to.y }),
            gone,
            Some(FlyingDrum { from: at, to, age: Scalar::zero(), drum: tile.drum }),
        )
    } else {
        let shape = match tile.fuse {
            Some(Fuse { from: Some(from), .. }) => BlastShape::Chained { from, smoulder },
            _ => BlastShape::Fire,
        };
        (
            mourned(
                f,
                DeadTile {
                    material: tile.material,
                    drum: tile.drum,
                    position: at,
                    chained: true,
                    charred: false,
                    shape,
                },
            ),
            gone,
            None,
        )
    }
}

/// Resolve one spent fuse. `smoulder` is how long it burnt, for the show.
/// Rolls for a launch only when the drum may launch.
pub fn pop_fuse(
    f: &mut Frame,
    tile: Tile,
    odds: &Odds,
    ways: &Vec<Landing>,
    solid: &Vec<Cell>,
    smoulder: Scalar,
    rng: &mut SmallRng,
) -> (r: (Tile, Option<FlyingDrum>))
    ensures
        !may_launch(tile) || odds is Never ==> *final(rng) == *old(rng) && (
            final(f)@,
            r.0,
            r.1,
        ) == fuse_spent(old(f)@, tile, None, smoulder),
        may_launch(tile) && odds is Always ==> *final(rng) == *old(rng) && (final(f)@, r.0, r.1)
            == fuse_spent(old(f)@, tile, landing(ways@, tile.cell, solid@), smoulder),
        (final(f)@, r.0, r.1) == fuse_spent(old(f)@, tile, None, smoulder) || (
            final(f)@,
            r.0,
            r.1,
        ) == fuse_spent(old(f)@, tile, landing(ways@, tile.cell, solid@), smoulder),
{
    let from: Option<Point> = match tile.fuse {
        Some(fuse) => fuse.from,
        None => None,
    };
    let mut gone: Tile = tile;
    gone.destroyed = true;
    if tile.material.is_explosive() && tile.drum == Drum::Fuel && from.is_some() {
        if let Some(to) = launch_target(odds, ways, tile.cell, solid, rng) {
            let at: Point = tile.position;
            f.record(Event::ObstacleDestroyed { material: Material::Barrel, x: at.x, y: at.y });
            f.record(Event::DrumLaunched { x: at.x, y: at.y, to_x: to.x, to_y: to.y });
            return (
                gone,
                Some(FlyingDrum { from: at, to, age: Scalar::zero(), drum: tile.drum }),
            );
        }
    }
    let shape: BlastShape = match from {
        Some(from) => BlastShape::Chained { from, smoulder },
        None => BlastShape::Fire,
    };
    obstacle_died(
        f,
        DeadTile {
            material: tile.material,
            drum: tile.drum,
            position: tile.position,
            chained: true,
            charred: false,
            shape,
        },
    );
    (gone, None)
}

/// One, as a measurement.
pub const ONE: u32 = 0x3f80_0000;

/// What the first `n` drums do to the frame: those that land detonate, a
/// chained blast leaning away from where they were launched.
pub open spec fn landed_blasts(f: Record, drums: Seq<FlyingDrum>, landed: Seq<bool>, n: int) -> Record
    decreases n,
{
    if n <= 0 {
        f
    } else {
        let f = landed_blasts(f, drums, landed, n - 1);
        let d = drums[n - 1];
        if landed[n - 1] {
            let f = f.with_event(
                Event::Blast { x: d.to.x, y: d.to.y, chained: true, drum: d.drum },
            );
            Record {
                pending_blasts: f.pending_blasts.push(
                    PendingBlast {
                        center: d.to,
                        drum: d.drum,
                        shape: BlastShape::Chained {
                            from: d.from,
                            smoulder: Scalar { bits: ONE },
                        },
                    },
                ),
                ..f
            }
        } else {
            f
        }
    }
}

/// The first `n` drums still in the air, at their new ages.
pub open spec fn airborne(
    drums: Seq<FlyingDrum>,
    ages: Seq<Scalar>,
    landed: Seq<bool>,
    n: int,
) -> Seq<FlyingDrum>
    decreases n,
{
    if n <= 0 {
        Seq::empty()
    } else if landed[n - 1] {
        airborne(drums, ages, landed, n - 1)
    } else {
        airborne(drums, ages, landed, n - 1).push(FlyingDrum { age: ages[n - 1], ..drums[n - 1] })
    }
}

/// Age the drums in the air; one that lands detonates there.
pub fn tick_launches(
    drums: &mut Vec<FlyingDrum>,
    ages: &Vec<Scalar>,
    landed: &Vec<bool>,
    f: &mut Frame,
)
    requires
        ages@.len() == old(drums)@.len(),
        landed@.len() == old(drums)@.len(),
    ensures
        final(drums)@ == airborne(old(drums)@, ages@, landed@, old(drums)@.len() as int),
        final(f)@ == landed_blasts(old(f)@, old(drums)@, landed@, old(drums)@.len() as int),
{
    let mut up: Vec<FlyingDrum> = Vec::new();
    let mut n: usize = 0;
    while n < drums.len()
        invariant
            n <= drums@.len(),
            drums@ == old(drums)@,
            ages@.len() == drums@.len(),
            landed@.len() == drums@.len(),
            up@ == airborne(drums@, ages@, landed@, n as int),
            f@ == landed_blasts(old(f)@, drums@, landed@, n as int),
        decreases drums@.len() - n,
    {
        let d: FlyingDrum = drums[n];
        if landed[n] {
            f.record(Event::Blast { x: d.to.x, y: d.to.y, chained: true, drum: d.drum });
            f.pending_blasts.push(
                PendingBlast {
                    center: d.to,
                    drum: d.drum,
                    shape: BlastShape::Chained { from: d.from, smoulder: Scalar { bits: ONE } },
                },
            );
        } else {
            up.push(FlyingDrum { age: ages[n], ..d });
        }
        n += 1;
    }
    *drums = up;
}

/// What pushing does to one tile this frame.
#[derive(Clone, Copy, Debug, PartialEq, Eq, Structural)]
pub struct Push {
    /// A tank that wants to move is in contact with it.
    pub pushed: bool,
    /// The tile's push clock a frame further on, and a frame further back.
    pub timer_up: Scalar,
    pub timer_down: Scalar,
    /// How long the material holds.
    pub limit: Scalar,
}

/// Pushing can do something to the tile: it stands, no fuse is lit on it, and
/// it is a prop that collapses, a tree that goes over or a barrel that pops.
pub open spec fn pushable(tile: Tile) -> bool {
    !tile.destroyed && tile.fuse is None && (tile.material.collapses()
        || tile.material.is_explosive())
}

/// The tile's push clock afterwards.
pub open spec fn push_clock(tile: Tile, push: Push) -> Tile {
    if pushable(tile) && tile.material.collapses() {
        Tile {
            ram_timer: if push.pushed {
                push.timer_up
            } else {
                push.timer_down
            },
            ..tile
        }
    } else {
        tile
    }
}

/// It gives way.
pub open spec fn gives_in(tile: Tile, push: Push) -> bool {
    pushable(tile) && tile.material.collapses() && push.pushed && push.limit.at_most(push.timer_up)
}

/// It is a barrel being rammed.
pub open spec fn barrel_rammed(tile: Tile, push: Push) -> bool {
    pushable(tile) && tile.material.is_explosive() && push.pushed
}

/// Those of the first `n` tiles that give way, or are rammed barrels.
pub open spec fn shoved(tiles: Seq<(u64, Tile)>, pushes: Seq<Push>, barrels: bool, n: int) -> Seq<u64>
    decreases n,
{
    if n <= 0 {
        Seq::empty()
    } else {
        let before = shoved(tiles, pushes, barrels, n - 1);
        let (tile, push) = (tiles[n - 1].1, pushes[n - 1]);
        if if barrels {
            barrel_rammed(tile, push)
        } else {
            gives_in(tile, push)
        } {
            before.push(tiles[n - 1].0)
        } else {
            before
        }
    }
}

/// Tanks pushing into props and trees. A tile under a push runs its clock and
/// collapses when the material's time is up; the clock runs back while nothing
/// pushes, so nudging twice does not add up. Returns the tiles that collapse
/// and the barrels that are rammed. No random numbers.
pub fn ram_props(tiles: &mut Vec<(u64, Tile)>, pushes: &Vec<Push>) -> (r: (Vec<u64>, Vec<u64>))
    requires
        pushes@.len() == old(tiles)@.len(),
    ensures
        final(tiles)@ == Seq::new(
            old(tiles)@.len(),
            |i: int| (old(tiles)@[i].0, push_clock(old(tiles)@[i].1, pushes@[i])),
        ),
        r.0@ == shoved(old(tiles)@, pushes@, false, old(tiles)@.len() as int),
        r.1@ == shoved(old(tiles)@, pushes@, true, old(tiles)@.len() as int),
{
    let ghost before = tiles@;
    let mut collapsed: Vec<u64> = Vec::new();
    let mut barrels: Vec<u64> = Vec::new();
    let mut n: usize = 0;
    while n < tiles.len()
        invariant
            n <= tiles@.len() == before.len() == pushes@.len(),
            collapsed@ == shoved(before, pushes@, false, n as int),
            barrels@ == shoved(before, pushes@, true, n as int),
            forall|i: int|
                0 <= i < n ==> #[trigger] tiles@[i] == (
                    before[i].0,
                    push_clock(before[i].1, pushes@[i]),
                ),
            forall|i: int| n <= i < before.len() ==> #[trigger] tiles@[i] == before[i],
        decreases before.len() - n,
    {
        let id: u64 = tiles[n].0;
        let mut tile: Tile = tiles[n].1;
        let push: Push = pushes[n];
        if !tile.destroyed && tile.fuse.is_none() {
            if tile.material.collapses() {
                tile.ram_timer = if push.pushed {
                    push.timer_up
                } else {
                    push.timer_down
                };
                tiles.set(n, (id, tile));
                if push.pushed && push.limit.le(tile.ram_timer) {
                    collapsed.push(id);
                }
            } else if push.pushed && tile.material.is_explosive() {
                barrels.push(id);
            }
        }
        n += 1;
    }
    assert(tiles@ =~= Seq::new(
        before.len(),
        |i: int| (before[i].0, push_clock(before[i].1, pushes@[i])),
    ));
    (collapsed, barrels)
}

/// A fire's neighbours are the cells one step away along a row or a column.
pub proof fn neighbours_are_one_step_away(cell: Cell, c: Cell)
    requires
        cell.interior(),
    ensures
        beside(cell).contains(c) <==> {
            ||| c.row == cell.row && (c.col - cell.col == 1 || cell.col - c.col == 1)
            ||| c.col == cell.col && (c.row - cell.row == 1 || cell.row - c.row == 1)
        },
{
    let s = beside(cell);
    assert(s[0] == Cell { col: (cell.col + 1) as i32, row: cell.row });
    assert(s[1] == Cell { col: (cell.col - 1) as i32, row: cell.row });
    assert(s[2] == Cell { col: cell.col, row: (cell.row + 1) as i32 });
    assert(s[3] == Cell { col: cell.col, row: (cell.row - 1) as i32 });
}

proof fn lemma_oily(cell: Cell, oil: Seq<Cell>, k: int, c: Cell)
    requires
        0 <= k <= 4,
    ensures
        oily(cell, oil, k).contains(c) <==> oil.contains(c) && exists|i: int|
            0 <= i < k && #[trigger] beside(cell)[i] == c,
    decreases k,
{
    if k > 0 {
        lemma_oily(cell, oil, k - 1, c);
        let (now, before) = (oily(cell, oil, k), oily(cell, oil, k - 1));
        let last = beside(cell)[k - 1];
        if oil.contains(last) {
            assert(now[before.len() as int] == last);
            if before.contains(c) {
                let i = choose|i: int| 0 <= i < before.len() && before[i] == c;
                assert(now[i] == c);
            }
            if now.contains(c) {
                let i = choose|i: int| 0 <= i < now.len() && now[i] == c;
                if i < before.len() {
                    assert(before[i] == c);
                }
            }
        }
    }
}

proof fn lemma_spread(fires: Seq<GroundFire>, oil: Seq<Cell>, now: Scalar, n: int, c: Cell)
    requires
        0 <= n <= fires.len(),
        fires_inside(fires),
    ensures
        spread(fires, oil, now, n).contains(c) <==> exists|i: int|
            0 <= i < n && spreads_to(#[trigger] fires[i], oil, now, c),
    decreases n,
{
    if n > 0 {
        lemma_spread(fires, oil, now, n - 1, c);
        let before = spread(fires, oil, now, n - 1);
        let all = spread(fires, oil, now, n);
        let fire = fires[n - 1];
        let more = oily(fire.cell, oil, 4);
        lemma_oily(fire.cell, oil, 4, c);
        assert(fire.cell.interior());
        neighbours_are_one_step_away(fire.cell, c);
        if beside(fire.cell).contains(c) {
            let k = choose|k: int| 0 <= k < 4 && beside(fire.cell)[k] == c;
            assert(beside(fire.cell)[k] == c);
        }
        assert(more.contains(c) <==> oil.contains(c) && beside(fire.cell).contains(c));
        if before.contains(c) {
            let i = choose|i: int| 0 <= i < before.len() && before[i] == c;
            assert(all[i] == c);
        }
        if due(fire, now) {
            if more.contains(c) {
                let i = choose|i: int| 0 <= i < more.len() && more[i] == c;
                assert(all[before.len() + i] == c);
            }
            if all.contains(c) {
                let i = choose|i: int| 0 <= i < all.len() && all[i] == c;
                if i < before.len() {
                    assert(before[i] == c);
                } else {
                    assert(more[i - before.len()] == c);
                }
            }
        }
        assert(all.contains(c) <==> before.contains(c) || (due(fire, now) && more.contains(c)));
        assert(due(fire, now) && more.contains(c) <==> spreads_to(fire, oil, now, c));
    }
}

/// A fire is due by now, and an oil cell lies one step from it along a row or a
/// column.
pub open spec fn spreads_to(fire: GroundFire, oil: Seq<Cell>, now: Scalar, c: Cell) -> bool {
    let (dcol, drow) = (c.col - fire.cell.col, c.row - fire.cell.row);
    &&& fire.spread_at matches Some(at) && at.at_most(now)
    &&& exists|k: int| 0 <= k < oil.len() && oil[k] == c
    &&& (if dcol < 0 {
        -dcol
    } else {
        dcol
    }) + (if drow < 0 {
        -drow
    } else {
        drow
    }) == 1
}

/// Every oil cell one step from a due fire, in any of the four directions, is
/// spread to; and nothing else is.
pub proof fn a_due_fire_spreads_along_its_trail(
    fires: Seq<GroundFire>,
    oil: Seq<Cell>,
    now: Scalar,
    c: Cell,
)
    requires
        fires_inside(fires),
    ensures
        spread(fires, oil, now, fires.len() as int).contains(c) <==> exists|i: int|
            0 <= i < fires.len() && spreads_to(#[trigger] fires[i], oil, now, c),
{
    lemma_spread(fires, oil, now, fires.len() as int, c);
}

/// A fire burns down to the time it has left, and spreads once: it is due no
/// more after it was.
pub proof fn a_fire_spreads_once(fire: GroundFire, left: Scalar, now: Scalar, later: Scalar)
    ensures
        burnt(fire, left, now).left == left,
        burnt(fire, left, now).cell == fire.cell,
        burnt(fire, left, now).total == fire.total,
        burnt(fire, left, now).pool == fire.pool,
        (fire.spread_at matches Some(at) && at.at_most(now)) ==> burnt(fire, left, now).spread_at
            is None && !due(burnt(fire, left, now), later),
        !(fire.spread_at matches Some(at) && at.at_most(now)) ==> burnt(
            fire,
            left,
            now,
        ).spread_at == fire.spread_at,
{
}

/// A spark lights a dry cell of the field that does not burn yet, and says so; it
/// does nothing to any other.
pub proof fn a_spark_lights_dry_ground_once(fires: Seq<GroundFire>, f: Record, spark: Spark)
    ensures
        ({
            let burns = exists|i: int| 0 <= i < fires.len() && (#[trigger] fires[i]).cell == spark.cell;
            let (after, g) = lit(fires, f, spark);
            &&& !burns && spark.on_field && !spark.wet ==> {
                &&& after.len() == fires.len() + 1
                &&& after.last().cell == spark.cell && after.last().left == spark.seconds
                &&& after.last().total == spark.seconds && after.last().pool == spark.pool
                &&& after.last().spread_at == Some(spark.spread_at)
                &&& after.drop_last() == fires
                &&& g.events == f.events.push(
                    Event::FireStarted { x: spark.at.x, y: spark.at.y, pool: spark.pool },
                )
            }
            &&& burns || !spark.on_field || spark.wet ==> after == fires && g == f
        }),
{
    let (after, g) = lit(fires, f, spark);
    if !alight(fires, spark.cell) && spark.on_field && !spark.wet {
        assert(after.drop_last() =~= fires);
    }
}

/// A fire reaches the cell it burns in and the four beside it.
pub proof fn a_fire_reaches_one_step(a: Cell, b: Cell)
    ensures
        touches(a, b) <==> a == b || (a.row == b.row && (a.col - b.col == 1 || b.col - a.col == 1))
            || (a.col == b.col && (a.row - b.row == 1 || b.row - a.row == 1)),
{
}

/// What sets a cell alight is a burning cell that is the same or beside it, and
/// one is found whenever there is one.
pub proof fn a_fire_beside_a_tile_is_found(burning: Seq<Cell>, cell: Cell)
    ensures
        source_of(burning, cell) matches Some(b) ==> burning.contains(b) && touches(b, cell),
        source_of(burning, cell) is None ==> forall|i: int|
            0 <= i < burning.len() ==> !touches(#[trigger] burning[i], cell),
    decreases burning.len(),
{
    if burning.len() > 0 && !touches(burning[0], cell) {
        let rest = burning.skip(1);
        a_fire_beside_a_tile_is_found(rest, cell);
        match source_of(rest, cell) {
            Some(b) => {
                let k = choose|k: int| 0 <= k < rest.len() && rest[k] == b;
                assert(burning[k + 1] == b);
            },
            None => {
                assert forall|i: int| 0 <= i < burning.len() implies !touches(
                    #[trigger] burning[i],
                    cell,
                ) by {
                    if i > 0 {
                        assert(rest[i - 1] == burning[i]);
                    }
                }
            },
        }
    }
}

/// A standing tile beside a fire catches if it can burn, and a barrel goes on
/// its fuse; a tile that no fire reaches, or that is gone, burning or on a fuse
/// already, stays as it is.
pub proof fn fire_catches_what_can_burn(tile: Tile, near_fire: bool, fuse: Fuse)
    ensures
        ({
            let after = caught(tile, near_fire, fuse);
            let stands = !tile.destroyed && !tile.burning && tile.fuse is None;
            &&& stands && near_fire && tile.material == Material::Barrel ==> after == (Tile {
                health: Scalar { bits: 0 },
                fuse: Some(fuse),
                ..tile
            })
            &&& stands && near_fire && tile.material != Material::Barrel && tile.flammable ==> after
                == (Tile { health: Scalar { bits: 0 }, burning: true, ..tile })
            &&& !stands || !near_fire || (tile.material != Material::Barrel && !tile.flammable)
                ==> after == tile
        }),
{
}

proof fn lemma_still_burning(fires: Seq<GroundFire>, n: int, c: Cell)
    requires
        0 <= n <= fires.len(),
    ensures
        still_burning(fires, n).contains(c) <==> exists|i: int|
            0 <= i < n && (#[trigger] fires[i]).cell == c && Scalar::zero().below(fires[i].left),
    decreases n,
{
    if n > 0 {
        lemma_still_burning(fires, n - 1, c);
        let (now, before) = (still_burning(fires, n), still_burning(fires, n - 1));
        if before.contains(c) {
            let i = choose|i: int| 0 <= i < before.len() && before[i] == c;
            assert(now[i] == c);
        }
        if Scalar::zero().below(fires[n - 1].left) {
            assert(now[before.len() as int] == fires[n - 1].cell);
            if now.contains(c) {
                let i = choose|i: int| 0 <= i < now.len() && now[i] == c;
                if i < before.len() {
                    assert(before[i] == c);
                }
            }
        }
    }
}

/// A cell burns while a fire in it has time left.
pub proof fn a_cell_burns_while_its_fire_has_time(fires: Seq<GroundFire>, c: Cell)
    ensures
        still_burning(fires, fires.len() as int).contains(c) <==> exists|i: int|
            0 <= i < fires.len() && (#[trigger] fires[i]).cell == c && Scalar::zero().below(
                fires[i].left,
            ),
{
    lemma_still_burning(fires, fires.len() as int, c);
}

proof fn lemma_sifted(fires: Seq<GroundFire>, left: bool, n: int, fire: GroundFire)
    requires
        0 <= n <= fires.len(),
    ensures
        sifted(fires, left, n).contains(fire) <==> (Scalar::zero().below(fire.left) == left
            && exists|i: int| 0 <= i < n && #[trigger] fires[i] == fire),
    decreases n,
{
    if n > 0 {
        lemma_sifted(fires, left, n - 1, fire);
        let (now, before) = (sifted(fires, left, n), sifted(fires, left, n - 1));
        if before.contains(fire) {
            let i = choose|i: int| 0 <= i < before.len() && before[i] == fire;
            assert(now[i] == fire);
        }
        if Scalar::zero().below(fires[n - 1].left) == left {
            assert(now[before.len() as int] == fires[n - 1]);
            if now.contains(fire) {
                let i = choose|i: int| 0 <= i < now.len() && now[i] == fire;
                if i < before.len() {
                    assert(before[i] == fire);
                }
            }
        }
    }
}

proof fn lemma_oil_left(oil: Seq<Cell>, done: Seq<GroundFire>, n: int, c: Cell)
    requires
        0 <= n <= oil.len(),
    ensures
        oil_left(oil, done, n).contains(c) <==> !alight(done, c) && exists|i: int|
            0 <= i < n && #[trigger] oil[i] == c,
    decreases n,
{
    if n > 0 {
        lemma_oil_left(oil, done, n - 1, c);
        let (now, before) = (oil_left(oil, done, n), oil_left(oil, done, n - 1));
        if before.contains(c) {
            let i = choose|i: int| 0 <= i < before.len() && before[i] == c;
            assert(now[i] == c);
        }
        if !alight(done, oil[n - 1]) {
            assert(now[before.len() as int] == oil[n - 1]);
            if now.contains(c) {
                let i = choose|i: int| 0 <= i < now.len() && now[i] == c;
                if i < before.len() {
                    assert(before[i] == c);
                }
            }
        }
    }
}

/// A fire goes on burning exactly while it has time left. One that went out has
/// used up the oil under it, and no other oil is used up.
pub proof fn a_fire_without_time_goes_out(
    fires: Seq<GroundFire>,
    oil: Seq<Cell>,
    fire: GroundFire,
    c: Cell,
)
    ensures
        ({
            let n = fires.len() as int;
            let (going, done) = (sifted(fires, true, n), sifted(fires, false, n));
            let left = oil_left(oil, done, oil.len() as int);
            &&& going.contains(fire) <==> fires.contains(fire) && Scalar::zero().below(fire.left)
            &&& done.contains(fire) <==> fires.contains(fire) && !Scalar::zero().below(fire.left)
            &&& left.contains(c) <==> oil.contains(c) && !exists|i: int|
                0 <= i < fires.len() && (#[trigger] fires[i]).cell == c && !Scalar::zero().below(
                    fires[i].left,
                )
        }),
{
    let n = fires.len() as int;
    let done = sifted(fires, false, n);
    lemma_sifted(fires, true, n, fire);
    lemma_sifted(fires, false, n, fire);
    lemma_oil_left(oil, done, oil.len() as int, c);
    if alight(done, c) {
        let k = choose|k: int| 0 <= k < done.len() && (#[trigger] done[k]).cell == c;
        lemma_sifted(fires, false, n, done[k]);
        assert(done.contains(done[k]));
    }
    if exists|i: int|
        0 <= i < fires.len() && (#[trigger] fires[i]).cell == c && !Scalar::zero().below(
            fires[i].left,
        ) {
        let i = choose|i: int|
            0 <= i < fires.len() && (#[trigger] fires[i]).cell == c && !Scalar::zero().below(
                fires[i].left,
            );
        lemma_sifted(fires, false, n, fires[i]);
        let k = choose|k: int| 0 <= k < done.len() && done[k] == fires[i];
        assert(done[k].cell == c);
    }
}

/// What a blow does to a standing tile, by what it is made of and what struck
/// it; and that it does nothing to one that is gone, burning or on a fuse.
pub proof fn a_blow_by_material(tile: Tile, b: Blow, cause: DamageCause, heads: bool)
    ensures
        ({
            let (after, died) = blow(tile, b, cause, heads);
            let stands = !tile.destroyed && !tile.burning && tile.fuse is None;
            let dead = Tile { health: Scalar { bits: 0 }, destroyed: true, ..tile };
            &&& !stands ==> after == tile && !died
            &&& stands && tile.material == Material::Fence ==> {
                &&& cause is Fire ==> after == dead && died
                &&& !tile.max_health.at_most(tile.health) ==> after == dead && died
                &&& tile.max_health.at_most(tile.health) && heads ==> after == dead && died
                &&& tile.max_health.at_most(tile.health) && !heads && !(cause is Fire) ==> after
                    == (Tile { health: b.half_health, ..tile }) && !died
            }
            &&& stands && tile.material == Material::Barrel && cause is Blast ==> after == (Tile {
                health: Scalar { bits: 0 },
                fuse: Some(Fuse { from: Some(cause->from), ..b.fuse }),
                ..tile
            }) && !died
            &&& stands && (tile.material == Material::Tree || tile.material == Material::Pine)
                && cause is Ram ==> after == dead && died
            &&& stands && tile.material != Material::Fence && !(tile.material == Material::Barrel
                && cause is Blast) && !((tile.material == Material::Tree || tile.material
                == Material::Pine) && cause is Ram) ==> {
                &&& died == b.worn_out
                &&& after.destroyed == (b.worn.destroyed || b.worn_out)
                &&& after == (Tile { destroyed: after.destroyed, ..b.worn })
            }
        }),
{
}

/// A tile's death is told. A barrel's goes with a blast where it stood; anything
/// else leaves rubble, but iron leaves none.
pub proof fn a_death_is_told_and_leaves_its_mark(f: Record, tile: DeadTile)
    ensures
        ({
            let after = mourned(f, tile);
            let (x, y) = (tile.position.x, tile.position.y);
            let told = f.events.push(Event::ObstacleDestroyed { material: tile.material, x, y });
            &&& tile.material == Material::Barrel ==> {
                &&& after.events == told.push(
                    Event::Blast { x, y, chained: tile.chained, drum: tile.drum },
                )
                &&& after.pending_blasts == f.pending_blasts.push(
                    PendingBlast { center: tile.position, drum: tile.drum, shape: tile.shape },
                )
                &&& after.rubble == f.rubble
            }
            &&& tile.material != Material::Barrel ==> after.events == told && after.pending_blasts
                == f.pending_blasts
            &&& tile.material == Material::Iron ==> after.rubble == f.rubble
            &&& tile.material != Material::Barrel && tile.material != Material::Iron
                ==> after.rubble == f.rubble.push(
                Rubble { material: tile.material, at: tile.position, charred: tile.charred },
            )
            &&& after.kills == f.kills && after.shocks == f.shocks && after.flashes == f.flashes
            &&& after.fireballs == f.fireballs && after.scorches == f.scorches
        }),
{
}

/// A drum lands on the first way that is inside the field, is not where it stood
/// and is not occupied; nowhere when there is none.
pub proof fn a_drum_lands_on_the_first_free_way(
    ways: Seq<Landing>,
    start: Cell,
    solid: Seq<Cell>,
)
    ensures
        match landing(ways, start, solid) {
            Some(at) => exists|i: int|
                0 <= i < ways.len() && (#[trigger] ways[i]).at == at && ways[i].inside
                    && ways[i].cell != start && !solid.contains(ways[i].cell) && forall|j: int|
                    0 <= j < i ==> !(#[trigger] ways[j]).inside || ways[j].cell == start
                        || solid.contains(ways[j].cell),
            None => forall|j: int|
                0 <= j < ways.len() ==> !(#[trigger] ways[j]).inside || ways[j].cell == start
                    || solid.contains(ways[j].cell),
        },
    decreases ways.len(),
{
    if ways.len() > 0 {
        if ways[0].inside && ways[0].cell != start && !solid.contains(ways[0].cell) {
            assert(ways[0].at == landing(ways, start, solid)->0);
        } else {
            let rest = ways.skip(1);
            a_drum_lands_on_the_first_free_way(rest, start, solid);
            match landing(rest, start, solid) {
                Some(at) => {
                    let i = choose|i: int|
                        0 <= i < rest.len() && (#[trigger] rest[i]).at == at && rest[i].inside
                            && rest[i].cell != start && !solid.contains(rest[i].cell)
                            && forall|j: int|
                            0 <= j < i ==> !(#[trigger] rest[j]).inside || rest[j].cell == start
                                || solid.contains(rest[j].cell);
                    assert(ways[i + 1] == rest[i]);
                    assert forall|j: int| 0 <= j < i + 1 implies !(#[trigger] ways[j]).inside
                        || ways[j].cell == start || solid.contains(ways[j].cell) by {
                        if j > 0 {
                            assert(rest[j - 1] == ways[j]);
                        }
                    }
                },
                None => {
                    assert forall|j: int| 0 <= j < ways.len() implies !(#[trigger] ways[j]).inside
                        || ways[j].cell == start || solid.contains(ways[j].cell) by {
                        if j > 0 {
                            assert(rest[j - 1] == ways[j]);
                        }
                    }
                },
            }
        }
    }
}

/// A spent fuse takes its tile. Only a fuel drum that a blast lit may fly, and
/// it flies where it is sent; anything else dies where it stands, a barrel with
/// a chained blast there.
pub proof fn a_spent_fuse_goes_off(f: Record, tile: Tile, to: Option<Point>, smoulder: Scalar)
    ensures
        ({
            let (after, gone, drum) = fuse_spent(f, tile, to, smoulder);
            let at = tile.position;
            let flies = tile.material == Material::Barrel && tile.drum == Drum::Fuel && (
            tile.fuse matches Some(fuse) && fuse.from is Some) && to is Some;
            &&& gone == (Tile { destroyed: true, ..tile })
            &&& drum is Some <==> flies
            &&& flies ==> {
                &&& drum->0.from == at && Some(drum->0.to) == to && drum->0.age.bits == 0
                &&& drum->0.drum == Drum::Fuel
                &&& after.events == f.events.push(
                    Event::ObstacleDestroyed { material: Material::Barrel, x: at.x, y: at.y },
                ).push(Event::DrumLaunched { x: at.x, y: at.y, to_x: to->0.x, to_y: to->0.y })
                &&& after.pending_blasts == f.pending_blasts
            }
            &&& !flies && tile.material == Material::Barrel ==> {
                &&& after.pending_blasts.len() == f.pending_blasts.len() + 1
                &&& after.pending_blasts.last().center == at
                &&& after.pending_blasts.last().drum == tile.drum
                &&& after.pending_blasts.last().shape == (match tile.fuse {
                    Some(fuse) => match fuse.from {
                        Some(from) => BlastShape::Chained { from, smoulder },
                        None => BlastShape::Fire,
                    },
                    None => BlastShape::Fire,
                })
                &&& after.events == f.events.push(
                    Event::ObstacleDestroyed { material: Material::Barrel, x: at.x, y: at.y },
                ).push(Event::Blast { x: at.x, y: at.y, chained: true, drum: tile.drum })
            }
        }),
{
}

/// A fuse runs down and nothing else; its tile goes off once it has run out,
/// unless it is gone already.
pub proof fn a_fuse_runs_down(tile: Tile, left: Scalar)
    ensures
        pops(tile, left) <==> tile.fuse is Some && left.at_most(Scalar { bits: 0 })
            && !tile.destroyed,
        tile.fuse is None ==> fuse_burnt(tile, left) == tile,
        tile.fuse matches Some(fuse) ==> fuse_burnt(tile, left) == (Tile {
            fuse: Some(Fuse { left, total: fuse.total, from: fuse.from }),
            ..tile
        }),
{
}

/// A drum that lands detonates where it came down, leaning away from where it
/// was launched, and is in the air no more; one that does not flies on at its
/// new age.
pub proof fn a_landed_drum_detonates(
    f: Record,
    drums: Seq<FlyingDrum>,
    ages: Seq<Scalar>,
    landed: Seq<bool>,
    n: int,
)
    requires
        0 <= n <= drums.len(),
        ages.len() == drums.len(),
        landed.len() == drums.len(),
    ensures
        ({
            let after = landed_blasts(f, drums, landed, n);
            let up = airborne(drums, ages, landed, n);
            &&& up.len() + after.pending_blasts.len() == n + f.pending_blasts.len()
            &&& f.pending_blasts.len() <= after.pending_blasts.len()
            &&& forall|i: int|
                0 <= i < n && landed[i] ==> exists|k: int|
                    f.pending_blasts.len() <= k < after.pending_blasts.len() && (
                    #[trigger] after.pending_blasts[k]).center == (#[trigger] drums[i]).to
                        && after.pending_blasts[k].drum == drums[i].drum && (
                    after.pending_blasts[k].shape matches BlastShape::Chained { from, .. } && from
                        == drums[i].from)
            &&& forall|i: int|
                0 <= i < n && !landed[i] ==> up.contains(
                    FlyingDrum {
                        from: (#[trigger] drums[i]).from,
                        to: drums[i].to,
                        age: ages[i],
                        drum: drums[i].drum,
                    },
                )
        }),
    decreases n,
{
    if n > 0 {
        a_landed_drum_detonates(f, drums, ages, landed, n - 1);
        let (was, after) = (
            landed_blasts(f, drums, landed, n - 1),
            landed_blasts(f, drums, landed, n),
        );
        let (before, up) = (
            airborne(drums, ages, landed, n - 1),
            airborne(drums, ages, landed, n),
        );
        assert forall|i: int| 0 <= i < n && landed[i] implies exists|k: int|
            f.pending_blasts.len() <= k < after.pending_blasts.len() && (
            #[trigger] after.pending_blasts[k]).center == (#[trigger] drums[i]).to
                && after.pending_blasts[k].drum == drums[i].drum && (
            after.pending_blasts[k].shape matches BlastShape::Chained { from, .. } && from
                == drums[i].from) by {
            if i == n - 1 {
                let k = was.pending_blasts.len() as int;
                assert(f.pending_blasts.len() <= k);
                assert(after.pending_blasts[k].center == drums[i].to);
            } else {
                let k = choose|k: int|
                    f.pending_blasts.len() <= k < was.pending_blasts.len() && (
                    #[trigger] was.pending_blasts[k]).center == drums[i].to
                        && was.pending_blasts[k].drum == drums[i].drum && (
                    was.pending_blasts[k].shape matches BlastShape::Chained { from, .. } && from
                        == drums[i].from);
                assert(after.pending_blasts[k] == was.pending_blasts[k]);
            }
        }
        assert forall|i: int| 0 <= i < n && !landed[i] implies up.contains(
            FlyingDrum {
                from: (#[trigger] drums[i]).from,
                to: drums[i].to,
                age: ages[i],
                drum: drums[i].drum,
            },
        ) by {
            let d = FlyingDrum {
                from: drums[i].from,
                to: drums[i].to,
                age: ages[i],
                drum: drums[i].drum,
            };
            if i == n - 1 {
                assert(up[before.len() as int] == d);
            } else {
                assert(before.contains(d));
                let k = choose|k: int| 0 <= k < before.len() && before[k] == d;
                assert(up[k] == d);
            }
        }
    }
}

proof fn lemma_shoved(tiles: Seq<(u64, Tile)>, pushes: Seq<Push>, barrels: bool, n: int, id: u64)
    requires
        0 <= n <= tiles.len() == pushes.len(),
    ensures
        shoved(tiles, pushes, barrels, n).contains(id) <==> exists|i: int|
            0 <= i < n && (#[trigger] tiles[i]).0 == id && if barrels {
                barrel_rammed(tiles[i].1, pushes[i])
            } else {
                gives_in(tiles[i].1, pushes[i])
            },
    decreases n,
{
    if n > 0 {
        lemma_shoved(tiles, pushes, barrels, n - 1, id);
        let (now, before) = (
            shoved(tiles, pushes, barrels, n),
            shoved(tiles, pushes, barrels, n - 1),
        );
        if before.contains(id) {
            let i = choose|i: int| 0 <= i < before.len() && before[i] == id;
            assert(now[i] == id);
        }
        if now.len() > before.len() {
            assert(now[before.len() as int] == tiles[n - 1].0);
            if now.contains(id) {
                let i = choose|i: int| 0 <= i < now.len() && now[i] == id;
                if i < before.len() {
                    assert(before[i] == id);
                }
            }
        }
    }
}

/// A sandbag, fence or tree pushed for as long as it holds collapses, and a
/// barrel goes off as soon as it is pushed; nothing that is gone or on a fuse
/// does, and nothing that nobody pushes. The push clock runs up under a push and
/// down without one.
pub proof fn what_is_pushed_long_enough_gives_in(
    tiles: Seq<(u64, Tile)>,
    pushes: Seq<Push>,
    id: u64,
)
    requires
        tiles.len() == pushes.len(),
    ensures
        shoved(tiles, pushes, false, tiles.len() as int).contains(id) <==> exists|i: int|
            {
                &&& 0 <= i < tiles.len() && (#[trigger] tiles[i]).0 == id
                &&& !tiles[i].1.destroyed && tiles[i].1.fuse is None
                &&& tiles[i].1.material is Sandbag || tiles[i].1.material is Fence
                    || tiles[i].1.material is Tree || tiles[i].1.material is Pine
                &&& pushes[i].pushed && pushes[i].limit.at_most(pushes[i].timer_up)
            },
        shoved(tiles, pushes, true, tiles.len() as int).contains(id) <==> exists|i: int|
            {
                &&& 0 <= i < tiles.len() && (#[trigger] tiles[i]).0 == id
                &&& !tiles[i].1.destroyed && tiles[i].1.fuse is None
                &&& tiles[i].1.material is Barrel && pushes[i].pushed
            },
        forall|i: int|
            0 <= i < tiles.len() && !(#[trigger] tiles[i]).1.destroyed && tiles[i].1.fuse is None
                && (tiles[i].1.material is Sandbag || tiles[i].1.material is Fence
                || tiles[i].1.material is Tree || tiles[i].1.material is Pine) ==> push_clock(
                tiles[i].1,
                pushes[i],
            ).ram_timer == if pushes[i].pushed {
                pushes[i].timer_up
            } else {
                pushes[i].timer_down
            },
{
    lemma_shoved(tiles, pushes, false, tiles.len() as int, id);
    lemma_shoved(tiles, pushes, true, tiles.len() as int, id);
}

} // verus!
