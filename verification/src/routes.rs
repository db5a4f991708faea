//! What the pack's routes are planned over.
//!
//! The host owns the grid and searches it. What stands in the way, which cells
//! cost extra and where the shared routes lead are decided here.

use vstd::prelude::*;

use crate::field::{lists, selects, thing};
use crate::game::{on_field, Game};
use crate::kinds::{Cell, Dir, MAX_SEATS};
use crate::pieces::{Frog, Piece, Tank, Tile};
use crate::props::GroundFire;
use crate::ranking::lemma_pushed;
use crate::scalar::{Point, Scalar};
use crate::views::{frog_goal, in_the_pack, route_goals};

verus! {

/// Something no tank can stand on.
#[derive(Clone, Copy, Debug, PartialEq, Eq, Structural)]
pub struct NavBlock {
    pub at: Point,
    /// Half its width.
    pub half: Scalar,
}

/// The water on the map, and what wading costs.
#[derive(Debug)]
pub struct NavWater {
    /// Deep water, which is a wall, and how wide a cell of it is.
    pub deep: Vec<Point>,
    pub deep_half: Scalar,
    /// Shallow water, which a tank can ford.
    pub shallow: Vec<Point>,
    pub ford_cost: i32,
}

/// A portal network as a route sees it: from any portal to any other.
#[derive(Debug)]
pub struct NavHub {
    pub portals: Vec<Point>,
    /// How near a portal is entered.
    pub radius: Scalar,
    pub hop_cost: u32,
}

/// What routes are planned over.
#[derive(Debug)]
pub struct NavPlan {
    pub blocks: Vec<NavBlock>,
    pub hub: Option<NavHub>,
    /// The cells that can be forded, and what each costs.
    pub fords: Vec<Point>,
    pub ford_cost: u32,
}

/// How wide the host takes each tile to be.
pub open spec fn tiles_sized<H: Fn(Tile) -> Scalar>(
    half: H,
    tiles: Seq<(u64, Tile)>,
    halves: Seq<Scalar>,
    n: int,
) -> bool {
    halves.len() == n && forall|k: int|
        0 <= k < n ==> call_ensures(half, (tiles[k].1,), #[trigger] halves[k])
}

/// Where the host takes each burning cell to be.
pub open spec fn fires_placed<F: Fn(Cell) -> Point>(
    place: F,
    fires: Seq<GroundFire>,
    spots: Seq<Point>,
    n: int,
) -> bool {
    spots.len() == n && forall|k: int|
        0 <= k < n ==> call_ensures(place, (fires[k].cell,), #[trigger] spots[k])
}

/// Tiles in the way, each as wide as it is.
pub open spec fn tile_blocks(tiles: Seq<(u64, Tile)>, halves: Seq<Scalar>) -> Seq<NavBlock> {
    Seq::new(tiles.len(), |k: int| NavBlock { at: tiles[k].1.position, half: halves[k] })
}

/// Frogs in the way.
pub open spec fn frog_blocks(frogs: Seq<(u64, Frog)>, half: Scalar) -> Seq<NavBlock> {
    Seq::new(frogs.len(), |k: int| NavBlock { at: frogs[k].1.position, half })
}

/// Places in the way.
pub open spec fn spot_blocks(spots: Seq<Point>, half: Scalar) -> Seq<NavBlock> {
    Seq::new(spots.len(), |k: int| NavBlock { at: spots[k], half })
}

/// A tile that closes the seam to its neighbour stands in the cell.
pub open spec fn seam_at(pieces: Map<u64, Piece>, cell: Cell) -> bool {
    exists|id: u64|
        (#[trigger] thing::<Tile>(pieces, id)) matches Some(t) && t.cell == cell
            && !t.material.is_tree()
}

impl Game {
    /// The cells with a tile that closes the seam to its neighbour: any but a
    /// tree. A cell may be listed more than once.
    pub fn seam_cells(&self) -> (cells: Vec<Cell>)
        ensures
            forall|c: Cell| #[trigger] cells@.contains(c) <==> seam_at(self.field@, c),
    {
        let tiles: Vec<(u64, Tile)> = self.field.all();
        let mut cells: Vec<Cell> = Vec::new();
        let mut n: usize = 0;
        while n < tiles.len()
            invariant
                n <= tiles@.len(),
                forall|i: int|
                    0 <= i < cells@.len() ==> exists|k: int|
                        0 <= k < n && (#[trigger] tiles@[k]).1.cell == #[trigger] cells@[i]
                            && !tiles@[k].1.material.is_tree(),
                forall|k: int|
                    0 <= k < n && !(#[trigger] tiles@[k]).1.material.is_tree() ==> cells@.contains(
                        tiles@[k].1.cell,
                    ),
            decreases tiles@.len() - n,
        {
            let t: Tile = tiles[n].1;
            let ghost were = cells@;
            if !t.material.is_tree() {
                cells.push(t.cell);
                assert(cells@[were.len() as int] == tiles@[n as int].1.cell);
            }
            proof {
                assert forall|i: int| 0 <= i < cells@.len() implies exists|k: int|
                    0 <= k < n + 1 && (#[trigger] tiles@[k]).1.cell == #[trigger] cells@[i]
                        && !tiles@[k].1.material.is_tree() by {
                    if i < were.len() {
                        assert(were[i] == cells@[i]);
                    } else {
                        assert(tiles@[n as int].1.cell == cells@[i]);
                    }
                }
                assert forall|k: int| 0 <= k < n + 1 && !(#[trigger] tiles@[k]).1.material.is_tree()
                    implies cells@.contains(tiles@[k].1.cell) by {
                    if k < n {
                        let i = choose|i: int| 0 <= i < were.len() && were[i] == tiles@[k].1.cell;
                        assert(cells@[i] == tiles@[k].1.cell);
                    }
                }
            }
            n += 1;
        }
        proof {
            assert forall|c: Cell| #[trigger] cells@.contains(c) <==> seam_at(self.field@, c) by {
                if cells@.contains(c) {
                    let i = choose|i: int| 0 <= i < cells@.len() && cells@[i] == c;
                    let k = choose|k: int|
                        0 <= k < n && (#[trigger] tiles@[k]).1.cell == cells@[i]
                            && !tiles@[k].1.material.is_tree();
                    assert(thing::<Tile>(self.field@, tiles@[k].0) == Some(tiles@[k].1));
                }
                if seam_at(self.field@, c) {
                    let id = choose|id: u64|
                        (#[trigger] thing::<Tile>(self.field@, id)) matches Some(t) && t.cell == c
                            && !t.material.is_tree();
                    let k = choose|k: int| 0 <= k < tiles@.len() && (#[trigger] tiles@[k]).0 == id;
                    assert(thing::<Tile>(self.field@, tiles@[k].0) == Some(tiles@[k].1));
                }
            }
        }
        cells
    }

    /// Everything a route leads around: tiles, frogs, cells on fire and deep
    /// water. A burning cell is a wall for as long as it burns.
    fn nav_blocks<H: Fn(Tile) -> Scalar, F: Fn(Cell) -> Point>(
        &self,
        half: &H,
        frog_half: Scalar,
        place: &F,
        fire_half: Scalar,
        deep: &Vec<Point>,
        deep_half: Scalar,
    ) -> (blocks: Vec<NavBlock>)
        requires
            forall|t: Tile| call_requires(*half, (t,)),
            forall|c: Cell| call_requires(*place, (c,)),
        ensures
            exists|
                tiles: Seq<(u64, Tile)>,
                frogs: Seq<(u64, Frog)>,
                halves: Seq<Scalar>,
                spots: Seq<Point>,
            |
                {
                    &&& lists::<Tile>(self.field@, tiles)
                    &&& #[trigger] lists::<Frog>(self.field@, frogs)
                    &&& #[trigger] tiles_sized(*half, tiles, halves, tiles.len() as int)
                    &&& #[trigger] fires_placed(
                        *place,
                        self.ground.fires@,
                        spots,
                        self.ground.fires@.len() as int,
                    )
                    &&& blocks@ == tile_blocks(tiles, halves) + frog_blocks(frogs, frog_half)
                        + spot_blocks(spots, fire_half) + spot_blocks(deep@, deep_half)
                },
    {
        let mut blocks: Vec<NavBlock> = Vec::new();
        let tiles: Vec<(u64, Tile)> = self.field.all();
        let ghost mut halves: Seq<Scalar> = Seq::empty();
        let mut n: usize = 0;
        while n < tiles.len()
            invariant
                n <= tiles@.len(),
                forall|t: Tile| call_requires(*half, (t,)),
                tiles_sized(*half, tiles@, halves, n as int),
                blocks@ == tile_blocks(tiles@, halves).take(n as int),
            decreases tiles@.len() - n,
        {
            let ghost were = blocks@;
            let h: Scalar = half(tiles[n].1);
            blocks.push(NavBlock { at: tiles[n].1.position, half: h });
            proof {
                let before = halves;
                halves = halves.push(h);
                assert(tile_blocks(tiles@, halves).take(n as int) =~= tile_blocks(
                    tiles@,
                    before,
                ).take(n as int));
                assert(blocks@ =~= tile_blocks(tiles@, halves).take(n + 1));
            }
            n += 1;
        }
        let ghost walls = tile_blocks(tiles@, halves);
        assert(blocks@ =~= walls);
        let frogs: Vec<(u64, Frog)> = self.field.all();
        let mut n: usize = 0;
        while n < frogs.len()
            invariant
                n <= frogs@.len(),
                blocks@ == walls + frog_blocks(frogs@, frog_half).take(n as int),
            decreases frogs@.len() - n,
        {
            blocks.push(NavBlock { at: frogs[n].1.position, half: frog_half });
            n += 1;
            assert(blocks@ =~= walls + frog_blocks(frogs@, frog_half).take(n as int));
        }
        let ghost solid = walls + frog_blocks(frogs@, frog_half);
        assert(blocks@ =~= solid);
        let ghost mut spots: Seq<Point> = Seq::empty();
        let mut n: usize = 0;
        while n < self.ground.fires.len()
            invariant
                n <= self.ground.fires@.len(),
                forall|c: Cell| call_requires(*place, (c,)),
                fires_placed(*place, self.ground.fires@, spots, n as int),
                blocks@ == solid + spot_blocks(spots, fire_half),
            decreases self.ground.fires@.len() - n,
        {
            let at: Point = place(self.ground.fires[n].cell);
            blocks.push(NavBlock { at, half: fire_half });
            proof {
                spots = spots.push(at);
                assert(blocks@ =~= solid + spot_blocks(spots, fire_half));
            }
            n += 1;
        }
        let ghost hot = solid + spot_blocks(spots, fire_half);
        let mut n: usize = 0;
        while n < deep.len()
            invariant
                n <= deep@.len(),
                blocks@ == hot + spot_blocks(deep@, deep_half).take(n as int),
            decreases deep@.len() - n,
        {
            blocks.push(NavBlock { at: deep[n], half: deep_half });
            n += 1;
            assert(blocks@ =~= hot + spot_blocks(deep@, deep_half).take(n as int));
        }
        assert(blocks@ =~= hot + spot_blocks(deep@, deep_half));
        assert(tiles_sized(*half, tiles@, halves, tiles@.len() as int));
        blocks
    }

    /// What routes are planned over: what is in the way, the portals as one hub
    /// to route through, and what a ford costs. With fewer than two portals
    /// there is no hub. A ford is open but dear: a cell of it costs at least
    /// what any other does.
    pub fn nav_grid<H: Fn(Tile) -> Scalar, F: Fn(Cell) -> Point>(
        &self,
        half: &H,
        frog_half: Scalar,
        place: &F,
        fire_half: Scalar,
        water: &NavWater,
        portal_radius: Scalar,
        hop_cost: u32,
    ) -> (plan: NavPlan)
        requires
            forall|t: Tile| call_requires(*half, (t,)),
            forall|c: Cell| call_requires(*place, (c,)),
        ensures
            exists|
                tiles: Seq<(u64, Tile)>,
                frogs: Seq<(u64, Frog)>,
                halves: Seq<Scalar>,
                spots: Seq<Point>,
            |
                {
                    &&& lists::<Tile>(self.field@, tiles)
                    &&& #[trigger] lists::<Frog>(self.field@, frogs)
                    &&& #[trigger] tiles_sized(*half, tiles, halves, tiles.len() as int)
                    &&& #[trigger] fires_placed(
                        *place,
                        self.ground.fires@,
                        spots,
                        self.ground.fires@.len() as int,
                    )
                    &&& plan.blocks@ == tile_blocks(tiles, halves) + frog_blocks(frogs, frog_half)
                        + spot_blocks(spots, fire_half) + spot_blocks(
                        water.deep@,
                        water.deep_half,
                    )
                },
            plan.hub is Some <==> self.ground.portals@.len() >= 2,
            plan.hub matches Some(hub) ==> hub.portals@ == self.ground.portals@ && hub.radius
                == portal_radius && hub.hop_cost == hop_cost,
            plan.fords@ == water.shallow@,
            plan.ford_cost == (if water.ford_cost >= 1 {
                water.ford_cost as int
            } else {
                1
            }),
    {
        let blocks: Vec<NavBlock> = self.nav_blocks(
            half,
            frog_half,
            place,
            fire_half,
            &water.deep,
            water.deep_half,
        );
        let mut hub: Option<NavHub> = None;
        if self.ground.portals.len() >= 2 {
            let portals: Vec<Point> = self.ground.portals.clone();
            assert(portals@ =~= self.ground.portals@);
            hub = Some(NavHub { portals, radius: portal_radius, hop_cost });
        }
        let fords: Vec<Point> = water.shallow.clone();
        assert(fords@ =~= water.shallow@);
        let ford_cost: u32 = if water.ford_cost >= 1 {
            water.ford_cost as u32
        } else {
            1
        };
        NavPlan { blocks, hub, fords, ford_cost }
    }
}

/// The place a lane goes on from after `k` cells.
pub open spec fn lane_place(from: Point, lane: Seq<Point>, k: int) -> Point {
    if k <= 0 {
        from
    } else {
        lane[k - 1]
    }
}

/// The lane goes on after `k` cells: nothing is in the way, and the next cell
/// is a `step` on.
pub open spec fn lane_goes_on<B: Fn(Point, Dir) -> bool, A: Fn(Point, Dir) -> Point>(
    blocked: B,
    step: A,
    from: Point,
    dir: Dir,
    lane: Seq<Point>,
    k: int,
) -> bool {
    &&& call_ensures(blocked, (lane_place(from, lane, k), dir), false)
    &&& call_ensures(step, (lane_place(from, lane, k), dir), lane[k])
}

/// The cells straight ahead, each a `step` from the one before, up to a limit
/// or to the first that is `blocked`: a shell flies further, but no tank can
/// stand there.
pub open spec fn lane_ahead<B: Fn(Point, Dir) -> bool, A: Fn(Point, Dir) -> Point>(
    blocked: B,
    step: A,
    from: Point,
    dir: Dir,
    limit: int,
    lane: Seq<Point>,
) -> bool {
    &&& lane.len() <= limit || lane.len() == 0
    &&& forall|k: int|
        0 <= k < lane.len() ==> #[trigger] lane_goes_on(blocked, step, from, dir, lane, k)
    &&& lane.len() < limit ==> call_ensures(
        blocked,
        (lane_place(from, lane, lane.len() as int), dir),
        true,
    )
}

fn lane_cells<B: Fn(Point, Dir) -> bool, A: Fn(Point, Dir) -> Point>(
    from: Point,
    dir: Dir,
    limit: i32,
    blocked: &B,
    step: &A,
) -> (lane: Vec<Point>)
    requires
        forall|p: Point, d: Dir| call_requires(*blocked, (p, d)),
        forall|p: Point, d: Dir| call_requires(*step, (p, d)),
    ensures
        lane_ahead(*blocked, *step, from, dir, limit as int, lane@),
{
    let mut lane: Vec<Point> = Vec::new();
    let mut at: Point = from;
    let mut n: i32 = 0;
    while n < limit
        invariant
            0 <= n,
            n <= limit || n == 0,
            lane@.len() == n,
            at == lane_place(from, lane@, n as int),
            forall|p: Point, d: Dir| call_requires(*blocked, (p, d)),
            forall|p: Point, d: Dir| call_requires(*step, (p, d)),
            forall|k: int|
                0 <= k < lane@.len() ==> #[trigger] lane_goes_on(
                    *blocked,
                    *step,
                    from,
                    dir,
                    lane@,
                    k,
                ),
        decreases limit - n,
    {
        if blocked(at, dir) {
            return lane;
        }
        let ghost were = lane@;
        at = step(at, dir);
        lane.push(at);
        proof {
            assert forall|k: int| 0 <= k < lane@.len() implies #[trigger] lane_goes_on(
                *blocked,
                *step,
                from,
                dir,
                lane@,
                k,
            ) by {
                assert(lane_place(from, lane@, k) == lane_place(from, were, k));
                if k < were.len() {
                    assert(lane_goes_on(*blocked, *step, from, dir, were, k));
                }
            }
        }
        n += 1;
    }
    lane
}

/// The live tanks of the first `n` seats that are on the field, by seat.
pub open spec fn live_seats(seats: Seq<Option<u64>>, pieces: Map<u64, Piece>, n: int) -> Seq<
    (u64, Tank),
>
    decreases n,
{
    if n <= 0 {
        Seq::empty()
    } else {
        let before = live_seats(seats, pieces, n - 1);
        match on_field(seats[n - 1], pieces) {
            Some(entity) => match thing::<Tank>(pieces, entity) {
                Some(t) => if t.wreck {
                    before
                } else {
                    before.push((entity, t))
                },
                None => before,
            },
            None => before,
        }
    }
}

/// The lanes the first `n` players look down, the way the host has them face;
/// one that faces none of the four ways has no lane.
pub open spec fn lanes_walked<
    D: Fn(u64, Tank) -> Option<Dir>,
    B: Fn(Point, Dir) -> bool,
    A: Fn(Point, Dir) -> Point,
>(
    facing: D,
    blocked: B,
    step: A,
    players: Seq<(u64, Tank)>,
    limit: int,
    ways: Seq<Option<Dir>>,
    lanes: Seq<Seq<Point>>,
    n: int,
) -> bool {
    &&& ways.len() == n
    &&& lanes.len() == n
    &&& forall|k: int|
        0 <= k < n ==> {
            &&& call_ensures(facing, (players[k].0, players[k].1), #[trigger] ways[k])
            &&& match ways[k] {
                Some(dir) => lane_ahead(
                    blocked,
                    step,
                    players[k].1.position,
                    dir,
                    limit,
                    lanes[k],
                ),
                None => lanes[k] == Seq::<Point>::empty(),
            }
        }
}

/// The first `n` lanes, one after the other.
pub open spec fn lanes_joined(lanes: Seq<Seq<Point>>, n: int) -> Seq<Point>
    decreases n,
{
    if n <= 0 {
        Seq::empty()
    } else {
        lanes_joined(lanes, n - 1) + lanes[n - 1]
    }
}

proof fn lemma_joined_same(a: Seq<Seq<Point>>, b: Seq<Seq<Point>>, n: int)
    requires
        0 <= n <= a.len(),
        n <= b.len(),
        forall|i: int| 0 <= i < n ==> a[i] == b[i],
    ensures
        lanes_joined(a, n) == lanes_joined(b, n),
    decreases n,
{
    if n > 0 {
        lemma_joined_same(a, b, n - 1);
    }
}

/// What a route costs and where it may lead, for the host's grid.
#[derive(Debug)]
pub struct RoutePlan {
    /// Cells a player could shoot down.
    pub lane: Vec<Point>,
    /// Where the pack stands.
    pub crowd: Vec<Point>,
    /// Where the shared routes lead.
    pub goals: Vec<Point>,
}

impl Game {
    /// The players in the fight, by seat.
    fn live_players(&self) -> (players: Vec<(u64, Tank)>)
        ensures
            players@ == live_seats(self.round.seats@, self.field@, 8),
    {
        let mut players: Vec<(u64, Tank)> = Vec::new();
        let seats: [Option<u64>; 8] = self.seats_on_field();
        let mut i: usize = 0;
        while i < MAX_SEATS
            invariant
                i <= MAX_SEATS,
                forall|k: int|
                    0 <= k < MAX_SEATS ==> #[trigger] seats@[k] == on_field(
                        self.round.seats@[k],
                        self.field@,
                    ),
                players@ == live_seats(self.round.seats@, self.field@, i as int),
            decreases MAX_SEATS - i,
        {
            if let Some(entity) = seats[i] {
                let tank: Option<Tank> = self.field.get(entity);
                if let Some(t) = tank {
                    if !t.wreck {
                        players.push((entity, t));
                    }
                }
            }
            i += 1;
        }
        players
    }

    /// What the pack's routes are weighed by: the cells in the players' lanes
    /// and the cells its own tanks stand in cost extra, each unless its cost
    /// is set to nothing, and the shared routes lead to the players and their
    /// frog.
    pub fn route_grid<
        D: Fn(u64, Tank) -> Option<Dir>,
        B: Fn(Point, Dir) -> bool,
        A: Fn(Point, Dir) -> Point,
    >(
        &self,
        lane_cost: i32,
        limit: i32,
        crowd_cost: i32,
        facing: &D,
        blocked: &B,
        step: &A,
    ) -> (plan: RoutePlan)
        requires
            forall|e: u64, t: Tank| call_requires(*facing, (e, t)),
            forall|p: Point, d: Dir| call_requires(*blocked, (p, d)),
            forall|p: Point, d: Dir| call_requires(*step, (p, d)),
        ensures
            lane_cost <= 0 ==> plan.lane@ == Seq::<Point>::empty(),
            lane_cost > 0 ==> exists|ways: Seq<Option<Dir>>, lanes: Seq<Seq<Point>>|
                {
                    &&& #[trigger] lanes_walked(
                        *facing,
                        *blocked,
                        *step,
                        live_seats(self.round.seats@, self.field@, 8),
                        limit as int,
                        ways,
                        lanes,
                        live_seats(self.round.seats@, self.field@, 8).len() as int,
                    )
                    &&& plan.lane@ == lanes_joined(lanes, lanes.len() as int)
                },
            crowd_cost <= 0 ==> plan.crowd@ == Seq::<Point>::empty(),
            crowd_cost > 0 ==> exists|pack: Seq<(u64, Tank)>|
                {
                    &&& #[trigger] selects::<Tank>(self.field@, in_the_pack(), pack)
                    &&& plan.crowd@ == Seq::new(pack.len(), |k: int| pack[k].1.position)
                },
            plan.goals@ == route_goals(self.round.seats@, self.field@, 8) + frog_goal(
                self.round.frog,
                self.field@,
            ),
    {
        let mut lane: Vec<Point> = Vec::new();
        let ghost mut ways: Seq<Option<Dir>> = Seq::empty();
        let ghost mut lanes: Seq<Seq<Point>> = Seq::empty();
        if lane_cost > 0 {
            let players: Vec<(u64, Tank)> = self.live_players();
            let mut n: usize = 0;
            while n < players.len()
                invariant
                    n <= players@.len(),
                    forall|e: u64, t: Tank| call_requires(*facing, (e, t)),
                    forall|p: Point, d: Dir| call_requires(*blocked, (p, d)),
                    forall|p: Point, d: Dir| call_requires(*step, (p, d)),
                    lanes_walked(
                        *facing,
                        *blocked,
                        *step,
                        players@,
                        limit as int,
                        ways,
                        lanes,
                        n as int,
                    ),
                    lane@ == lanes_joined(lanes, n as int),
                decreases players@.len() - n,
            {
                let (entity, t) = players[n];
                let way: Option<Dir> = facing(entity, t);
                let ghost were = (ways, lanes);
                let mut ahead: Vec<Point> = Vec::new();
                if let Some(dir) = way {
                    ahead = lane_cells(t.position, dir, limit, blocked, step);
                }
                proof {
                    ways = ways.push(way);
                    lanes = lanes.push(ahead@);
                    lemma_joined_same(were.1, lanes, n as int);
                    assert forall|k: int| 0 <= k < n + 1 implies {
                        &&& call_ensures(
                            *facing,
                            (players@[k].0, players@[k].1),
                            #[trigger] ways[k],
                        )
                        &&& match ways[k] {
                            Some(dir) => lane_ahead(
                                *blocked,
                                *step,
                                players@[k].1.position,
                                dir,
                                limit as int,
                                lanes[k],
                            ),
                            None => lanes[k] == Seq::<Point>::empty(),
                        }
                    } by {
                        if k < n {
                            assert(ways[k] == were.0[k] && lanes[k] == were.1[k]);
                        }
                    }
                }
                lane.append(&mut ahead);
                n += 1;
            }
        }
        let mut crowd: Vec<Point> = Vec::new();
        let ghost mut pack: Seq<(u64, Tank)> = Seq::empty();
        if crowd_cost > 0 {
            let stand: Vec<(u64, Tank)> = self.standing_enemies();
            let mut n: usize = 0;
            while n < stand.len()
                invariant
                    n <= stand@.len(),
                    crowd@ == Seq::new(n as nat, |k: int| stand@[k].1.position),
                decreases stand@.len() - n,
            {
                crowd.push(stand[n].1.position);
                n += 1;
                assert(crowd@ =~= Seq::new(n as nat, |k: int| stand@[k].1.position));
            }
            proof {
                pack = stand@;
            }
        }
        let goals: Vec<Point> = self.route_targets();
        let plan: RoutePlan = RoutePlan { lane, crowd, goals };
        proof {
            if lane_cost > 0 {
                assert(lanes_walked(
                    *facing,
                    *blocked,
                    *step,
                    live_seats(self.round.seats@, self.field@, 8),
                    limit as int,
                    ways,
                    lanes,
                    live_seats(self.round.seats@, self.field@, 8).len() as int,
                ));
            }
            if crowd_cost > 0 {
                assert(selects::<Tank>(self.field@, in_the_pack(), pack));
            }
        }
        plan
    }
}

/// Everything in the way is a block where it stands, as wide as it is taken to
/// be: every tile, every frog, and every place given.
pub proof fn what_stands_in_the_way_is_a_block(
    tiles: Seq<(u64, Tile)>,
    halves: Seq<Scalar>,
    frogs: Seq<(u64, Frog)>,
    spots: Seq<Point>,
    half: Scalar,
)
    ensures
        tile_blocks(tiles, halves).len() == tiles.len(),
        forall|k: int|
            0 <= k < tiles.len() ==> {
                let b = #[trigger] tile_blocks(tiles, halves)[k];
                b.at == tiles[k].1.position && b.half == halves[k]
            },
        frog_blocks(frogs, half).len() == frogs.len(),
        forall|k: int|
            0 <= k < frogs.len() ==> {
                let b = #[trigger] frog_blocks(frogs, half)[k];
                b.at == frogs[k].1.position && b.half == half
            },
        spot_blocks(spots, half).len() == spots.len(),
        forall|k: int|
            0 <= k < spots.len() ==> {
                let b = #[trigger] spot_blocks(spots, half)[k];
                b.at == spots[k] && b.half == half
            },
{
}

/// A tile in a cell closes its seam unless it is a tree or a pine.
pub proof fn trees_leave_a_seam_open(pieces: Map<u64, Piece>, cell: Cell)
    ensures
        seam_at(pieces, cell) <==> exists|id: u64|
            {
                &&& #[trigger] pieces.contains_key(id) && pieces[id] is Tile
                &&& pieces[id]->Tile_0.cell == cell
                &&& pieces[id]->Tile_0.material !is Tree && pieces[id]->Tile_0.material !is Pine
            },
{
    if seam_at(pieces, cell) {
        let id = choose|id: u64|
            (#[trigger] thing::<Tile>(pieces, id)) matches Some(t) && t.cell == cell
                && !t.material.is_tree();
        assert(pieces.contains_key(id));
    }
    assert forall|id: u64| #[trigger] pieces.contains_key(id) && pieces[id] is Tile implies thing::<
        Tile,
    >(pieces, id) == Some(pieces[id]->Tile_0) by {}
}

/// The players in the fight are the seats' tanks that run and are on the
/// battlefield.
pub proof fn every_running_seat_is_in_the_fight(
    seats: Seq<Option<u64>>,
    pieces: Map<u64, Piece>,
    n: int,
    e: u64,
    t: Tank,
)
    requires
        0 <= n <= seats.len(),
    ensures
        live_seats(seats, pieces, n).contains((e, t)) <==> pieces.contains_key(e) && pieces[e]
            == Piece::Tank(t) && !t.wreck && !t.rolling_in && exists|s: int|
            0 <= s < n && #[trigger] seats[s] == Some(e),
    decreases n,
{
    if n > 0 {
        every_running_seat_is_in_the_fight(seats, pieces, n - 1, e, t);
        let before = live_seats(seats, pieces, n - 1);
        let id = seats[n - 1]->0;
        if seats[n - 1] is Some && thing::<Tank>(pieces, id) is Some {
            lemma_pushed(before, (id, thing::<Tank>(pieces, id)->0), (e, t));
        }
    }
}

/// Every cell of every lane is among the cells a player could shoot down, and
/// no other.
pub proof fn every_lane_is_walked(lanes: Seq<Seq<Point>>, n: int, at: Point)
    requires
        0 <= n <= lanes.len(),
    ensures
        lanes_joined(lanes, n).contains(at) <==> exists|k: int|
            0 <= k < n && (#[trigger] lanes[k]).contains(at),
    decreases n,
{
    if n > 0 {
        every_lane_is_walked(lanes, n - 1, at);
        let (before, last) = (lanes_joined(lanes, n - 1), lanes[n - 1]);
        let now = before + last;
        if before.contains(at) {
            let i = choose|i: int| 0 <= i < before.len() && before[i] == at;
            assert(now[i] == at);
        }
        if last.contains(at) {
            let i = choose|i: int| 0 <= i < last.len() && last[i] == at;
            assert(now[before.len() + i] == at);
        }
        if now.contains(at) {
            let i = choose|i: int| 0 <= i < now.len() && now[i] == at;
            if i < before.len() {
                assert(before[i] == at);
            } else {
                assert(last[i - before.len()] == at);
            }
        }
    }
}

} // verus!
