//! A frame's static terrain, and what a line meets in it.
//!
//! The host measures when a line enters a box; which boxes there are, whose
//! they are and which of them stop a shot or a look are decided here.

use vstd::prelude::*;

use crate::field::{lists, selects};
use crate::game::Game;
use crate::hits::{
    find_box, line_of_sight, obstacle, sweep_ignoring, swept, Candidate, ShellTarget, TerrainBox,
};
use crate::kinds::Owner;
use crate::pieces::{Frog, Tank, Tile};
use crate::scalar::{Point, Scalar};

verus! {

/// A tile that is not about to be cleared away.
pub open spec fn upright() -> spec_fn(Tile) -> bool {
    |t: Tile| !t.destroyed
}

/// The hit boxes of some tiles, each as wide as the host has it.
pub open spec fn boxes_of(tiles: Seq<(u64, Tile)>, halves: Seq<Point>) -> Seq<TerrainBox> {
    Seq::new(
        tiles.len(),
        |k: int|
            TerrainBox {
                entity: tiles[k].0,
                center: tiles[k].1.position,
                half: halves[k],
                material: tiles[k].1.material,
            },
    )
}

/// How wide the host takes each tile to be.
pub open spec fn boxes_sized<H: Fn(Tile) -> Point>(
    half: H,
    tiles: Seq<(u64, Tile)>,
    halves: Seq<Point>,
    n: int,
) -> bool {
    halves.len() == n && forall|k: int|
        0 <= k < n ==> call_ensures(half, (tiles[k].1,), #[trigger] halves[k])
}

/// What is solid this frame.
#[derive(Debug)]
pub struct Terrain {
    pub obstacles: Vec<TerrainBox>,
    pub frogs: Vec<(u64, Point)>,
    /// The edges of the field: centre and half extent.
    pub walls: Vec<(Point, Point)>,
}

impl Terrain {
    /// The static terrain: every tile that still stands, and every frog.
    pub fn build<H: Fn(Tile) -> Point>(game: &Game, walls: Vec<(Point, Point)>, half: &H) -> (terrain:
        Terrain)
        requires
            forall|t: Tile| call_requires(*half, (t,)),
        ensures
            exists|tiles: Seq<(u64, Tile)>, halves: Seq<Point>|
                {
                    &&& selects::<Tile>(game.field@, upright(), tiles)
                    &&& #[trigger] boxes_sized(*half, tiles, halves, tiles.len() as int)
                    &&& terrain.obstacles@ == boxes_of(tiles, halves)
                },
            exists|frogs: Seq<(u64, Frog)>|
                {
                    &&& #[trigger] lists::<Frog>(game.field@, frogs)
                    &&& terrain.frogs@ == Seq::new(
                        frogs.len(),
                        |k: int| (frogs[k].0, frogs[k].1.position),
                    )
                },
            terrain.walls == walls,
    {
        let test = |t: Tile| -> (b: bool)
            ensures
                b == !t.destroyed,
        { !t.destroyed };
        let tiles: Vec<(u64, Tile)> = game.field.select(Ghost(upright()), test);
        let ghost mut halves: Seq<Point> = Seq::empty();
        let mut obstacles: Vec<TerrainBox> = Vec::new();
        let mut n: usize = 0;
        while n < tiles.len()
            invariant
                n <= tiles@.len(),
                forall|t: Tile| call_requires(*half, (t,)),
                boxes_sized(*half, tiles@, halves, n as int),
                obstacles@ == boxes_of(tiles@, halves).take(n as int),
            decreases tiles@.len() - n,
        {
            let (entity, t) = tiles[n];
            let wide: Point = half(t);
            let ghost were = halves;
            obstacles.push(
                TerrainBox { entity, center: t.position, half: wide, material: t.material },
            );
            proof {
                halves = halves.push(wide);
                assert(boxes_of(tiles@, were).take(n as int) =~= boxes_of(tiles@, halves).take(
                    n as int,
                ));
                assert(obstacles@ =~= boxes_of(tiles@, halves).take(n + 1));
            }
            n += 1;
        }
        assert(obstacles@ =~= boxes_of(tiles@, halves));
        let all: Vec<(u64, Frog)> = game.field.all();
        let mut frogs: Vec<(u64, Point)> = Vec::new();
        let mut n: usize = 0;
        while n < all.len()
            invariant
                n <= all@.len(),
                frogs@ == Seq::new(n as nat, |k: int| (all@[k].0, all@[k].1.position)),
            decreases all@.len() - n,
        {
            frogs.push((all[n].0, all[n].1.position));
            n += 1;
            assert(frogs@ =~= Seq::new(n as nat, |k: int| (all@[k].0, all@[k].1.position)));
        }
        let terrain: Terrain = Terrain { obstacles, frogs, walls };
        assert(boxes_sized(*half, tiles@, halves, tiles@.len() as int));
        assert(lists::<Frog>(game.field@, all@));
        terrain
    }

    /// The hit box of one obstacle, if it is in this snapshot.
    pub fn obstacle(&self, entity: u64) -> (r: Option<TerrainBox>)
        ensures
            r == find_box(self.obstacles@, entity),
    {
        obstacle(&self.obstacles, entity)
    }

    /// Where every obstacle is, for a frog's hop.
    pub fn obstacle_centers(&self) -> (centers: Vec<Point>)
        ensures
            centers@ == Seq::new(self.obstacles@.len(), |k: int| self.obstacles@[k].center),
    {
        let mut centers: Vec<Point> = Vec::new();
        let mut n: usize = 0;
        while n < self.obstacles.len()
            invariant
                n <= self.obstacles@.len(),
                centers@ == Seq::new(n as nat, |k: int| self.obstacles@[k].center),
            decreases self.obstacles@.len() - n,
        {
            centers.push(self.obstacles[n].center);
            n += 1;
            assert(centers@ =~= Seq::new(n as nat, |k: int| self.obstacles@[k].center));
        }
        centers
    }
}

/// Whether the host has a line enter each box.
pub open spec fn boxes_crossed<E: Fn(Point, Point) -> bool>(
    crosses: E,
    boxes: Seq<TerrainBox>,
    enters: Seq<bool>,
    n: int,
) -> bool {
    enters.len() == n && forall|k: int|
        0 <= k < n ==> call_ensures(
            crosses,
            (boxes[k].center, boxes[k].half),
            #[trigger] enters[k],
        )
}

/// Whether it enters each frog's.
pub open spec fn frogs_crossed<E: Fn(Point, Point) -> bool>(
    crosses: E,
    frogs: Seq<(u64, Point)>,
    half: Point,
    enters: Seq<bool>,
    n: int,
) -> bool {
    enters.len() == n && forall|k: int|
        0 <= k < n ==> call_ensures(crosses, (frogs[k].1, half), #[trigger] enters[k])
}

/// When a shot enters each box it could meet, as the host measures it.
#[verifier::ext_equal]
pub struct Meets {
    pub hulls: Seq<Option<Scalar>>,
    pub turrets: Seq<Option<Scalar>>,
    pub frogs: Seq<Option<Scalar>>,
    pub boxes: Seq<Option<Scalar>>,
    pub walls: Seq<Option<Scalar>>,
}

/// The measurements are the host's, one for every box.
pub open spec fn all_met<
    U: Fn(Tank) -> Option<Scalar>,
    V: Fn(Tank) -> Option<Scalar>,
    E: Fn(Point, Point) -> Option<Scalar>,
>(
    hull: U,
    turret: V,
    enters: E,
    frog_half: Point,
    terrain: Terrain,
    tanks: Seq<(u64, Tank)>,
    m: Meets,
) -> bool {
    &&& tanks_met(hull, turret, tanks, m.hulls, m.turrets, tanks.len() as int)
    &&& m.frogs.len() == terrain.frogs@.len() && forall|k: int|
        0 <= k < m.frogs.len() ==> call_ensures(
            enters,
            (terrain.frogs@[k].1, frog_half),
            #[trigger] m.frogs[k],
        )
    &&& m.boxes.len() == terrain.obstacles@.len() && forall|k: int|
        0 <= k < m.boxes.len() ==> call_ensures(
            enters,
            (terrain.obstacles@[k].center, terrain.obstacles@[k].half),
            #[trigger] m.boxes[k],
        )
    &&& m.walls.len() == terrain.walls@.len() && forall|k: int|
        0 <= k < m.walls.len() ==> call_ensures(
            enters,
            (terrain.walls@[k].0, terrain.walls@[k].1),
            #[trigger] m.walls[k],
        )
}

/// When a shot enters the hulls and the turrets of the first `n` tanks.
pub open spec fn tanks_met<U: Fn(Tank) -> Option<Scalar>, V: Fn(Tank) -> Option<Scalar>>(
    hull: U,
    turret: V,
    tanks: Seq<(u64, Tank)>,
    hulls: Seq<Option<Scalar>>,
    turrets: Seq<Option<Scalar>>,
    n: int,
) -> bool {
    &&& hulls.len() == n
    &&& turrets.len() == n
    &&& forall|k: int|
        0 <= k < n ==> {
            &&& call_ensures(hull, (tanks[k].1,), #[trigger] hulls[k])
            &&& call_ensures(turret, (tanks[k].1,), turrets[k])
        }
}

/// A tank as a shot's target: an enemy has a mind of its own.
pub open spec fn tank_target(entity: u64, t: Tank) -> ShellTarget {
    if t.mind is Some {
        ShellTarget::EnemyTank(entity)
    } else {
        ShellTarget::PlayerTank(entity)
    }
}

/// The hulls and turrets of the first `n` tanks as candidates.
pub open spec fn tank_candidates(
    tanks: Seq<(u64, Tank)>,
    hulls: Seq<Option<Scalar>>,
    turrets: Seq<Option<Scalar>>,
    n: int,
) -> Seq<Candidate>
    decreases n,
{
    if n <= 0 {
        Seq::empty()
    } else {
        let (entity, t) = tanks[n - 1];
        let target = tank_target(entity, t);
        let (owner, wreck) = (Some(t.owner), t.wreck);
        tank_candidates(tanks, hulls, turrets, n - 1).push(
            Candidate { target, owner, wreck, enters: hulls[n - 1] },
        ).push(Candidate { target, owner, wreck, enters: turrets[n - 1] })
    }
}

/// A box that is nobody's.
pub open spec fn unowned(target: ShellTarget, enters: Option<Scalar>) -> Candidate {
    Candidate { target, owner: None, wreck: false, enters }
}

/// Everything a shot could meet: tanks, frogs, obstacles and walls.
pub open spec fn candidates_of(terrain: Terrain, tanks: Seq<(u64, Tank)>, m: Meets) -> Seq<Candidate> {
    tank_candidates(tanks, m.hulls, m.turrets, tanks.len() as int) + Seq::new(
        m.frogs.len(),
        |k: int| unowned(ShellTarget::Frog(terrain.frogs@[k].0), m.frogs[k]),
    ) + Seq::new(
        m.boxes.len(),
        |k: int| unowned(ShellTarget::Obstacle(terrain.obstacles@[k].entity), m.boxes[k]),
    ) + Seq::new(m.walls.len(), |k: int| unowned(ShellTarget::Wall, m.walls[k]))
}

proof fn lemma_tanks_same(
    tanks: Seq<(u64, Tank)>,
    a: Seq<Option<Scalar>>,
    b: Seq<Option<Scalar>>,
    x: Seq<Option<Scalar>>,
    y: Seq<Option<Scalar>>,
    n: int,
)
    requires
        0 <= n <= a.len(),
        n <= b.len(),
        n <= x.len(),
        n <= y.len(),
        forall|i: int| 0 <= i < n ==> a[i] == x[i],
        forall|i: int| 0 <= i < n ==> b[i] == y[i],
    ensures
        tank_candidates(tanks, a, b, n) == tank_candidates(tanks, x, y, n),
    decreases n,
{
    if n > 0 {
        lemma_tanks_same(tanks, a, b, x, y, n - 1);
    }
}

impl Terrain {
    /// Whether a line clears every obstacle that is not low enough to see over
    /// and every frog. Blind to tanks and to the edges of the field. `crosses`
    /// has the line enter a box.
    pub fn line_of_sight<E: Fn(Point, Point) -> bool>(&self, frog_half: Point, crosses: &E) -> (clear:
        bool)
        requires
            forall|c: Point, h: Point| call_requires(*crosses, (c, h)),
        ensures
            exists|boxes: Seq<bool>, frogs: Seq<bool>|
                {
                    &&& #[trigger] boxes_crossed(
                        *crosses,
                        self.obstacles@,
                        boxes,
                        self.obstacles@.len() as int,
                    )
                    &&& #[trigger] frogs_crossed(
                        *crosses,
                        self.frogs@,
                        frog_half,
                        frogs,
                        self.frogs@.len() as int,
                    )
                    &&& clear == ((forall|i: int|
                        0 <= i < boxes.len() ==> !(#[trigger] boxes[i]
                            && !self.obstacles@[i].material.sees_over())) && (forall|i: int|
                        0 <= i < frogs.len() ==> !(#[trigger] frogs[i])))
                },
    {
        let mut boxes: Vec<bool> = Vec::new();
        let mut n: usize = 0;
        while n < self.obstacles.len()
            invariant
                n <= self.obstacles@.len(),
                forall|c: Point, h: Point| call_requires(*crosses, (c, h)),
                boxes_crossed(*crosses, self.obstacles@, boxes@, n as int),
            decreases self.obstacles@.len() - n,
        {
            boxes.push(crosses(self.obstacles[n].center, self.obstacles[n].half));
            n += 1;
        }
        let mut frogs: Vec<bool> = Vec::new();
        let mut n: usize = 0;
        while n < self.frogs.len()
            invariant
                n <= self.frogs@.len(),
                forall|c: Point, h: Point| call_requires(*crosses, (c, h)),
                frogs_crossed(*crosses, self.frogs@, frog_half, frogs@, n as int),
            decreases self.frogs@.len() - n,
        {
            frogs.push(crosses(self.frogs[n].1, frog_half));
            n += 1;
        }
        let clear: bool = line_of_sight(&self.obstacles, &boxes, &frogs);
        assert(boxes_crossed(
            *crosses,
            self.obstacles@,
            boxes@,
            self.obstacles@.len() as int,
        ));
        assert(frogs_crossed(
            *crosses,
            self.frogs@,
            frog_half,
            frogs@,
            self.frogs@.len() as int,
        ));
        clear
    }

    /// Everything a shot could meet, and when it would: every tank's hull and
    /// turret, every frog, every obstacle and the edges of the field.
    pub fn candidates<
        U: Fn(Tank) -> Option<Scalar>,
        V: Fn(Tank) -> Option<Scalar>,
        E: Fn(Point, Point) -> Option<Scalar>,
    >(&self, game: &Game, frog_half: Point, hull: &U, turret: &V, enters: &E) -> (cs: Vec<Candidate>)
        requires
            forall|t: Tank| call_requires(*hull, (t,)),
            forall|t: Tank| call_requires(*turret, (t,)),
            forall|c: Point, h: Point| call_requires(*enters, (c, h)),
        ensures
            exists|tanks: Seq<(u64, Tank)>, m: Meets|
                {
                    &&& lists::<Tank>(game.field@, tanks)
                    &&& #[trigger] all_met(*hull, *turret, *enters, frog_half, *self, tanks, m)
                    &&& cs@ == candidates_of(*self, tanks, m)
                },
    {
        let ghost mut m = Meets {
            hulls: Seq::empty(),
            turrets: Seq::empty(),
            frogs: Seq::empty(),
            boxes: Seq::empty(),
            walls: Seq::empty(),
        };
        let mut cs: Vec<Candidate> = Vec::new();
        let tanks: Vec<(u64, Tank)> = game.field.all();
        let mut n: usize = 0;
        while n < tanks.len()
            invariant
                n <= tanks@.len(),
                forall|t: Tank| call_requires(*hull, (t,)),
                forall|t: Tank| call_requires(*turret, (t,)),
                tanks_met(*hull, *turret, tanks@, m.hulls, m.turrets, n as int),
                m.frogs.len() == 0,
                m.boxes.len() == 0,
                m.walls.len() == 0,
                cs@ == tank_candidates(tanks@, m.hulls, m.turrets, n as int),
            decreases tanks@.len() - n,
        {
            let (entity, t) = tanks[n];
            let target: ShellTarget = match t.mind {
                Some(_) => ShellTarget::EnemyTank(entity),
                None => ShellTarget::PlayerTank(entity),
            };
            let at_hull: Option<Scalar> = hull(t);
            let at_turret: Option<Scalar> = turret(t);
            cs.push(
                Candidate { target, owner: Some(t.owner), wreck: t.wreck, enters: at_hull },
            );
            cs.push(
                Candidate { target, owner: Some(t.owner), wreck: t.wreck, enters: at_turret },
            );
            proof {
                let were = m;
                m = Meets {
                    hulls: m.hulls.push(at_hull),
                    turrets: m.turrets.push(at_turret),
                    ..m
                };
                lemma_tanks_same(
                    tanks@,
                    were.hulls,
                    were.turrets,
                    m.hulls,
                    m.turrets,
                    n as int,
                );
                assert forall|k: int| 0 <= k < n + 1 implies {
                    &&& call_ensures(*hull, (tanks@[k].1,), #[trigger] m.hulls[k])
                    &&& call_ensures(*turret, (tanks@[k].1,), m.turrets[k])
                } by {
                    if k < n {
                        assert(m.hulls[k] == were.hulls[k] && m.turrets[k] == were.turrets[k]);
                    }
                }
            }
            n += 1;
        }
        let ghost first = cs@;
        let mut n: usize = 0;
        while n < self.frogs.len()
            invariant
                n <= self.frogs@.len(),
                forall|c: Point, h: Point| call_requires(*enters, (c, h)),
                tanks_met(*hull, *turret, tanks@, m.hulls, m.turrets, tanks@.len() as int),
                first == tank_candidates(tanks@, m.hulls, m.turrets, tanks@.len() as int),
                m.frogs.len() == n,
                m.boxes.len() == 0,
                m.walls.len() == 0,
                forall|k: int|
                    0 <= k < m.frogs.len() ==> call_ensures(
                        *enters,
                        (self.frogs@[k].1, frog_half),
                        #[trigger] m.frogs[k],
                    ),
                cs@ == first + Seq::new(
                    m.frogs.len(),
                    |k: int| unowned(ShellTarget::Frog(self.frogs@[k].0), m.frogs[k]),
                ),
            decreases self.frogs@.len() - n,
        {
            let at: Option<Scalar> = enters(self.frogs[n].1, frog_half);
            cs.push(
                Candidate {
                    target: ShellTarget::Frog(self.frogs[n].0),
                    owner: None,
                    wreck: false,
                    enters: at,
                },
            );
            proof {
                m = Meets { frogs: m.frogs.push(at), ..m };
                assert(cs@ =~= first + Seq::new(
                    m.frogs.len(),
                    |k: int| unowned(ShellTarget::Frog(self.frogs@[k].0), m.frogs[k]),
                ));
            }
            n += 1;
        }
        let ghost second = cs@;
        let mut n: usize = 0;
        while n < self.obstacles.len()
            invariant
                n <= self.obstacles@.len(),
                forall|c: Point, h: Point| call_requires(*enters, (c, h)),
                tanks_met(*hull, *turret, tanks@, m.hulls, m.turrets, tanks@.len() as int),
                m.frogs.len() == self.frogs@.len(),
                forall|k: int|
                    0 <= k < m.frogs.len() ==> call_ensures(
                        *enters,
                        (self.frogs@[k].1, frog_half),
                        #[trigger] m.frogs[k],
                    ),
                second == tank_candidates(tanks@, m.hulls, m.turrets, tanks@.len() as int)
                    + Seq::new(
                    m.frogs.len(),
                    |k: int| unowned(ShellTarget::Frog(self.frogs@[k].0), m.frogs[k]),
                ),
                m.boxes.len() == n,
                m.walls.len() == 0,
                forall|k: int|
                    0 <= k < m.boxes.len() ==> call_ensures(
                        *enters,
                        (self.obstacles@[k].center, self.obstacles@[k].half),
                        #[trigger] m.boxes[k],
                    ),
                cs@ == second + Seq::new(
                    m.boxes.len(),
                    |k: int|
                        unowned(ShellTarget::Obstacle(self.obstacles@[k].entity), m.boxes[k]),
                ),
            decreases self.obstacles@.len() - n,
        {
            let b: TerrainBox = self.obstacles[n];
            let at: Option<Scalar> = enters(b.center, b.half);
            cs.push(
                Candidate {
                    target: ShellTarget::Obstacle(b.entity),
                    owner: None,
                    wreck: false,
                    enters: at,
                },
            );
            proof {
                m = Meets { boxes: m.boxes.push(at), ..m };
                assert(cs@ =~= second + Seq::new(
                    m.boxes.len(),
                    |k: int|
                        unowned(ShellTarget::Obstacle(self.obstacles@[k].entity), m.boxes[k]),
                ));
            }
            n += 1;
        }
        let ghost third = cs@;
        let ghost before = m;
        let mut n: usize = 0;
        while n < self.walls.len()
            invariant
                n <= self.walls@.len(),
                forall|c: Point, h: Point| call_requires(*enters, (c, h)),
                m.walls.len() == n,
                forall|k: int|
                    0 <= k < m.walls.len() ==> call_ensures(
                        *enters,
                        (self.walls@[k].0, self.walls@[k].1),
                        #[trigger] m.walls[k],
                    ),
                m == (Meets { walls: m.walls, ..before }),
                cs@ == third + Seq::new(
                    m.walls.len(),
                    |k: int| unowned(ShellTarget::Wall, m.walls[k]),
                ),
            decreases self.walls@.len() - n,
        {
            let at: Option<Scalar> = enters(self.walls[n].0, self.walls[n].1);
            cs.push(
                Candidate { target: ShellTarget::Wall, owner: None, wreck: false, enters: at },
            );
            proof {
                m = Meets { walls: m.walls.push(at), ..m };
                assert(cs@ =~= third + Seq::new(
                    m.walls.len(),
                    |k: int| unowned(ShellTarget::Wall, m.walls[k]),
                ));
            }
            n += 1;
        }
        assert(all_met(*hull, *turret, *enters, frog_half, *self, tanks@, m));
        cs
    }

    /// The first thing a shot meets, flying over the `ignored` tiles: the
    /// nearest wins, the shooter's own boxes and every wreck's are skipped.
    pub fn sweep<
        U: Fn(Tank) -> Option<Scalar>,
        V: Fn(Tank) -> Option<Scalar>,
        E: Fn(Point, Point) -> Option<Scalar>,
    >(
        &self,
        game: &Game,
        shooter: Owner,
        ignored: &Vec<u64>,
        frog_half: Point,
        hull: &U,
        turret: &V,
        enters: &E,
    ) -> (hit: Option<(ShellTarget, Scalar)>)
        requires
            forall|t: Tank| call_requires(*hull, (t,)),
            forall|t: Tank| call_requires(*turret, (t,)),
            forall|c: Point, h: Point| call_requires(*enters, (c, h)),
        ensures
            exists|tanks: Seq<(u64, Tank)>, m: Meets|
                {
                    &&& lists::<Tank>(game.field@, tanks)
                    &&& #[trigger] all_met(*hull, *turret, *enters, frog_half, *self, tanks, m)
                    &&& hit == swept(candidates_of(*self, tanks, m), shooter, ignored@)
                },
    {
        let cs: Vec<Candidate> = self.candidates(game, frog_half, hull, turret, enters);
        sweep_ignoring(&cs, shooter, ignored)
    }
}

/// Every standing tile is an obstacle where it is, as wide as the host has it
/// and made of what it is made of.
pub proof fn every_standing_tile_is_an_obstacle(
    tiles: Seq<(u64, Tile)>,
    halves: Seq<Point>,
    k: int,
    t: Tile,
)
    requires
        0 <= k < tiles.len(),
    ensures
        boxes_of(tiles, halves).len() == tiles.len(),
        ({
            let b = boxes_of(tiles, halves)[k];
            &&& b.entity == tiles[k].0 && b.center == tiles[k].1.position
            &&& b.half == halves[k] && b.material == tiles[k].1.material
        }),
        upright()(t) <==> !t.destroyed,
{
}

proof fn lemma_tank_candidates(
    tanks: Seq<(u64, Tank)>,
    hulls: Seq<Option<Scalar>>,
    turrets: Seq<Option<Scalar>>,
    n: int,
)
    requires
        0 <= n <= tanks.len(),
    ensures
        ({
            let cs = tank_candidates(tanks, hulls, turrets, n);
            &&& cs.len() == 2 * n
            &&& forall|k: int|
                #![trigger tanks[k]]
                0 <= k < n ==> {
                    let (hull, turret) = (cs[2 * k], cs[2 * k + 1]);
                    &&& hull.enters == hulls[k] && turret.enters == turrets[k]
                    &&& hull.owner == Some(tanks[k].1.owner) && turret.owner == hull.owner
                    &&& hull.wreck == tanks[k].1.wreck && turret.wreck == hull.wreck
                    &&& hull.target == turret.target
                    &&& tanks[k].1.mind is Some ==> hull.target == ShellTarget::EnemyTank(
                        tanks[k].0,
                    )
                    &&& tanks[k].1.mind is None ==> hull.target == ShellTarget::PlayerTank(
                        tanks[k].0,
                    )
                }
        }),
    decreases n,
{
    if n > 0 {
        lemma_tank_candidates(tanks, hulls, turrets, n - 1);
    }
}

/// A shot can meet every tank's hull and turret, whose they are and wrecks told
/// apart, and every frog, obstacle and wall, which are nobody's.
pub proof fn a_shot_can_meet_everything(
    terrain: Terrain,
    tanks: Seq<(u64, Tank)>,
    m: Meets,
    k: int,
)
    requires
        m.hulls.len() == tanks.len(),
        m.turrets.len() == tanks.len(),
    ensures
        ({
            let cs = candidates_of(terrain, tanks, m);
            let (f, b) = (2 * tanks.len(), 2 * tanks.len() + m.frogs.len());
            let w = b + m.boxes.len();
            &&& cs.len() == w + m.walls.len()
            &&& 0 <= k < tanks.len() ==> {
                let (hull, turret) = (cs[2 * k], cs[2 * k + 1]);
                &&& hull.enters == m.hulls[k] && turret.enters == m.turrets[k]
                &&& hull.owner == Some(tanks[k].1.owner) && turret.owner == hull.owner
                &&& hull.wreck == tanks[k].1.wreck && turret.wreck == hull.wreck
                &&& tanks[k].1.mind is Some ==> hull.target == ShellTarget::EnemyTank(tanks[k].0)
                    && turret.target == hull.target
                &&& tanks[k].1.mind is None ==> hull.target == ShellTarget::PlayerTank(tanks[k].0)
                    && turret.target == hull.target
            }
            &&& 0 <= k < m.frogs.len() ==> cs[f + k].target == ShellTarget::Frog(
                terrain.frogs@[k].0,
            ) && cs[f + k].enters == m.frogs[k] && cs[f + k].owner is None && !cs[f + k].wreck
            &&& 0 <= k < m.boxes.len() ==> cs[b + k].target == ShellTarget::Obstacle(
                terrain.obstacles@[k].entity,
            ) && cs[b + k].enters == m.boxes[k] && cs[b + k].owner is None && !cs[b + k].wreck
            &&& 0 <= k < m.walls.len() ==> cs[w + k].target is Wall && cs[w + k].enters
                == m.walls[k] && cs[w + k].owner is None && !cs[w + k].wreck
        }),
{
    lemma_tank_candidates(tanks, m.hulls, m.turrets, tanks.len() as int);
    if 0 <= k < tanks.len() {
        let cs = tank_candidates(tanks, m.hulls, m.turrets, tanks.len() as int);
        assert(cs[2 * k].owner == Some(tanks[k].1.owner));
    }
}

} // verus!
