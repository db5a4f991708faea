//! The flamethrower's stream: what one frame of a held trigger does to the
//! tanks, the frogs, the ground and the tiles inside its cone.
//!
//! The one weapon that damages by rate rather than by hit: nothing here rolls
//! anything. Everything on the ground reacts through exposure: cells and tiles
//! gather seconds under the stream and lose them when it moves on, and each
//! thing catches at its own threshold. A quick sweep soots without lighting;
//! holding on a spot sets it alight.

use vstd::prelude::*;

use crate::combat::{alerted, target_of};
use crate::event::{Event, HitTarget};
use crate::frame::{Frame, Record, ShockKind};
use crate::kinds::{Cell, Material};
use crate::pieces::{Frog, Fuse, Mind, Tank, Tile};
use crate::props::{fused, light_cell, lit, GroundFire, Spark};
use crate::ranking::{sort_ranked, Ranked};
use crate::scalar::{Point, Scalar};

verus! {

impl Ranked for Cell {
    /// By column, and by row within a column.
    open spec fn ahead(self, other: Cell) -> bool {
        self.col < other.col || (self.col == other.col && self.row < other.row)
    }

    proof fn ranks(a: Cell, b: Cell, c: Cell) {
    }

    fn is_ahead(&self, other: &Cell) -> (r: bool) {
        self.col < other.col || (self.col == other.col && self.row < other.row)
    }
}

/// Every cell once, in order.
pub open spec fn listed(cells: Seq<Cell>) -> bool {
    forall|i: int, j: int|
        0 <= i < j < cells.len() ==> (#[trigger] cells[i]).ahead(#[trigger] cells[j])
}

/// The same cells, each once, in order.
pub fn sorted_cells(cells: &Vec<Cell>) -> (r: Vec<Cell>)
    ensures
        listed(r@),
        forall|c: Cell| #[trigger] r@.contains(c) <==> cells@.contains(c),
{
    let sorted: Vec<Cell> = sort_ranked(cells);
    let mut out: Vec<Cell> = Vec::new();
    let mut n: usize = 0;
    proof {
        crate::ranking::ranking_sorts(cells@);
    }
    while n < sorted.len()
        invariant
            n <= sorted@.len(),
            crate::ranking::in_order(sorted@),
            listed(out@),
            forall|i: int| 0 <= i < out@.len() ==> sorted@.take(n as int).contains(#[trigger] out@[i]),
            forall|i: int| 0 <= i < n ==> out@.contains(#[trigger] sorted@[i]),
            n > 0 ==> out@.len() > 0 && out@.last() == sorted@[n - 1],
        decreases sorted@.len() - n,
    {
        let c: Cell = sorted[n];
        let ghost before = out@;
        let repeat: bool = out.len() > 0 && out[out.len() - 1] == c;
        if !repeat {
            out.push(c);
        }
        proof {
            let now = sorted@.take(n + 1);
            assert(now[n as int] == c);
            assert forall|i: int| 0 <= i < out@.len() implies now.contains(#[trigger] out@[i]) by {
                if i < before.len() {
                    assert(sorted@.take(n as int).contains(before[i]));
                    let m = choose|m: int| 0 <= m < n && sorted@.take(n as int)[m] == before[i];
                    assert(now[m] == out@[i]);
                }
            }
            assert forall|i: int| 0 <= i < n + 1 implies out@.contains(#[trigger] sorted@[i]) by {
                if i < n {
                    let m = choose|m: int| 0 <= m < before.len() && before[m] == sorted@[i];
                    assert(out@[m] == sorted@[i]);
                } else {
                    assert(out@[out@.len() - 1] == c);
                }
            }
            assert forall|i: int, j: int| 0 <= i < j < out@.len() implies (
            #[trigger] out@[i]).ahead(#[trigger] out@[j]) by {
                if j == before.len() {
                    assert(sorted@.take(n as int).contains(before[i]));
                    let m = choose|m: int| 0 <= m < n && sorted@.take(n as int)[m] == before[i];
                    assert(sorted@[m] == before[i]);
                    assert(!sorted@[n as int].ahead(sorted@[m]));
                    assert(!sorted@[n - 1].ahead(sorted@[m]));
                    assert(!sorted@[n as int].ahead(sorted@[n - 1]));
                    assert(before.last() == sorted@[n - 1]);
                    if i < before.len() - 1 {
                        assert(before[i].ahead(before[before.len() - 1]));
                    }
                }
            }
        }
        n += 1;
    }
    proof {
        assert(sorted@.take(n as int) =~= sorted@);
        assert forall|c: Cell| #[trigger] out@.contains(c) <==> cells@.contains(c) by {
            if out@.contains(c) {
                let i = choose|i: int| 0 <= i < out@.len() && out@[i] == c;
                assert(sorted@.contains(out@[i]));
                let m = choose|m: int| 0 <= m < sorted@.len() && sorted@[m] == c;
                crate::ranking::same_members(sorted@, cells@, m);
            }
            if cells@.contains(c) {
                let m = choose|m: int| 0 <= m < cells@.len() && cells@[m] == c;
                crate::ranking::same_members(cells@, sorted@, m);
                let k = choose|k: int| 0 <= k < sorted@.len() && sorted@[k] == c;
                assert(out@.contains(sorted@[k]));
            }
        }
    }
    out
}

/// Two lists of the same cells, each once and in order, are the same list.
pub proof fn a_cell_list_is_unique(a: Seq<Cell>, b: Seq<Cell>)
    requires
        listed(a),
        listed(b),
        forall|c: Cell| #[trigger] a.contains(c) <==> b.contains(c),
    ensures
        a == b,
    decreases a.len(),
{
    if a.len() == 0 {
        if b.len() > 0 {
            assert(b.contains(b[0]));
            assert(!a.contains(b[0]));
        }
        assert(a =~= b);
    } else {
        assert(a.contains(a.last()) && a.last() == a[a.len() - 1]);
        assert(b.contains(a.last()));
        assert(b.len() > 0);
        assert(b.contains(b.last()) && b.last() == b[b.len() - 1]);
        assert(a.contains(b.last()));
        let i = choose|i: int| 0 <= i < b.len() && b[i] == a.last();
        let j = choose|j: int| 0 <= j < a.len() && a[j] == b.last();
        if i < b.len() - 1 {
            assert(b[i].ahead(b[b.len() - 1]));
            if j < a.len() - 1 {
                assert(a[j].ahead(a[a.len() - 1]));
            }
        }
        assert(a.last() == b.last());
        let (x, y) = (a.drop_last(), b.drop_last());
        assert forall|c: Cell| #[trigger] x.contains(c) <==> y.contains(c) by {
            if x.contains(c) {
                let k = choose|k: int| 0 <= k < x.len() && x[k] == c;
                assert(a[k].ahead(a[a.len() - 1]));
                assert(a.contains(a[k]));
                assert(b.contains(c));
                let m = choose|m: int| 0 <= m < b.len() && b[m] == c;
                assert(m < b.len() - 1);
                assert(y[m] == c);
            }
            if y.contains(c) {
                let k = choose|k: int| 0 <= k < y.len() && y[k] == c;
                assert(b[k].ahead(b[b.len() - 1]));
                assert(b.contains(b[k]));
                assert(a.contains(c));
                let m = choose|m: int| 0 <= m < a.len() && a[m] == c;
                assert(m < a.len() - 1);
                assert(x[m] == c);
            }
        }
        a_cell_list_is_unique(x, y);
        assert(a =~= x.push(a.last()));
        assert(b =~= y.push(b.last()));
    }
}

/// A ground cell's exposure, in seconds.
#[derive(Clone, Copy, Debug, PartialEq, Eq, Structural)]
pub struct Hot {
    pub cell: Cell,
    pub heat: Scalar,
}

/// The first entry for a cell, or the list's length.
pub open spec fn find_hot(hots: Seq<Hot>, cell: Cell) -> int
    decreases hots.len(),
{
    if hots.len() == 0 || hots[0].cell == cell {
        0
    } else {
        1 + find_hot(hots.skip(1), cell)
    }
}

proof fn lemma_find_hot(hots: Seq<Hot>, cell: Cell)
    ensures
        0 <= find_hot(hots, cell) <= hots.len(),
        find_hot(hots, cell) < hots.len() ==> hots[find_hot(hots, cell)].cell == cell,
        forall|j: int| 0 <= j < find_hot(hots, cell) ==> (#[trigger] hots[j]).cell != cell,
    decreases hots.len(),
{
    if hots.len() == 0 || hots[0].cell == cell {
    } else {
        let rest = hots.skip(1);
        lemma_find_hot(rest, cell);
        assert forall|j: int| 0 <= j < find_hot(hots, cell) implies (#[trigger] hots[j]).cell
            != cell by {
            if j > 0 {
                assert(rest[j - 1] == hots[j]);
            }
        }
    }
}

fn index_of(hots: &Vec<Hot>, cell: Cell) -> (i: usize)
    ensures
        i == find_hot(hots@, cell),
{
    proof {
        lemma_find_hot(hots@, cell);
    }
    let mut i: usize = 0;
    while i < hots.len() && hots[i].cell != cell
        invariant
            i <= hots@.len(),
            0 <= find_hot(hots@, cell) <= hots@.len(),
            find_hot(hots@, cell) < hots@.len() ==> hots@[find_hot(hots@, cell)].cell == cell,
            forall|j: int| 0 <= j < find_hot(hots@, cell) ==> (#[trigger] hots@[j]).cell != cell,
            forall|j: int| 0 <= j < i ==> (#[trigger] hots@[j]).cell != cell,
        decreases hots@.len() - i,
    {
        i += 1;
    }
    i
}

/// A cell's exposure; none for a cell the stream has not touched.
pub open spec fn heat_of(hots: Seq<Hot>, cell: Cell) -> Option<Scalar> {
    let i = find_hot(hots, cell);
    if i < hots.len() {
        Some(hots[i].heat)
    } else {
        None
    }
}

/// Flame exposure of a ground cell, in seconds; zero for a cell the stream
/// has not touched.
pub fn cell_heat(hots: &Vec<Hot>, cell: Cell) -> (heat: Scalar)
    ensures
        heat == (match heat_of(hots@, cell) {
            Some(heat) => heat,
            None => Scalar::zero(),
        }),
{
    let i: usize = index_of(hots, cell);
    if i < hots.len() {
        hots[i].heat
    } else {
        Scalar::zero()
    }
}

/// A cell's exposure after the frame. `warmed` holds the cells the stream is
/// on with a frame added, `cooled` every exposed cell with the decay taken
/// off. A cell under a standing tile takes no heat, and a cell the stream is
/// on loses none.
pub open spec fn heat_after(
    before: Seq<Hot>,
    warmed: Seq<Hot>,
    cooled: Seq<Hot>,
    solid: Seq<Cell>,
    cell: Cell,
) -> Option<Scalar> {
    let streamed = find_hot(warmed, cell) < warmed.len();
    if streamed && !solid.contains(cell) {
        heat_of(warmed, cell)
    } else if streamed {
        heat_of(before, cell)
    } else {
        heat_of(cooled, cell)
    }
}

/// Of the first `n` cells, those that keep an exposure and those that light:
/// a cell lights at the threshold and stops being tracked, and one that has
/// cooled to nothing is forgotten.
pub open spec fn heated(
    cells: Seq<Cell>,
    before: Seq<Hot>,
    warmed: Seq<Hot>,
    cooled: Seq<Hot>,
    solid: Seq<Cell>,
    ignite: Scalar,
    n: int,
) -> (Seq<Hot>, Seq<Cell>)
    decreases n,
{
    if n <= 0 {
        (Seq::empty(), Seq::empty())
    } else {
        let (kept, lit) = heated(cells, before, warmed, cooled, solid, ignite, n - 1);
        let cell = cells[n - 1];
        match heat_after(before, warmed, cooled, solid, cell) {
            Some(heat) => if ignite.at_most(heat) {
                (kept, lit.push(cell))
            } else if Scalar::zero().below(heat) {
                (kept.push(Hot { cell, heat }), lit)
            } else {
                (kept, lit)
            },
            None => (kept, lit),
        }
    }
}

/// The cells of two exposure lists.
pub open spec fn cell_in(a: Seq<Hot>, b: Seq<Hot>, cell: Cell) -> bool {
    find_hot(a, cell) < a.len() || find_hot(b, cell) < b.len()
}

fn contains_cell(v: &Vec<Cell>, cell: Cell) -> (r: bool)
    ensures
        r == v@.contains(cell),
{
    let mut i: usize = 0;
    while i < v.len()
        invariant
            i <= v@.len(),
            forall|j: int| 0 <= j < i ==> v@[j] != cell,
        decreases v@.len() - i,
    {
        if v[i] == cell {
            return true;
        }
        i += 1;
    }
    false
}

/// Every cell of two exposure lists, each once, in order.
fn merged_cells(a: &Vec<Hot>, b: &Vec<Hot>) -> (cells: Vec<Cell>)
    ensures
        listed(cells@),
        forall|c: Cell| #[trigger] cells@.contains(c) <==> cell_in(a@, b@, c),
{
    let mut all: Vec<Cell> = Vec::new();
    let mut i: usize = 0;
    while i < a.len()
        invariant
            i <= a@.len(),
            all@.len() == i,
            forall|k: int| 0 <= k < i ==> #[trigger] all@[k] == a@[k].cell,
        decreases a@.len() - i,
    {
        all.push(a[i].cell);
        i += 1;
    }
    let mut j: usize = 0;
    while j < b.len()
        invariant
            j <= b@.len(),
            all@.len() == a@.len() + j,
            forall|k: int| 0 <= k < a@.len() ==> #[trigger] all@[k] == a@[k].cell,
            forall|k: int| a@.len() <= k < a@.len() + j ==> #[trigger] all@[k] == b@[k - a@.len()].cell,
        decreases b@.len() - j,
    {
        all.push(b[j].cell);
        j += 1;
    }
    let cells: Vec<Cell> = sorted_cells(&all);
    assert forall|c: Cell| #[trigger] cells@.contains(c) <==> cell_in(a@, b@, c) by {
        lemma_find_hot(a@, c);
        lemma_find_hot(b@, c);
        if all@.contains(c) {
            let k = choose|k: int| 0 <= k < all@.len() && all@[k] == c;
            if k < a@.len() {
                assert(a@[k].cell == c);
            } else {
                assert(b@[k - a@.len()].cell == c);
            }
        }
        if find_hot(a@, c) < a@.len() {
            assert(all@[find_hot(a@, c)] == c);
        }
        if find_hot(b@, c) < b@.len() {
            assert(all@[a@.len() + find_hot(b@, c)] == c);
        }
    }
    cells
}

/// The exposures and the cells that light after a frame: the cells the stream
/// touches and the cells still warm are walked in order, so the ignition order
/// is fixed frame to frame.
pub open spec fn exposed(
    before: Seq<Hot>,
    warmed: Seq<Hot>,
    cooled: Seq<Hot>,
    solid: Seq<Cell>,
    ignite: Scalar,
    after: Seq<Hot>,
    lit: Seq<Cell>,
) -> bool {
    exists|cells: Seq<Cell>|
        {
            &&& #[trigger] listed(cells)
            &&& forall|c: Cell| #[trigger] cells.contains(c) <==> cell_in(before, warmed, c)
            &&& (after, lit) == heated(
                cells,
                before,
                warmed,
                cooled,
                solid,
                ignite,
                cells.len() as int,
            )
        }
}

proof fn lemma_heat_between(
    cells: Seq<Cell>,
    before: Seq<Hot>,
    warmed: Seq<Hot>,
    cooled: Seq<Hot>,
    solid: Seq<Cell>,
    ignite: Scalar,
    n: int,
)
    ensures
        forall|k: int|
            0 <= k < heated(cells, before, warmed, cooled, solid, ignite, n).0.len() ==> {
                let hot = #[trigger] heated(cells, before, warmed, cooled, solid, ignite, n).0[k];
                Scalar::zero().below(hot.heat) && !ignite.at_most(hot.heat)
            },
    decreases n,
{
    if n > 0 {
        lemma_heat_between(cells, before, warmed, cooled, solid, ignite, n - 1);
        let was = heated(cells, before, warmed, cooled, solid, ignite, n - 1).0;
        let now = heated(cells, before, warmed, cooled, solid, ignite, n).0;
        assert forall|k: int| 0 <= k < now.len() implies {
            let hot = #[trigger] now[k];
            Scalar::zero().below(hot.heat) && !ignite.at_most(hot.heat)
        } by {
            if k < was.len() {
                assert(now[k] == was[k]);
            }
        }
    }
}

/// A cell that is still tracked after a frame is warm and has not reached the
/// threshold: one at the threshold lit, and one gone cold was forgotten.
pub proof fn tracked_heat_is_between(
    before: Seq<Hot>,
    warmed: Seq<Hot>,
    cooled: Seq<Hot>,
    solid: Seq<Cell>,
    ignite: Scalar,
    after: Seq<Hot>,
    lit: Seq<Cell>,
    k: int,
)
    requires
        exposed(before, warmed, cooled, solid, ignite, after, lit),
        0 <= k < after.len(),
    ensures
        Scalar::zero().below(after[k].heat),
        !ignite.at_most(after[k].heat),
        !ignite.is_nan() ==> after[k].heat.below(ignite),
{
    let cells = choose|cells: Seq<Cell>|
        {
            &&& #[trigger] listed(cells)
            &&& forall|c: Cell| #[trigger] cells.contains(c) <==> cell_in(before, warmed, c)
            &&& (after, lit) == heated(
                cells,
                before,
                warmed,
                cooled,
                solid,
                ignite,
                cells.len() as int,
            )
        };
    lemma_heat_between(cells, before, warmed, cooled, solid, ignite, cells.len() as int);
    assert(after[k] == heated(
        cells,
        before,
        warmed,
        cooled,
        solid,
        ignite,
        cells.len() as int,
    ).0[k]);
}

/// A cell reaches the threshold.
pub open spec fn catches(
    before: Seq<Hot>,
    warmed: Seq<Hot>,
    cooled: Seq<Hot>,
    solid: Seq<Cell>,
    ignite: Scalar,
    cell: Cell,
) -> bool {
    heat_after(before, warmed, cooled, solid, cell) matches Some(heat) && ignite.at_most(heat)
}

proof fn lemma_heated(
    cells: Seq<Cell>,
    before: Seq<Hot>,
    warmed: Seq<Hot>,
    cooled: Seq<Hot>,
    solid: Seq<Cell>,
    ignite: Scalar,
    n: int,
)
    requires
        listed(cells),
        0 <= n <= cells.len(),
    ensures
        ({
            let (kept, lit) = heated(cells, before, warmed, cooled, solid, ignite, n);
            &&& lit.no_duplicates()
            &&& forall|c: Cell| #[trigger]
                lit.contains(c) <==> cells.take(n).contains(c) && catches(
                    before,
                    warmed,
                    cooled,
                    solid,
                    ignite,
                    c,
                )
            &&& forall|k: int|
                0 <= k < kept.len() ==> !catches(
                    before,
                    warmed,
                    cooled,
                    solid,
                    ignite,
                    (#[trigger] kept[k]).cell,
                )
        }),
    decreases n,
{
    if n > 0 {
        lemma_heated(cells, before, warmed, cooled, solid, ignite, n - 1);
        let (had, were) = heated(cells, before, warmed, cooled, solid, ignite, n - 1);
        let (kept, lit) = heated(cells, before, warmed, cooled, solid, ignite, n);
        let cell = cells[n - 1];
        let (few, more) = (cells.take(n - 1), cells.take(n));
        assert(!few.contains(cell)) by {
            if few.contains(cell) {
                let i = choose|i: int| 0 <= i < few.len() && few[i] == cell;
                assert(cells[i].ahead(cells[n - 1]));
            }
        }
        assert forall|c: Cell| #[trigger] more.contains(c) <==> few.contains(c) || c == cell by {
            if more.contains(c) {
                let i = choose|i: int| 0 <= i < more.len() && more[i] == c;
                if i < n - 1 {
                    assert(few[i] == c);
                }
            }
            if few.contains(c) {
                let i = choose|i: int| 0 <= i < few.len() && few[i] == c;
                assert(more[i] == c);
            }
            if c == cell {
                assert(more[n - 1] == c);
            }
        }
        assert forall|c: Cell| #[trigger] lit.contains(c) <==> more.contains(c) && catches(
            before,
            warmed,
            cooled,
            solid,
            ignite,
            c,
        ) by {
            assert(were.contains(c) <==> few.contains(c) && catches(
                before,
                warmed,
                cooled,
                solid,
                ignite,
                c,
            ));
            if catches(before, warmed, cooled, solid, ignite, cell) {
                assert(lit == were.push(cell));
                if lit.contains(c) && c != cell {
                    let i = choose|i: int| 0 <= i < lit.len() && lit[i] == c;
                    assert(were[i] == c);
                }
                if were.contains(c) {
                    let i = choose|i: int| 0 <= i < were.len() && were[i] == c;
                    assert(lit[i] == c);
                }
                if c == cell {
                    assert(lit[were.len() as int] == c);
                }
            } else {
                assert(lit == were);
            }
        }
        assert forall|i: int, j: int| 0 <= i < lit.len() && 0 <= j < lit.len() && i
            != j implies lit[i] != lit[j] by {
            if catches(before, warmed, cooled, solid, ignite, cell) {
                assert(lit == were.push(cell));
                assert(!were.contains(cell));
                if i < were.len() {
                    assert(were.contains(were[i]));
                }
                if j < were.len() {
                    assert(were.contains(were[j]));
                }
            } else {
                assert(lit == were);
            }
        }
        assert forall|k: int| 0 <= k < kept.len() implies !catches(
            before,
            warmed,
            cooled,
            solid,
            ignite,
            (#[trigger] kept[k]).cell,
        ) by {
            if k < had.len() {
                assert(kept[k] == had[k]);
            }
        }
    }
}

/// Each cell that reaches the threshold lights once, and with that leaves the
/// list of what is warm.
pub proof fn a_cell_that_lights_is_no_longer_tracked(
    before: Seq<Hot>,
    warmed: Seq<Hot>,
    cooled: Seq<Hot>,
    solid: Seq<Cell>,
    ignite: Scalar,
    after: Seq<Hot>,
    lit: Seq<Cell>,
)
    requires
        exposed(before, warmed, cooled, solid, ignite, after, lit),
    ensures
        lit.no_duplicates(),
        forall|c: Cell| #[trigger]
            lit.contains(c) <==> cell_in(before, warmed, c) && catches(
                before,
                warmed,
                cooled,
                solid,
                ignite,
                c,
            ),
        forall|k: int| 0 <= k < after.len() ==> !lit.contains((#[trigger] after[k]).cell),
{
    let cells = choose|cells: Seq<Cell>|
        {
            &&& #[trigger] listed(cells)
            &&& forall|c: Cell| #[trigger] cells.contains(c) <==> cell_in(before, warmed, c)
            &&& (after, lit) == heated(
                cells,
                before,
                warmed,
                cooled,
                solid,
                ignite,
                cells.len() as int,
            )
        };
    lemma_heated(cells, before, warmed, cooled, solid, ignite, cells.len() as int);
    assert(cells.take(cells.len() as int) =~= cells);
    assert forall|c: Cell| #[trigger] lit.contains(c) <==> cell_in(before, warmed, c) && catches(
        before,
        warmed,
        cooled,
        solid,
        ignite,
        c,
    ) by {
        assert(cells.contains(c) <==> cell_in(before, warmed, c));
    }
    let kept = heated(cells, before, warmed, cooled, solid, ignite, cells.len() as int).0;
    assert forall|k: int| 0 <= k < after.len() implies !lit.contains((#[trigger] after[k]).cell) by {
        assert(after[k] == kept[k]);
        assert(!catches(before, warmed, cooled, solid, ignite, kept[k].cell));
    }
}

/// Let the stream at the ground. Returns the cells that light.
pub fn expose_ground(
    hots: &mut Vec<Hot>,
    warmed: &Vec<Hot>,
    cooled: &Vec<Hot>,
    solid: &Vec<Cell>,
    ignite: Scalar,
) -> (lit: Vec<Cell>)
    ensures
        exposed(old(hots)@, warmed@, cooled@, solid@, ignite, final(hots)@, lit@),
{
    let cells: Vec<Cell> = merged_cells(hots, warmed);
    let mut kept: Vec<Hot> = Vec::new();
    let mut lit: Vec<Cell> = Vec::new();
    let mut n: usize = 0;
    while n < cells.len()
        invariant
            n <= cells@.len(),
            (kept@, lit@) == heated(
                cells@,
                hots@,
                warmed@,
                cooled@,
                solid@,
                ignite,
                n as int,
            ),
        decreases cells@.len() - n,
    {
        let cell: Cell = cells[n];
        let w: usize = index_of(warmed, cell);
        let heat: Option<Scalar> = if w < warmed.len() {
            if contains_cell(solid, cell) {
                let h: usize = index_of(hots, cell);
                if h < hots.len() {
                    Some(hots[h].heat)
                } else {
                    None
                }
            } else {
                Some(warmed[w].heat)
            }
        } else {
            let c: usize = index_of(cooled, cell);
            if c < cooled.len() {
                Some(cooled[c].heat)
            } else {
                None
            }
        };
        if let Some(heat) = heat {
            if ignite.le(heat) {
                lit.push(cell);
            } else if heat.positive() {
                kept.push(Hot { cell, heat });
            }
        }
        n += 1;
    }
    assert(listed(cells@));
    *hots = kept;
    lit
}

/// A cell about to light.
#[derive(Clone, Copy, Debug, PartialEq, Eq, Structural)]
pub struct Flare {
    pub cell: Cell,
    /// The cell's centre.
    pub at: Point,
    pub on_field: bool,
    /// Water stands in the cell.
    pub wet: bool,
    pub spread_at: Scalar,
}

/// The spark a flare gives: a trail cell burns as a trail, plain ground as a
/// pool of its own.
pub open spec fn flare_spark(
    flare: Flare,
    oil: Seq<Cell>,
    trail_seconds: Scalar,
    ground_seconds: Scalar,
) -> Spark {
    Spark {
        cell: flare.cell,
        at: flare.at,
        on_field: flare.on_field,
        wet: flare.wet,
        seconds: if oil.contains(flare.cell) {
            trail_seconds
        } else {
            ground_seconds
        },
        spread_at: flare.spread_at,
        pool: !oil.contains(flare.cell),
    }
}

/// Fires and frame once the first `n` flares have lit.
pub open spec fn flared(
    fires: Seq<GroundFire>,
    f: Record,
    flares: Seq<Flare>,
    oil: Seq<Cell>,
    trail_seconds: Scalar,
    ground_seconds: Scalar,
    n: int,
) -> (Seq<GroundFire>, Record)
    decreases n,
{
    if n <= 0 {
        (fires, f)
    } else {
        let (fires, f) = flared(fires, f, flares, oil, trail_seconds, ground_seconds, n - 1);
        let flare = flares[n - 1];
        let (fires, f) = lit(fires, f, flare_spark(flare, oil, trail_seconds, ground_seconds));
        (
            fires,
            f.with_event(
                Event::Ignited {
                    x: flare.at.x,
                    y: flare.at.y,
                    what: if oil.contains(flare.cell) {
                        "oil"
                    } else {
                        "ground"
                    },
                },
            ),
        )
    }
}

/// Light the cells whose exposure reached the threshold, and say so.
pub fn ignite_cells(
    fires: &mut Vec<GroundFire>,
    f: &mut Frame,
    flares: &Vec<Flare>,
    oil: &Vec<Cell>,
    trail_seconds: Scalar,
    ground_seconds: Scalar,
)
    ensures
        (final(fires)@, final(f)@) == flared(
            old(fires)@,
            old(f)@,
            flares@,
            oil@,
            trail_seconds,
            ground_seconds,
            flares@.len() as int,
        ),
{
    let mut n: usize = 0;
    while n < flares.len()
        invariant
            n <= flares@.len(),
            (fires@, f@) == flared(
                old(fires)@,
                old(f)@,
                flares@,
                oil@,
                trail_seconds,
                ground_seconds,
                n as int,
            ),
        decreases flares@.len() - n,
    {
        let flare: Flare = flares[n];
        let trail: bool = contains_cell(oil, flare.cell);
        light_cell(
            fires,
            f,
            Spark {
                cell: flare.cell,
                at: flare.at,
                on_field: flare.on_field,
                wet: flare.wet,
                seconds: if trail {
                    trail_seconds
                } else {
                    ground_seconds
                },
                spread_at: flare.spread_at,
                pool: !trail,
            },
        );
        f.record(
            Event::Ignited {
                x: flare.at.x,
                y: flare.at.y,
                what: if trail {
                    "oil"
                } else {
                    "ground"
                },
            },
        );
        n += 1;
    }
}

/// What of a record's events tells of an ignition.
pub open spec fn ignitions(events: Seq<Event>) -> Seq<Event>
    decreases events.len(),
{
    if events.len() == 0 {
        Seq::empty()
    } else if events.last() is Ignited {
        ignitions(events.drop_last()).push(events.last())
    } else {
        ignitions(events.drop_last())
    }
}

/// How a cell's ignition is told: as oil on the trail, as ground elsewhere.
pub open spec fn ignition(flare: Flare, oil: Seq<Cell>) -> Event {
    Event::Ignited {
        x: flare.at.x,
        y: flare.at.y,
        what: if oil.contains(flare.cell) {
            "oil"
        } else {
            "ground"
        },
    }
}

/// Each cell that lights is told of exactly once, in the order they light.
pub proof fn each_ignition_is_told_once(
    fires: Seq<GroundFire>,
    f: Record,
    flares: Seq<Flare>,
    oil: Seq<Cell>,
    trail_seconds: Scalar,
    ground_seconds: Scalar,
    n: int,
)
    requires
        0 <= n <= flares.len(),
    ensures
        ignitions(
            flared(fires, f, flares, oil, trail_seconds, ground_seconds, n).1.events,
        ) == ignitions(f.events) + Seq::new(n as nat, |k: int| ignition(flares[k], oil)),
    decreases n,
{
    let told = Seq::new(n as nat, |k: int| ignition(flares[k], oil));
    if n <= 0 {
        assert(told =~= Seq::<Event>::empty());
        assert(ignitions(f.events) + told =~= ignitions(f.events));
    } else {
        each_ignition_is_told_once(fires, f, flares, oil, trail_seconds, ground_seconds, n - 1);
        let before = Seq::new((n - 1) as nat, |k: int| ignition(flares[k], oil));
        let (was_fires, was) = flared(
            fires,
            f,
            flares,
            oil,
            trail_seconds,
            ground_seconds,
            n - 1,
        );
        let spark = flare_spark(flares[n - 1], oil, trail_seconds, ground_seconds);
        let mid = lit(was_fires, was, spark).1;
        let now = flared(fires, f, flares, oil, trail_seconds, ground_seconds, n).1;
        assert(ignitions(mid.events) == ignitions(was.events)) by {
            if mid != was {
                assert(mid.events.drop_last() =~= was.events);
                assert(mid.events.last() is FireStarted);
            }
        }
        assert(now.events == mid.events.push(ignition(flares[n - 1], oil)));
        assert(now.events.drop_last() =~= mid.events);
        assert(ignitions(f.events) + told =~= (ignitions(f.events) + before).push(
            ignition(flares[n - 1], oil),
        ));
    }
}

/// How long each thing stands the stream.
#[derive(Clone, Copy, Debug, PartialEq, Eq, Structural)]
pub struct FlameLimits {
    /// Ground, wood, trees and drums.
    pub ignite: Scalar,
    pub sandbag: Scalar,
    pub fence: Scalar,
}

/// One tile under, or out of, the stream this frame.
#[derive(Clone, Copy, Debug, PartialEq, Eq, Structural)]
pub struct TileFlame {
    /// A cone covers it.
    pub under: bool,
    /// Its exposure a frame further on, and with the decay taken off.
    pub warmed: Scalar,
    pub cooled: Scalar,
    /// The fuse the stream would light on a drum.
    pub fuse: Fuse,
    /// Which of its faces looks at the nozzle.
    pub face: u8,
}

/// What the stream did to a tile.
#[derive(Clone, Copy, Debug, PartialEq, Eq, Structural)]
pub enum Scorched {
    /// Nothing to tell.
    No,
    /// A drum's fuse is lit.
    Drum,
    /// It is burning.
    Tree,
    Wood,
    /// It collapses.
    Sandbag,
    Fence,
}

impl Scorched {
    /// How an event names it.
    pub open spec fn word(self) -> Option<&'static str> {
        match self {
            Scorched::No => None,
            Scorched::Drum => Some("drum"),
            Scorched::Tree => Some("tree"),
            Scorched::Wood => Some("wood"),
            Scorched::Sandbag => Some("sandbag"),
            Scorched::Fence => Some("fence"),
        }
    }

    pub fn what(self) -> (word: Option<&'static str>)
        ensures
            word == self.word(),
    {
        match self {
            Scorched::No => None,
            Scorched::Drum => Some("drum"),
            Scorched::Tree => Some("tree"),
            Scorched::Wood => Some("wood"),
            Scorched::Sandbag => Some("sandbag"),
            Scorched::Fence => Some("fence"),
        }
    }
}

/// A wall's soot under the stream: its first contact blackens the face toward
/// the nozzle.
pub open spec fn soot_under(tile: Tile, flame: TileFlame) -> u8 {
    if tile.material.is_wall() && tile.heat.at_most(Scalar::zero()) {
        tile.soot | flame.face
    } else {
        tile.soot
    }
}

/// A tile after the frame: out of the stream it cools, under it it warms, and
/// at its threshold a drum goes on a fuse, wood and trees catch whatever they
/// were rolled to do, and a sandbag or a fence collapses. Walls of stone and
/// glass only soot.
pub open spec fn tile_flamed(tile: Tile, flame: TileFlame, limits: FlameLimits) -> (Tile, Scorched) {
    if tile.spent() {
        (tile, Scorched::No)
    } else if !flame.under {
        (Tile { heat: flame.cooled, ..tile }, Scorched::No)
    } else {
        let warm = Tile { heat: flame.warmed, soot: soot_under(tile, flame), ..tile };
        let done = limits.ignite.at_most(flame.warmed);
        if tile.material.is_explosive() {
            if done {
                (fused(warm, flame.fuse), Scorched::Drum)
            } else {
                (warm, Scorched::No)
            }
        } else if tile.material.is_tree() || tile.material == Material::Wood {
            if done {
                (
                    Tile { health: Scalar::zero(), burning: true, ..warm },
                    if tile.material.is_tree() {
                        Scorched::Tree
                    } else {
                        Scorched::Wood
                    },
                )
            } else {
                (warm, Scorched::No)
            }
        } else if tile.material == Material::Sandbag && limits.sandbag.at_most(flame.warmed) {
            (warm, Scorched::Sandbag)
        } else if tile.material == Material::Fence && limits.fence.at_most(flame.warmed) {
            (warm, Scorched::Fence)
        } else {
            (warm, Scorched::No)
        }
    }
}

/// Let the stream at a tile.
pub fn flame_tile(tile: Tile, flame: &TileFlame, limits: &FlameLimits) -> (r: (Tile, Scorched))
    ensures
        r == tile_flamed(tile, *flame, *limits),
{
    let mut tile: Tile = tile;
    if tile.destroyed || tile.burning || tile.fuse.is_some() {
        return (tile, Scorched::No);
    }
    if !flame.under {
        tile.heat = flame.cooled;
        return (tile, Scorched::No);
    }
    if tile.material.is_wall() && tile.heat.le(Scalar::zero()) {
        tile.soot = tile.soot | flame.face;
    }
    tile.heat = flame.warmed;
    if tile.material.is_explosive() {
        if limits.ignite.le(tile.heat) {
            tile.health = Scalar::zero();
            tile.fuse = Some(flame.fuse);
            return (tile, Scorched::Drum);
        }
    } else if tile.material.is_tree() || tile.material == Material::Wood {
        if limits.ignite.le(tile.heat) {
            tile.health = Scalar::zero();
            tile.burning = true;
            return if tile.material.is_tree() {
                (tile, Scorched::Tree)
            } else {
                (tile, Scorched::Wood)
            };
        }
    } else if tile.material == Material::Sandbag {
        if limits.sandbag.le(tile.heat) {
            return (tile, Scorched::Sandbag);
        }
    } else if tile.material == Material::Fence {
        if limits.fence.le(tile.heat) {
            return (tile, Scorched::Fence);
        }
    }
    (tile, Scorched::No)
}

/// A wooden tile or a tree under the stream for long enough burns, whatever it
/// was rolled to do.
pub proof fn wood_ignites_whatever_it_rolled(
    tile: Tile,
    rolled: bool,
    flame: TileFlame,
    limits: FlameLimits,
)
    requires
        !tile.spent(),
        tile.material == Material::Wood || tile.material.is_tree(),
        flame.under,
        limits.ignite.at_most(flame.warmed),
    ensures
        ({
            let (after, what) = tile_flamed(Tile { flammable: rolled, ..tile }, flame, limits);
            &&& after.burning
            &&& after.health == Scalar::zero()
            &&& what == tile_flamed(tile, flame, limits).1
        }),
{
}

/// Once a tile is alight, fused or gone the stream changes nothing about it.
pub proof fn the_stream_leaves_a_spent_tile_alone(tile: Tile, flame: TileFlame, limits: FlameLimits)
    requires
        tile.spent(),
    ensures
        tile_flamed(tile, flame, limits) == (tile, Scorched::No),
{
}

fn contains_entity(v: &Vec<u64>, entity: u64) -> (r: bool)
    ensures
        r == v@.contains(entity),
{
    let mut i: usize = 0;
    while i < v.len()
        invariant
            i <= v@.len(),
            forall|j: int| 0 <= j < i ==> v@[j] != entity,
        decreases v@.len() - i,
    {
        if v[i] == entity {
            return true;
        }
        i += 1;
    }
    false
}

/// The stream is on this tank: not the shooter's own, no wreck, and on the
/// field.
pub fn stream_takes(entity: u64, shooter: u64, tank: &Tank, in_cone: bool) -> (r: bool)
    ensures
        r == (entity != shooter && !tank.wreck && tank.has_body && in_cone),
{
    entity != shooter && !tank.wreck && tank.has_body && in_cone
}

/// A tank the stream washed over, given what a frame of it makes of the hull:
/// it keeps burning for a while, and an enemy that lives knows it was shot.
pub open spec fn washed(after: Tank, afterburn: Scalar) -> Tank {
    Tank {
        burn_timer: afterburn,
        mind: if after.wreck {
            after.mind
        } else {
            alerted(after.mind)
        },
        ..after
    }
}

/// What the stream on a tank records: a hit on the first frame of contact, and
/// a kill if it was one.
pub open spec fn wash_told(f: Record, entity: u64, contacts: Seq<u64>, after: Tank) -> Record {
    let f = if contacts.contains(entity) {
        f
    } else {
        f.with_event(
            Event::Hit {
                target: target_of(after.owner),
                damage: Scalar::zero(),
                killed: after.wreck,
                x: after.position.x,
                y: after.position.y,
            },
        )
    };
    if after.wreck {
        f.with_kill(after.position, after.owner)
    } else {
        f
    }
}

/// The stream washes over a tank: `after` is the tank with a frame's worth of
/// damage taken. Only the first frame of contact during a hold is recorded as
/// a hit.
pub fn flame_tank(
    f: &mut Frame,
    entity: u64,
    contacts: &Vec<u64>,
    after: Tank,
    afterburn: Scalar,
) -> (tank: Tank)
    ensures
        tank == washed(after, afterburn),
        final(f)@ == wash_told(old(f)@, entity, contacts@, after),
{
    let mut tank: Tank = after;
    tank.burn_timer = afterburn;
    if !contains_entity(contacts, entity) {
        f.record(
            Event::Hit {
                target: target_of(after.owner),
                damage: Scalar::zero(),
                killed: after.wreck,
                x: after.position.x,
                y: after.position.y,
            },
        );
    }
    if after.wreck {
        f.kill(after.position, after.owner);
    } else if let Some(mind) = after.mind {
        tank.mind = Some(Mind { hit_alerted: true, ..mind });
    }
    tank
}

/// What the stream on a frog records: the first frame of contact and its
/// death, which ripples.
pub open spec fn frog_wash_told(f: Record, entity: u64, contacts: Seq<u64>, after: Frog) -> Record {
    let f = if contacts.contains(entity) && !after.dead {
        f
    } else {
        f.with_event(
            Event::Hit {
                target: HitTarget::Frog { side: after.side },
                damage: Scalar::zero(),
                killed: after.dead,
                x: after.position.x,
                y: after.position.y,
            },
        )
    };
    if after.dead {
        f.with_shock(after.position, ShockKind::Frog)
    } else {
        f
    }
}

/// The stream washes over a frog that was alive; `after` is the frog with a
/// frame's worth of damage taken.
pub fn flame_frog(f: &mut Frame, entity: u64, contacts: &Vec<u64>, after: &Frog)
    ensures
        final(f)@ == frog_wash_told(old(f)@, entity, contacts@, *after),
{
    if !contains_entity(contacts, entity) || after.dead {
        f.record(
            Event::Hit {
                target: HitTarget::Frog { side: after.side },
                damage: Scalar::zero(),
                killed: after.dead,
                x: after.position.x,
                y: after.position.y,
            },
        );
    }
    if after.dead {
        f.shock(after.position, ShockKind::Frog);
    }
}

/// A hull keeps burning at the lower rate: alive, alight, and not under the
/// stream right now, so the two rates never stack.
pub fn afterburns(entity: u64, tank: &Tank, touched: &Vec<u64>) -> (r: bool)
    ensures
        r == (!touched@.contains(entity) && !tank.wreck && Scalar::zero().below(tank.burn_timer)),
{
    !contains_entity(touched, entity) && !tank.wreck && tank.burn_timer.positive()
}

/// Who a burn walk visits: the seats in order, and then the enemies.
pub fn burn_order(seats: &[Option<u64>; 8], enemies: &Vec<u64>) -> (order: Vec<u64>)
    ensures
        order@ == seated(seats@, 8) + enemies@,
{
    let mut order: Vec<u64> = Vec::new();
    let mut i: usize = 0;
    while i < 8
        invariant
            i <= 8,
            order@ == seated(seats@, i as int),
        decreases 8 - i,
    {
        if let Some(entity) = seats[i] {
            order.push(entity);
        }
        i += 1;
    }
    let mut k: usize = 0;
    assert(order@ =~= seated(seats@, 8) + enemies@.take(0));
    while k < enemies.len()
        invariant
            k <= enemies@.len(),
            order@ == seated(seats@, 8) + enemies@.take(k as int),
        decreases enemies@.len() - k,
    {
        order.push(enemies[k]);
        k += 1;
        assert(order@ =~= seated(seats@, 8) + enemies@.take(k as int));
    }
    assert(enemies@.take(k as int) =~= enemies@);
    order
}

/// The tanks in the first `n` seats.
pub open spec fn seated(seats: Seq<Option<u64>>, n: int) -> Seq<u64>
    decreases n,
{
    if n <= 0 {
        Seq::empty()
    } else {
        match seats[n - 1] {
            Some(entity) => seated(seats, n - 1).push(entity),
            None => seated(seats, n - 1),
        }
    }
}

/// Every tank in a seat is on the list of seats.
pub proof fn a_seated_tank_is_listed(seats: Seq<Option<u64>>, n: int, s: int)
    requires
        0 <= s < n <= seats.len(),
        seats[s] is Some,
    ensures
        seated(seats, n).contains(seats[s]->0),
    decreases n,
{
    let now = seated(seats, n);
    if s == n - 1 {
        assert(now.last() == seats[s]->0);
    } else {
        a_seated_tank_is_listed(seats, n - 1, s);
        let before = seated(seats, n - 1);
        let k = choose|k: int| 0 <= k < before.len() && before[k] == seats[s]->0;
        assert(now[k] == before[k]);
    }
}

/// Only tanks in a seat are on the list of seats.
pub proof fn only_seated_tanks_are_listed(seats: Seq<Option<u64>>, n: int, e: u64)
    requires
        0 <= n <= seats.len(),
        seated(seats, n).contains(e),
    ensures
        exists|s: int| 0 <= s < n && #[trigger] seats[s] == Some(e),
    decreases n,
{
    if n > 0 {
        let (now, before) = (seated(seats, n), seated(seats, n - 1));
        let k = choose|k: int| 0 <= k < now.len() && now[k] == e;
        if k < before.len() {
            assert(before[k] == e);
            only_seated_tanks_are_listed(seats, n - 1, e);
        } else {
            assert(seats[n - 1] == Some(e));
        }
    }
}

proof fn lemma_first_hot(hots: Seq<Hot>, k: int)
    requires
        0 <= k < hots.len(),
        forall|j: int| 0 <= j < k ==> (#[trigger] hots[j]).cell != hots[k].cell,
    ensures
        find_hot(hots, hots[k].cell) == k,
    decreases hots.len(),
{
    if k > 0 {
        assert(hots[0].cell != hots[k].cell);
        let rest = hots.skip(1);
        assert forall|j: int| 0 <= j < k - 1 implies (#[trigger] rest[j]).cell != rest[k - 1].cell by {
            assert(hots[j + 1].cell != hots[k].cell);
        }
        lemma_first_hot(rest, k - 1);
    }
}

proof fn lemma_no_hot(hots: Seq<Hot>, cell: Cell)
    requires
        forall|j: int| 0 <= j < hots.len() ==> (#[trigger] hots[j]).cell != cell,
    ensures
        find_hot(hots, cell) == hots.len(),
    decreases hots.len(),
{
    if hots.len() > 0 {
        assert(hots[0].cell != cell);
        assert forall|j: int| 0 <= j < hots.len() - 1 implies (
        #[trigger] hots.skip(1)[j]).cell != cell by {
            assert(hots[j + 1].cell != cell);
        }
        lemma_no_hot(hots.skip(1), cell);
    }
}

proof fn lemma_kept_heat(
    cells: Seq<Cell>,
    before: Seq<Hot>,
    warmed: Seq<Hot>,
    cooled: Seq<Hot>,
    solid: Seq<Cell>,
    ignite: Scalar,
    n: int,
    c: Cell,
)
    requires
        0 <= n <= cells.len(),
        cells.take(n).contains(c),
        heat_after(before, warmed, cooled, solid, c) is Some,
        !ignite.at_most(heat_after(before, warmed, cooled, solid, c)->0),
        Scalar::zero().below(heat_after(before, warmed, cooled, solid, c)->0),
    ensures
        heated(cells, before, warmed, cooled, solid, ignite, n).0.contains(
            Hot { cell: c, heat: heat_after(before, warmed, cooled, solid, c)->0 },
        ),
    decreases n,
{
    let h = Hot { cell: c, heat: heat_after(before, warmed, cooled, solid, c)->0 };
    let i = choose|i: int| 0 <= i < n && cells.take(n)[i] == c;
    assert(cells[i] == c);
    let now = heated(cells, before, warmed, cooled, solid, ignite, n).0;
    let was = heated(cells, before, warmed, cooled, solid, ignite, n - 1).0;
    if i == n - 1 {
        assert(now.last() == h);
    } else {
        assert(cells.take(n - 1)[i] == c);
        lemma_kept_heat(cells, before, warmed, cooled, solid, ignite, n - 1, c);
        let k = choose|k: int| 0 <= k < was.len() && was[k] == h;
        assert(now[k] == h);
    }
}

/// Open ground under the stream lights once its exposure with this frame added
/// reaches the threshold, and until then it stays warm by just that much; ground
/// under a standing tile is not warmed.
pub proof fn ground_under_the_stream_warms_and_lights(
    before: Seq<Hot>,
    warmed: Seq<Hot>,
    cooled: Seq<Hot>,
    solid: Seq<Cell>,
    ignite: Scalar,
    after: Seq<Hot>,
    lit: Seq<Cell>,
    k: int,
)
    requires
        exposed(before, warmed, cooled, solid, ignite, after, lit),
        0 <= k < warmed.len(),
        forall|j: int| 0 <= j < k ==> (#[trigger] warmed[j]).cell != warmed[k].cell,
        !solid.contains(warmed[k].cell),
    ensures
        lit.contains(warmed[k].cell) <==> ignite.at_most(warmed[k].heat),
        !ignite.at_most(warmed[k].heat) && Scalar::zero().below(warmed[k].heat)
            ==> after.contains(warmed[k]),
{
    let c = warmed[k].cell;
    lemma_first_hot(warmed, k);
    a_cell_that_lights_is_no_longer_tracked(before, warmed, cooled, solid, ignite, after, lit);
    assert(cell_in(before, warmed, c));
    assert(heat_after(before, warmed, cooled, solid, c) == Some(warmed[k].heat));
    let cells = choose|cells: Seq<Cell>|
        {
            &&& #[trigger] listed(cells)
            &&& forall|c: Cell| #[trigger] cells.contains(c) <==> cell_in(before, warmed, c)
            &&& (after, lit) == heated(
                cells,
                before,
                warmed,
                cooled,
                solid,
                ignite,
                cells.len() as int,
            )
        };
    assert(cells.contains(c));
    assert(cells.take(cells.len() as int) =~= cells);
    if !ignite.at_most(warmed[k].heat) && Scalar::zero().below(warmed[k].heat) {
        lemma_kept_heat(cells, before, warmed, cooled, solid, ignite, cells.len() as int, c);
    }
}

/// Warm ground the stream has left cools by this frame's decay, and is warm by
/// just that much until nothing is left.
pub proof fn ground_the_stream_has_left_cools(
    before: Seq<Hot>,
    warmed: Seq<Hot>,
    cooled: Seq<Hot>,
    solid: Seq<Cell>,
    ignite: Scalar,
    after: Seq<Hot>,
    lit: Seq<Cell>,
    b: int,
    k: int,
)
    requires
        exposed(before, warmed, cooled, solid, ignite, after, lit),
        0 <= b < before.len(),
        forall|j: int| 0 <= j < b ==> (#[trigger] before[j]).cell != before[b].cell,
        0 <= k < cooled.len(),
        cooled[k].cell == before[b].cell,
        forall|j: int| 0 <= j < k ==> (#[trigger] cooled[j]).cell != cooled[k].cell,
        forall|j: int| 0 <= j < warmed.len() ==> (#[trigger] warmed[j]).cell != cooled[k].cell,
    ensures
        !ignite.at_most(cooled[k].heat) ==> !lit.contains(cooled[k].cell),
        !ignite.at_most(cooled[k].heat) && Scalar::zero().below(cooled[k].heat)
            ==> after.contains(cooled[k]),
{
    let c = cooled[k].cell;
    lemma_first_hot(before, b);
    lemma_first_hot(cooled, k);
    lemma_no_hot(warmed, c);
    a_cell_that_lights_is_no_longer_tracked(before, warmed, cooled, solid, ignite, after, lit);
    assert(cell_in(before, warmed, c));
    assert(heat_after(before, warmed, cooled, solid, c) == Some(cooled[k].heat));
    let cells = choose|cells: Seq<Cell>|
        {
            &&& #[trigger] listed(cells)
            &&& forall|c: Cell| #[trigger] cells.contains(c) <==> cell_in(before, warmed, c)
            &&& (after, lit) == heated(
                cells,
                before,
                warmed,
                cooled,
                solid,
                ignite,
                cells.len() as int,
            )
        };
    assert(cells.contains(c));
    assert(cells.take(cells.len() as int) =~= cells);
    if !ignite.at_most(cooled[k].heat) && Scalar::zero().below(cooled[k].heat) {
        lemma_kept_heat(cells, before, warmed, cooled, solid, ignite, cells.len() as int, c);
    }
}

/// A cell of the trail burns as long as a trail does, other ground as a pool for
/// as long as ground does; a flare keeps its place.
pub proof fn a_flare_burns_by_what_it_lights(
    flare: Flare,
    oil: Seq<Cell>,
    trail_seconds: Scalar,
    ground_seconds: Scalar,
)
    ensures
        ({
            let s = flare_spark(flare, oil, trail_seconds, ground_seconds);
            &&& s.cell == flare.cell && s.at == flare.at && s.on_field == flare.on_field
            &&& s.wet == flare.wet && s.spread_at == flare.spread_at
            &&& oil.contains(flare.cell) ==> s.seconds == trail_seconds && !s.pool
            &&& !oil.contains(flare.cell) ==> s.seconds == ground_seconds && s.pool
        }),
{
}

/// What the stream does to a tile, by what it is made of.
pub proof fn the_stream_by_material(tile: Tile, flame: TileFlame, limits: FlameLimits)
    ensures
        ({
            let (after, what) = tile_flamed(tile, flame, limits);
            let stands = !tile.destroyed && !tile.burning && tile.fuse is None;
            let soot = if (tile.material == Material::Brick || tile.material == Material::Iron
                || tile.material == Material::Wood || tile.material == Material::Glass)
                && tile.heat.at_most(Scalar { bits: 0 }) {
                tile.soot | flame.face
            } else {
                tile.soot
            };
            let warm = Tile { heat: flame.warmed, soot, ..tile };
            let hot = limits.ignite.at_most(flame.warmed);
            let under = stands && flame.under;
            &&& !stands ==> after == tile && what is No
            &&& stands && !flame.under ==> after == (Tile { heat: flame.cooled, ..tile })
                && what is No
            &&& under && tile.material == Material::Barrel && hot ==> what is Drum && after
                == (Tile { health: Scalar { bits: 0 }, fuse: Some(flame.fuse), ..warm })
            &&& under && tile.material == Material::Wood && hot ==> what is Wood && after == (
            Tile { health: Scalar { bits: 0 }, burning: true, ..warm })
            &&& under && (tile.material == Material::Tree || tile.material == Material::Pine) && hot
                ==> what is Tree && after == (Tile {
                health: Scalar { bits: 0 },
                burning: true,
                ..warm
            })
            &&& under && (tile.material == Material::Barrel || tile.material == Material::Wood
                || tile.material == Material::Tree || tile.material == Material::Pine) && !hot
                ==> after == warm && what is No
            &&& under && tile.material == Material::Sandbag ==> after == warm && (what is Sandbag
                <==> limits.sandbag.at_most(flame.warmed)) && (what is Sandbag || what is No)
            &&& under && tile.material == Material::Fence ==> after == warm && (what is Fence
                <==> limits.fence.at_most(flame.warmed)) && (what is Fence || what is No)
            &&& under && (tile.material == Material::Brick || tile.material == Material::Iron
                || tile.material == Material::Glass) ==> after == warm && what is No
        }),
{
}

/// A tank under the stream goes on burning for as long as afterburn lasts, and
/// an enemy that lives through the frame knows it was shot. Only the first frame
/// of contact tells of a hit, and a death is always recorded.
pub proof fn a_tank_under_the_stream_keeps_burning(
    f: Record,
    entity: u64,
    contacts: Seq<u64>,
    after: Tank,
    afterburn: Scalar,
)
    ensures
        ({
            let t = washed(after, afterburn);
            let g = wash_told(f, entity, contacts, after);
            &&& t.burn_timer == afterburn
            &&& t == (Tank { burn_timer: t.burn_timer, mind: t.mind, ..after })
            &&& after.wreck || after.mind is None ==> t.mind == after.mind
            &&& !after.wreck && after.mind is Some ==> t.mind is Some && t.mind->0.hit_alerted
                && t.mind->0 == (crate::pieces::Mind { hit_alerted: true, ..after.mind->0 })
            &&& contacts.contains(entity) ==> g.events == f.events
            &&& !contacts.contains(entity) ==> g.events == f.events.push(
                Event::Hit {
                    target: target_of(after.owner),
                    damage: Scalar { bits: 0 },
                    killed: after.wreck,
                    x: after.position.x,
                    y: after.position.y,
                },
            )
            &&& after.wreck ==> g.kills.len() == f.kills.len() + 1 && g.kills.last().victim
                == after.owner && g.kills.last().at == after.position
            &&& !after.wreck ==> g.kills == f.kills
        }),
{
}

/// The stream on a frog tells of its first frame of contact and of its death,
/// which shakes the ground.
pub proof fn a_frog_under_the_stream_is_told(
    f: Record,
    entity: u64,
    contacts: Seq<u64>,
    after: Frog,
)
    ensures
        ({
            let g = frog_wash_told(f, entity, contacts, after);
            &&& contacts.contains(entity) && !after.dead ==> g == f
            &&& !contacts.contains(entity) || after.dead ==> g.events == f.events.push(
                Event::Hit {
                    target: HitTarget::Frog { side: after.side },
                    damage: Scalar { bits: 0 },
                    killed: after.dead,
                    x: after.position.x,
                    y: after.position.y,
                },
            )
            &&& after.dead ==> g.shocks.len() == f.shocks.len() + 1 && g.shocks.last().at
                == after.position && g.shocks.last().kind is Frog
            &&& !after.dead ==> g.shocks == f.shocks
        }),
{
}

} // verus!
