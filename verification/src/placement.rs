//! Where a tank is put down when its first choice is under water.

use vstd::prelude::*;

use crate::kinds::Cell;

verus! {

/// How far out from `center` a cell lies, counted in square rings.
pub open spec fn ring(center: Cell, cell: Cell) -> int {
    let dx = if cell.col >= center.col {
        cell.col - center.col
    } else {
        center.col - cell.col
    };
    let dy = if cell.row >= center.row {
        cell.row - center.row
    } else {
        center.row - cell.row
    };
    if dx >= dy {
        dx
    } else {
        dy
    }
}

/// `a` is looked at before `b`: nearer rings first, each from its top row
/// down and along each row from the left.
pub open spec fn sooner(center: Cell, a: Cell, b: Cell) -> bool {
    ||| ring(center, a) < ring(center, b)
    ||| ring(center, a) == ring(center, b) && a.row < b.row
    ||| ring(center, a) == ring(center, b) && a.row == b.row && a.col < b.col
}

/// Neither deep water nor solid.
pub open spec fn dry(deep: Seq<Cell>, solid: Seq<Cell>, cell: Cell) -> bool {
    !deep.contains(cell) && !solid.contains(cell)
}

fn listed(cells: &Vec<Cell>, cell: Cell) -> (r: bool)
    ensures
        r == cells@.contains(cell),
{
    let mut i: usize = 0;
    while i < cells.len()
        invariant
            i <= cells@.len(),
            forall|j: int| 0 <= j < i ==> cells@[j] != cell,
        decreases cells@.len() - i,
    {
        if cells[i] == cell {
            return true;
        }
        i += 1;
    }
    false
}

/// A cell has room for rings of `reach` around it on the grid.
pub open spec fn roomy(center: Cell, reach: int) -> bool {
    i32::MIN < center.col - reach && center.col + reach < i32::MAX && i32::MIN < center.row - reach
        && center.row + reach < i32::MAX
}

/// The first dry cell of one row of one ring.
fn first_in_row(center: Cell, radius: i32, row: i32, deep: &Vec<Cell>, solid: &Vec<Cell>) -> (r:
    Option<Cell>)
    requires
        radius >= 1,
        roomy(center, radius as int),
        center.row - radius <= row <= center.row + radius,
    ensures
        match r {
            Some(c) => c.row == row && ring(center, c) == radius && dry(deep@, solid@, c)
                && forall|o: Cell|
                o.row == row && ring(center, o) == radius && o.col < c.col ==> !(#[trigger] dry(
                    deep@,
                    solid@,
                    o,
                )),
            None => forall|o: Cell|
                o.row == row && ring(center, o) == radius ==> !(#[trigger] dry(deep@, solid@, o)),
        },
{
    let edge: bool = row == center.row - radius || row == center.row + radius;
    let mut col: i32 = center.col - radius;
    while col <= center.col + radius
        invariant
            radius >= 1,
            roomy(center, radius as int),
            center.row - radius <= row <= center.row + radius,
            edge == (row == center.row - radius || row == center.row + radius),
            center.col - radius <= col <= center.col + radius + 1,
            forall|o: Cell|
                o.row == row && ring(center, o) == radius && o.col < col ==> !(#[trigger] dry(
                    deep@,
                    solid@,
                    o,
                )),
        decreases center.col + radius + 1 - col,
    {
        let cell: Cell = Cell { col, row };
        if edge || col == center.col - radius || col == center.col + radius {
            if !listed(deep, cell) && !listed(solid, cell) {
                return Some(cell);
            }
        }
        assert forall|o: Cell|
            o.row == row && ring(center, o) == radius && o.col < col + 1 implies !(#[trigger] dry(
            deep@,
            solid@,
            o,
        )) by {
            if o.col == col {
                assert(o == cell);
            }
        }
        col += 1;
    }
    None
}

/// The first dry cell of one ring.
fn first_in_ring(center: Cell, radius: i32, deep: &Vec<Cell>, solid: &Vec<Cell>) -> (r: Option<
    Cell,
>)
    requires
        radius >= 1,
        roomy(center, radius as int),
    ensures
        match r {
            Some(c) => ring(center, c) == radius && dry(deep@, solid@, c) && forall|o: Cell|
                ring(center, o) == radius && sooner(center, o, c) ==> !(#[trigger] dry(
                    deep@,
                    solid@,
                    o,
                )),
            None => forall|o: Cell|
                ring(center, o) == radius ==> !(#[trigger] dry(deep@, solid@, o)),
        },
{
    let mut row: i32 = center.row - radius;
    while row <= center.row + radius
        invariant
            radius >= 1,
            roomy(center, radius as int),
            center.row - radius <= row <= center.row + radius + 1,
            forall|o: Cell|
                ring(center, o) == radius && o.row < row ==> !(#[trigger] dry(deep@, solid@, o)),
        decreases center.row + radius + 1 - row,
    {
        if let Some(c) = first_in_row(center, radius, row, deep, solid) {
            return Some(c);
        }
        row += 1;
    }
    None
}

/// A cell brought onto dry ground: itself unless it is deep water, else the
/// nearest dry one within so many rings; itself after all where there is none.
pub open spec fn dried(deep: Seq<Cell>, solid: Seq<Cell>, reach: int, cell: Cell, r: Cell) -> bool {
    &&& !deep.contains(cell) ==> r == cell
    &&& deep.contains(cell) && r != cell ==> 1 <= ring(cell, r) <= reach && dry(deep, solid, r)
        && forall|o: Cell| o != cell && sooner(cell, o, r) ==> !(#[trigger] dry(deep, solid, o))
    &&& deep.contains(cell) && r == cell ==> forall|o: Cell|
        1 <= ring(cell, o) <= reach ==> !(#[trigger] dry(deep, solid, o))
}

/// A cell that was brought onto dry ground stays where it is when it is
/// brought there again.
pub proof fn drying_twice_changes_nothing(
    deep: Seq<Cell>,
    solid: Seq<Cell>,
    reach: int,
    cell: Cell,
    once: Cell,
    twice: Cell,
)
    requires
        dried(deep, solid, reach, cell, once),
        dried(deep, solid, reach, once, twice),
    ensures
        twice == once,
{
    if deep.contains(cell) && once == cell && twice != cell {
        assert(dry(deep, solid, twice));
    }
}

/// `cell` unless it is deep water, else the nearest cell, by square rings
/// outward, that is neither solid nor deep; `cell` after all where there is
/// none within `reach` rings.
pub fn dry_cell_near(cell: Cell, deep: &Vec<Cell>, solid: &Vec<Cell>, reach: i32) -> (r: Cell)
    requires
        reach < i32::MAX,
        roomy(cell, reach as int),
    ensures
        dried(deep@, solid@, reach as int, cell, r),
{
    if !listed(deep, cell) {
        return cell;
    }
    let mut radius: i32 = 1;
    while radius <= reach
        invariant
            reach < i32::MAX,
            roomy(cell, reach as int),
            deep@.contains(cell),
            1 <= radius,
            radius <= reach + 1 || reach < 1,
            forall|o: Cell|
                1 <= ring(cell, o) < radius ==> !(#[trigger] dry(deep@, solid@, o)),
        decreases reach + 1 - radius,
    {
        if let Some(c) = first_in_ring(cell, radius, deep, solid) {
            assert forall|o: Cell| o != cell && sooner(cell, o, c) implies !(#[trigger] dry(
                deep@,
                solid@,
                o,
            )) by {
                assert(ring(cell, o) >= 1);
            }
            return c;
        }
        radius += 1;
    }
    cell
}

/// A ring around a cell is a square: its cells are so many columns or so many
/// rows away, and no further along the other. Nearer rings come first, and in
/// one ring the upper rows, and in one row the cells further left.
pub proof fn rings_are_squares(center: Cell, a: Cell, b: Cell)
    ensures
        ring(center, a) >= a.col - center.col && ring(center, a) >= center.col - a.col,
        ring(center, a) >= a.row - center.row && ring(center, a) >= center.row - a.row,
        ring(center, a) == a.col - center.col || ring(center, a) == center.col - a.col || ring(
            center,
            a,
        ) == a.row - center.row || ring(center, a) == center.row - a.row,
        ring(center, center) == 0,
        ring(center, a) < ring(center, b) ==> sooner(center, a, b) && !sooner(center, b, a),
        ring(center, a) == ring(center, b) && a.row < b.row ==> sooner(center, a, b) && !sooner(
            center,
            b,
            a,
        ),
        ring(center, a) == ring(center, b) && a.row == b.row && a.col < b.col ==> sooner(
            center,
            a,
            b,
        ) && !sooner(center, b, a),
        !sooner(center, a, a),
{
}

/// A cell that is no deep water stays; one that is goes to a cell that is
/// neither deep nor solid, in reach, with no such cell in a nearer ring, and
/// stays only where there is none in reach.
pub proof fn a_cell_in_deep_water_is_brought_ashore(
    deep: Seq<Cell>,
    solid: Seq<Cell>,
    reach: int,
    cell: Cell,
    r: Cell,
    o: Cell,
)
    requires
        dried(deep, solid, reach, cell, r),
    ensures
        !deep.contains(cell) ==> r == cell,
        r != cell ==> !deep.contains(r) && !solid.contains(r) && ring(cell, r) <= reach,
        deep.contains(cell) && r != cell && o != cell && ring(cell, o) < ring(cell, r)
            ==> deep.contains(o) || solid.contains(o),
        deep.contains(cell) && r == cell && 1 <= ring(cell, o) <= reach ==> deep.contains(o)
            || solid.contains(o),
{
    assert(dry(deep, solid, o) <==> !deep.contains(o) && !solid.contains(o));
}

} // verus!
