//! Standing tiles as a layout: which faces of a wall are exposed, and what is
//! cleared away at the end of a frame.

use vstd::prelude::*;

use crate::field::{lists, thing, Field};
use crate::kinds::Cell;
use crate::pieces::{Piece, Shot, ShotState, Tile};
use crate::ranking::{in_order, ranked, sort_ranked, Ranked};
use crate::scalar::Point;

verus! {

/// A cell of the grid is one of `cells`.
pub open spec fn holds(cells: Set<Cell>, col: int, row: int) -> bool {
    i32::MIN <= col <= i32::MAX && i32::MIN <= row <= i32::MAX && cells.contains(
        Cell { col: col as i32, row: row as i32 },
    )
}

/// A bit's worth, if it is set.
pub open spec fn bit(set: bool, worth: int) -> int {
    if set {
        worth
    } else {
        0
    }
}

/// The eight-neighbour mask of a cell, clockwise from north in the low bit.
/// A diagonal counts only where both of its orthogonals do.
pub open spec fn mask(cell: Cell, cells: Set<Cell>) -> int {
    let n = holds(cells, cell.col as int, cell.row - 1);
    let e = holds(cells, cell.col + 1, cell.row as int);
    let s = holds(cells, cell.col as int, cell.row + 1);
    let w = holds(cells, cell.col - 1, cell.row as int);
    bit(n, 1) + bit(n && e && holds(cells, cell.col + 1, cell.row - 1), 2) + bit(e, 4) + bit(
        s && e && holds(cells, cell.col + 1, cell.row + 1),
        8,
    ) + bit(s, 16) + bit(s && w && holds(cells, cell.col - 1, cell.row + 1), 32) + bit(w, 64) + bit(
        n && w && holds(cells, cell.col - 1, cell.row - 1),
        128,
    )
}

fn holds_cell(cells: &Vec<Cell>, col: i64, row: i64) -> (r: bool)
    ensures
        r == holds(cells@.to_set(), col as int, row as int),
{
    let mut i: usize = 0;
    while i < cells.len()
        invariant
            i <= cells@.len(),
            forall|j: int|
                0 <= j < i ==> !((#[trigger] cells@[j]).col == col && cells@[j].row == row),
        decreases cells@.len() - i,
    {
        if cells[i].col as i64 == col && cells[i].row as i64 == row {
            assert(cells@[i as int] == Cell { col: col as i32, row: row as i32 });
            return true;
        }
        i += 1;
    }
    false
}

/// Which of a cell's eight neighbours are among `cells`.
pub fn neighbour_mask(cell: Cell, cells: &Vec<Cell>) -> (m: u8)
    ensures
        m == mask(cell, cells@.to_set()),
{
    let c: i64 = cell.col as i64;
    let r: i64 = cell.row as i64;
    let n: bool = holds_cell(cells, c, r - 1);
    let e: bool = holds_cell(cells, c + 1, r);
    let s: bool = holds_cell(cells, c, r + 1);
    let w: bool = holds_cell(cells, c - 1, r);
    let ne: bool = n && e && holds_cell(cells, c + 1, r - 1);
    let se: bool = s && e && holds_cell(cells, c + 1, r + 1);
    let sw: bool = s && w && holds_cell(cells, c - 1, r + 1);
    let nw: bool = n && w && holds_cell(cells, c - 1, r - 1);
    let north: u8 = if n { 1 } else { 0 };
    let north_east: u8 = if ne { 2 } else { 0 };
    let east: u8 = if e { 4 } else { 0 };
    let south_east: u8 = if se { 8 } else { 0 };
    let south: u8 = if s { 16 } else { 0 };
    let south_west: u8 = if sw { 32 } else { 0 };
    let west: u8 = if w { 64 } else { 0 };
    let north_west: u8 = if nw { 128 } else { 0 };
    north + north_east + east + south_east + south + south_west + west + north_west
}

/// The cells a wall stands on.
pub open spec fn wall_cells(pieces: Map<u64, Piece>) -> Set<Cell> {
    Set::new(
        |cell: Cell|
            exists|id: u64|
                (#[trigger] thing::<Tile>(pieces, id)) matches Some(t) && t.material.is_wall()
                    && !t.destroyed && t.cell == cell,
    )
}

/// A piece with its faces worked out afresh: a wall's mask follows the layout,
/// anything else is left alone.
pub open spec fn faced(piece: Piece, cells: Set<Cell>) -> Piece {
    match piece {
        Piece::Tile(t) => if t.material.is_wall() {
            Piece::Tile(Tile { edge_mask: mask(t.cell, cells) as u8, ..t })
        } else {
            piece
        },
        _ => piece,
    }
}

/// The field with every wall's mask worked out afresh.
pub open spec fn refaced(pieces: Map<u64, Piece>) -> Map<u64, Piece> {
    pieces.map_values(|piece: Piece| faced(piece, wall_cells(pieces)))
}

/// Every wall's mask says which of its neighbours are walls.
pub open spec fn masks_right(pieces: Map<u64, Piece>) -> bool {
    forall|id: u64|
        (#[trigger] thing::<Tile>(pieces, id)) matches Some(t) ==> (t.material.is_wall()
            ==> t.edge_mask == mask(t.cell, laid_cells(pieces)))
}

/// The cells a wall is laid on, whether or not it is about to be cleared away.
pub open spec fn laid_cells(pieces: Map<u64, Piece>) -> Set<Cell> {
    Set::new(
        |cell: Cell|
            exists|id: u64|
                (#[trigger] thing::<Tile>(pieces, id)) matches Some(t) && t.material.is_wall()
                    && t.cell == cell,
    )
}

fn standing_walls(tiles: &Vec<(u64, Tile)>) -> (cells: Vec<Cell>)
    ensures
        forall|cell: Cell| #[trigger]
            cells@.contains(cell) <==> exists|i: int|
                0 <= i < tiles@.len() && (#[trigger] tiles@[i]).1.material.is_wall()
                    && !tiles@[i].1.destroyed && tiles@[i].1.cell == cell,
{
    let mut cells: Vec<Cell> = Vec::new();
    let mut n: usize = 0;
    while n < tiles.len()
        invariant
            n <= tiles@.len(),
            forall|cell: Cell| #[trigger]
                cells@.contains(cell) <==> exists|i: int|
                    0 <= i < n && (#[trigger] tiles@[i]).1.material.is_wall()
                        && !tiles@[i].1.destroyed && tiles@[i].1.cell == cell,
        decreases tiles@.len() - n,
    {
        let ghost before = cells@;
        let t: Tile = tiles[n].1;
        if t.material.is_wall() && !t.destroyed {
            cells.push(t.cell);
        }
        assert forall|cell: Cell| #[trigger] cells@.contains(cell) <==> exists|i: int|
            0 <= i < n + 1 && (#[trigger] tiles@[i]).1.material.is_wall()
                && !tiles@[i].1.destroyed && tiles@[i].1.cell == cell by {
            if before.contains(cell) {
                let k = choose|k: int| 0 <= k < before.len() && before[k] == cell;
                assert(cells@[k] == cell);
                let i = choose|i: int|
                    0 <= i < n && (#[trigger] tiles@[i]).1.material.is_wall()
                        && !tiles@[i].1.destroyed && tiles@[i].1.cell == cell;
                assert(tiles@[i].1.cell == cell);
            }
            if cells@.contains(cell) && !before.contains(cell) {
                let k = choose|k: int| 0 <= k < cells@.len() && cells@[k] == cell;
                if k < before.len() {
                    assert(before[k] == cell);
                }
                assert(tiles@[n as int].1.cell == cell);
            }
            if exists|i: int|
                0 <= i < n + 1 && (#[trigger] tiles@[i]).1.material.is_wall()
                    && !tiles@[i].1.destroyed && tiles@[i].1.cell == cell {
                let i = choose|i: int|
                    0 <= i < n + 1 && (#[trigger] tiles@[i]).1.material.is_wall()
                        && !tiles@[i].1.destroyed && tiles@[i].1.cell == cell;
                if i < n {
                    assert(before.contains(cell));
                } else {
                    assert(cells@[before.len() as int] == cell);
                }
            }
        }
        n += 1;
    }
    cells
}

proof fn lemma_mask_range(cell: Cell, cells: Set<Cell>)
    ensures
        0 <= mask(cell, cells) <= 255,
{
}

/// Work out every wall's mask afresh. A layout changes only by losing tiles,
/// so this runs once when the field is laid out and again after each loss.
pub fn refresh_edge_masks(field: &mut Field)
    requires
        old(field).wf(),
    ensures
        final(field).wf(),
        final(field)@ == refaced(old(field)@),
{
    let tiles: Vec<(u64, Tile)> = field.all();
    let cells: Vec<Cell> = standing_walls(&tiles);
    let ghost before = field@;
    proof {
        assert forall|cell: Cell| #[trigger] cells@.to_set().contains(cell) <==> wall_cells(
            before,
        ).contains(cell) by {
            if cells@.contains(cell) {
                let i = choose|i: int|
                    0 <= i < tiles@.len() && (#[trigger] tiles@[i]).1.material.is_wall()
                        && !tiles@[i].1.destroyed && tiles@[i].1.cell == cell;
                assert(thing::<Tile>(before, tiles@[i].0) == Some(tiles@[i].1));
            }
            if wall_cells(before).contains(cell) {
                let id = choose|id: u64|
                    (#[trigger] thing::<Tile>(before, id)) matches Some(t) && t.material.is_wall()
                        && !t.destroyed && t.cell == cell;
                let i = choose|i: int| 0 <= i < tiles@.len() && (#[trigger] tiles@[i]).0 == id;
                assert(tiles@[i].1.cell == cell);
            }
        }
        assert(cells@.to_set() =~= wall_cells(before));
    }
    let mut n: usize = 0;
    while n < tiles.len()
        invariant
            n <= tiles@.len(),
            field.wf(),
            lists::<Tile>(before, tiles@),
            cells@.to_set() == wall_cells(before),
            field@.dom() == before.dom(),
            forall|id: u64| #[trigger]
                before.contains_key(id) ==> field@[id] == (if exists|j: int|
                    0 <= j < n && (#[trigger] tiles@[j]).0 == id {
                    faced(before[id], wall_cells(before))
                } else {
                    before[id]
                }),
        decreases tiles@.len() - n,
    {
        let (id, t) = tiles[n];
        let ghost mid = field@;
        assert(thing::<Tile>(before, tiles@[n as int].0) == Some(tiles@[n as int].1));
        assert(before.contains_key(id));
        assert(field@.dom().contains(id));
        if t.material.is_wall() {
            let m: u8 = neighbour_mask(t.cell, &cells);
            field.put(id, Tile { edge_mask: m, ..t });
        }
        assert forall|other: u64| #[trigger] before.contains_key(other) implies field@[other] == (
        if exists|j: int| 0 <= j < n + 1 && (#[trigger] tiles@[j]).0 == other {
            faced(before[other], wall_cells(before))
        } else {
            before[other]
        }) by {
            if other == id {
                assert(tiles@[n as int].0 == other);
                assert(before[id] == Piece::Tile(t));
                if !t.material.is_wall() {
                    assert(faced(before[id], wall_cells(before)) == before[id]);
                }
            } else {
                assert(field@[other] == mid[other]);
                if exists|j: int| 0 <= j < n + 1 && (#[trigger] tiles@[j]).0 == other {
                    let j = choose|j: int| 0 <= j < n + 1 && (#[trigger] tiles@[j]).0 == other;
                    assert(j < n);
                }
            }
        }
        n += 1;
    }
    assert forall|id: u64| #[trigger] before.contains_key(id) implies field@[id] == faced(
        before[id],
        wall_cells(before),
    ) by {
        if let Some(t) = thing::<Tile>(before, id) {
            let i = choose|i: int| 0 <= i < tiles@.len() && (#[trigger] tiles@[i]).0 == id;
            assert(0 <= i < n);
        } else {
            assert(before[id] !is Tile);
        }
    }
    assert(field@ =~= refaced(before));
}

/// Working the masks out afresh makes every one of them right, as long as no
/// tile is waiting to be cleared away.
pub proof fn refreshed_masks_are_right(pieces: Map<u64, Piece>)
    requires
        forall|id: u64|
            (#[trigger] thing::<Tile>(pieces, id)) matches Some(t) ==> !t.destroyed,
    ensures
        masks_right(refaced(pieces)),
{
    let after = refaced(pieces);
    assert forall|id: u64| true implies (#[trigger] thing::<Tile>(after, id)) is Some
        == thing::<Tile>(pieces, id) is Some by {
        assert(after.contains_key(id) == pieces.contains_key(id));
    }
    assert forall|cell: Cell| laid_cells(after).contains(cell) == wall_cells(pieces).contains(
        cell,
    ) by {
        if laid_cells(after).contains(cell) {
            let id = choose|id: u64|
                (#[trigger] thing::<Tile>(after, id)) matches Some(t) && t.material.is_wall()
                    && t.cell == cell;
            let t = thing::<Tile>(pieces, id)->0;
            assert(!t.destroyed && t.material.is_wall() && t.cell == cell);
        }
        if wall_cells(pieces).contains(cell) {
            let id = choose|id: u64|
                (#[trigger] thing::<Tile>(pieces, id)) matches Some(t) && t.material.is_wall()
                    && !t.destroyed && t.cell == cell;
            let t = thing::<Tile>(after, id)->0;
            assert(t.material.is_wall() && t.cell == cell);
        }
    }
    assert(laid_cells(after) =~= wall_cells(pieces));
    assert forall|id: u64| (#[trigger] thing::<Tile>(after, id)) is Some && thing::<
        Tile,
    >(after, id)->0.material.is_wall() implies thing::<Tile>(after, id)->0.edge_mask == mask(
        thing::<Tile>(after, id)->0.cell,
        laid_cells(after),
    ) by {
        let was = thing::<Tile>(pieces, id)->0;
        lemma_mask_range(was.cell, wall_cells(pieces));
    }
}

/// Gone at the end of the frame: a shot that has finished its impact, a tile
/// that was destroyed.
pub open spec fn spent(piece: Piece) -> bool {
    match piece {
        Piece::Shot(shot) => shot.state == ShotState::Done,
        Piece::Tile(tile) => tile.destroyed,
        _ => false,
    }
}

/// What is left of a field once the spent things are gone.
pub open spec fn kept(pieces: Map<u64, Piece>) -> Map<u64, Piece> {
    pieces.restrict(Set::new(|id: u64| pieces.contains_key(id) && !spent(pieces[id])))
}

/// Some tile was destroyed.
pub open spec fn loses_tiles(pieces: Map<u64, Piece>) -> bool {
    exists|id: u64| (#[trigger] thing::<Tile>(pieces, id)) matches Some(t) && t.destroyed
}

/// The field at the end of a frame.
pub open spec fn cleaned(pieces: Map<u64, Piece>) -> Map<u64, Piece> {
    if loses_tiles(pieces) {
        refaced(kept(pieces))
    } else {
        kept(pieces)
    }
}

/// Clearing up leaves no spent thing behind, and walls whose masks were right
/// for the layout as it stood have the right ones for what is left of it.
pub proof fn cleaning_keeps_masks_right(pieces: Map<u64, Piece>)
    requires
        masks_right(pieces),
    ensures
        masks_right(cleaned(pieces)),
        forall|id: u64| #[trigger] cleaned(pieces).contains_key(id) ==> !spent(cleaned(pieces)[id]),
{
    let left = kept(pieces);
    assert forall|id: u64| (#[trigger] thing::<Tile>(left, id)) is Some implies !thing::<
        Tile,
    >(left, id)->0.destroyed by {
        assert(!spent(pieces[id]));
    }
    refreshed_masks_are_right(left);
    if !loses_tiles(pieces) {
        assert forall|id: u64| true implies #[trigger] thing::<Tile>(left, id) == thing::<Tile>(
            pieces,
            id,
        ) by {
            if let Some(t) = thing::<Tile>(pieces, id) {
                assert(!spent(pieces[id]));
            }
        }
        assert forall|cell: Cell| laid_cells(left).contains(cell) == laid_cells(pieces).contains(
            cell,
        ) by {
            if laid_cells(left).contains(cell) {
                let id = choose|id: u64|
                    (#[trigger] thing::<Tile>(left, id)) matches Some(t) && t.material.is_wall()
                        && t.cell == cell;
                assert(thing::<Tile>(pieces, id) == thing::<Tile>(left, id));
            }
            if laid_cells(pieces).contains(cell) {
                let id = choose|id: u64|
                    (#[trigger] thing::<Tile>(pieces, id)) matches Some(t) && t.material.is_wall()
                        && t.cell == cell;
                assert(thing::<Tile>(left, id) == thing::<Tile>(pieces, id));
            }
        }
        assert(laid_cells(left) =~= laid_cells(pieces));
        assert forall|id: u64| (#[trigger] thing::<Tile>(left, id)) is Some && thing::<
            Tile,
        >(left, id)->0.material.is_wall() implies thing::<Tile>(left, id)->0.edge_mask == mask(
            thing::<Tile>(left, id)->0.cell,
            laid_cells(left),
        ) by {
            assert(thing::<Tile>(pieces, id) == thing::<Tile>(left, id));
        }
    }
    assert forall|id: u64| #[trigger] cleaned(pieces).contains_key(id) implies !spent(
        cleaned(pieces)[id],
    ) by {
        assert(left.contains_key(id));
        assert(!spent(left[id]));
    }
}

fn finished_shots(field: &Field) -> (ids: Vec<u64>)
    ensures
        forall|id: u64| #[trigger]
            ids@.contains(id) <==> (thing::<Shot>(field@, id) matches Some(s) && s.state
                == ShotState::Done),
{
    let shots: Vec<(u64, Shot)> = field.all();
    let mut ids: Vec<u64> = Vec::new();
    let mut n: usize = 0;
    while n < shots.len()
        invariant
            n <= shots@.len(),
            forall|id: u64| #[trigger]
                ids@.contains(id) <==> exists|i: int|
                    0 <= i < n && (#[trigger] shots@[i]).0 == id && shots@[i].1.state
                        == ShotState::Done,
        decreases shots@.len() - n,
    {
        let ghost before = ids@;
        let (id, shot) = shots[n];
        if shot.state == ShotState::Done {
            ids.push(id);
            assert(ids@[before.len() as int] == id);
        }
        assert forall|other: u64| #[trigger] ids@.contains(other) <==> exists|i: int|
            0 <= i < n + 1 && (#[trigger] shots@[i]).0 == other && shots@[i].1.state
                == ShotState::Done by {
            if before.contains(other) {
                let k = choose|k: int| 0 <= k < before.len() && before[k] == other;
                assert(ids@[k] == other);
                let i = choose|i: int|
                    0 <= i < n && (#[trigger] shots@[i]).0 == other && shots@[i].1.state
                        == ShotState::Done;
                assert(shots@[i].0 == other);
            } else if ids@.contains(other) {
                let k = choose|k: int| 0 <= k < ids@.len() && ids@[k] == other;
                assert(k == before.len()) by {
                    if k < before.len() {
                        assert(before[k] == other);
                    }
                }
                assert(shots@[n as int].0 == other);
            }
        }
        n += 1;
    }
    assert forall|id: u64| #[trigger] ids@.contains(id) <==> (thing::<Shot>(field@, id) matches Some(
        s,
    ) && s.state == ShotState::Done) by {
        if ids@.contains(id) {
            let i = choose|i: int|
                0 <= i < n && (#[trigger] shots@[i]).0 == id && shots@[i].1.state
                    == ShotState::Done;
            assert(thing::<Shot>(field@, shots@[i].0) == Some(shots@[i].1));
        }
        if let Some(s) = thing::<Shot>(field@, id) {
            let i = choose|i: int| 0 <= i < shots@.len() && (#[trigger] shots@[i]).0 == id;
            assert(thing::<Shot>(field@, shots@[i].0) == Some(shots@[i].1));
        }
    }
    ids
}

fn destroyed_tiles(field: &Field) -> (ids: Vec<u64>)
    ensures
        forall|id: u64| #[trigger]
            ids@.contains(id) <==> (thing::<Tile>(field@, id) matches Some(t) && t.destroyed),
        ids@.no_duplicates(),
{
    let tiles: Vec<(u64, Tile)> = field.all();
    let mut ids: Vec<u64> = Vec::new();
    let mut n: usize = 0;
    while n < tiles.len()
        invariant
            n <= tiles@.len(),
            lists::<Tile>(field@, tiles@),
            ids@.no_duplicates(),
            forall|id: u64| #[trigger]
                ids@.contains(id) <==> exists|i: int|
                    0 <= i < n && (#[trigger] tiles@[i]).0 == id && tiles@[i].1.destroyed,
        decreases tiles@.len() - n,
    {
        let ghost before = ids@;
        let (id, tile) = tiles[n];
        if tile.destroyed {
            assert(!before.contains(id)) by {
                if before.contains(id) {
                    let i = choose|i: int|
                        0 <= i < n && (#[trigger] tiles@[i]).0 == id && tiles@[i].1.destroyed;
                    assert(tiles@[i].0 != tiles@[n as int].0);
                }
            }
            ids.push(id);
            assert(ids@[before.len() as int] == id);
        }
        assert forall|other: u64| #[trigger] ids@.contains(other) <==> exists|i: int|
            0 <= i < n + 1 && (#[trigger] tiles@[i]).0 == other && tiles@[i].1.destroyed by {
            if before.contains(other) {
                let k = choose|k: int| 0 <= k < before.len() && before[k] == other;
                assert(ids@[k] == other);
                let i = choose|i: int|
                    0 <= i < n && (#[trigger] tiles@[i]).0 == other && tiles@[i].1.destroyed;
                assert(tiles@[i].0 == other);
            } else if ids@.contains(other) {
                let k = choose|k: int| 0 <= k < ids@.len() && ids@[k] == other;
                assert(k == before.len()) by {
                    if k < before.len() {
                        assert(before[k] == other);
                    }
                }
                assert(tiles@[n as int].0 == other);
            }
        }
        n += 1;
    }
    assert forall|id: u64| #[trigger] ids@.contains(id) <==> (thing::<Tile>(field@, id) matches Some(
        t,
    ) && t.destroyed) by {
        if ids@.contains(id) {
            let i = choose|i: int|
                0 <= i < n && (#[trigger] tiles@[i]).0 == id && tiles@[i].1.destroyed;
            assert(thing::<Tile>(field@, tiles@[i].0) == Some(tiles@[i].1));
        }
        if let Some(t) = thing::<Tile>(field@, id) {
            let i = choose|i: int| 0 <= i < tiles@.len() && (#[trigger] tiles@[i]).0 == id;
            assert(thing::<Tile>(field@, tiles@[i].0) == Some(tiles@[i].1));
        }
    }
    ids
}

fn despawn_each(field: &mut Field, ids: &Vec<u64>)
    requires
        old(field).wf(),
    ensures
        final(field).wf(),
        final(field)@ == old(field)@.remove_keys(ids@.to_set()),
{
    let mut n: usize = 0;
    assert(field@ =~= field@.remove_keys(ids@.take(0).to_set()));
    while n < ids.len()
        invariant
            n <= ids@.len(),
            field.wf(),
            field@ == old(field)@.remove_keys(ids@.take(n as int).to_set()),
        decreases ids@.len() - n,
    {
        field.despawn(ids[n]);
        proof {
            let less = ids@.take(n as int);
            let more = ids@.take(n + 1);
            assert(more =~= less.push(ids@[n as int]));
            assert forall|id: u64| more.to_set().contains(id) == less.to_set().insert(
                ids@[n as int],
            ).contains(id) by {
                if less.contains(id) {
                    let k = choose|k: int| 0 <= k < less.len() && less[k] == id;
                    assert(more[k] == id);
                }
                if more.contains(id) {
                    let k = choose|k: int| 0 <= k < more.len() && more[k] == id;
                    if k < less.len() {
                        assert(less[k] == id);
                    }
                }
                assert(more[n as int] == ids@[n as int]);
            }
            assert(more.to_set() =~= less.to_set().insert(ids@[n as int]));
            assert(field@ =~= old(field)@.remove_keys(more.to_set()));
        }
        n += 1;
    }
    assert(ids@.take(n as int) =~= ids@);
}

/// Clear away what is spent. Returns the tiles that went, whose bodies the
/// host removes; where any did, the walls around them have newly exposed faces
/// and the masks are worked out afresh.
pub fn cleanup_done(field: &mut Field) -> (removed: Vec<u64>)
    requires
        old(field).wf(),
    ensures
        final(field).wf(),
        final(field)@ == cleaned(old(field)@),
        removed@.no_duplicates(),
        forall|id: u64| #[trigger]
            removed@.contains(id) <==> (thing::<Tile>(old(field)@, id) matches Some(t)
                && t.destroyed),
{
    let ghost before = field@;
    let shots: Vec<u64> = finished_shots(field);
    let tiles: Vec<u64> = destroyed_tiles(field);
    despawn_each(field, &shots);
    despawn_each(field, &tiles);
    proof {
        assert forall|id: u64| field@.contains_key(id) == kept(before).contains_key(id) by {
            assert(shots@.to_set().contains(id) == shots@.contains(id));
            assert(tiles@.to_set().contains(id) == tiles@.contains(id));
            if before.contains_key(id) {
                match before[id] {
                    Piece::Shot(s) => {
                        assert(thing::<Shot>(before, id) == Some(s));
                        assert(thing::<Tile>(before, id) is None);
                    },
                    Piece::Tile(t) => {
                        assert(thing::<Tile>(before, id) == Some(t));
                        assert(thing::<Shot>(before, id) is None);
                    },
                    _ => {
                        assert(thing::<Shot>(before, id) is None);
                        assert(thing::<Tile>(before, id) is None);
                    },
                }
            }
        }
        assert(field@ =~= kept(before));
        if tiles@.len() > 0 {
            assert(tiles@.contains(tiles@[0]));
            assert(loses_tiles(before));
        } else if loses_tiles(before) {
            let id = choose|id: u64|
                (#[trigger] thing::<Tile>(before, id)) matches Some(t) && t.destroyed;
            assert(tiles@.contains(id));
        }
    }
    if tiles.len() > 0 {
        refresh_edge_masks(field);
    }
    tiles
}

/// A tuft of tall grass, by where it is rooted.
#[derive(Clone, Copy, Debug, PartialEq, Eq, Structural)]
pub struct Tuft {
    pub base: Point,
    /// Which of the host's sprites it is.
    pub sprite: usize,
}

impl Ranked for Tuft {
    open spec fn ahead(self, other: Tuft) -> bool {
        self.base.y.total_rank() < other.base.y.total_rank()
    }

    proof fn ranks(a: Tuft, b: Tuft, c: Tuft) {
    }

    fn is_ahead(&self, other: &Tuft) -> (r: bool) {
        self.base.y.total_key() < other.base.y.total_key()
    }
}

/// The tufts in the order they are drawn in: by where each is rooted, from the
/// top of the field down, tufts level with each other as they came.
pub fn root_order(tufts: &Vec<Tuft>) -> (sorted: Vec<Tuft>)
    ensures
        sorted@ == ranked(tufts@),
        in_order(sorted@),
        sorted@.to_multiset() == tufts@.to_multiset(),
{
    sort_ranked(tufts)
}

/// Each bit of a mask stands for one neighbour, clockwise from the north: the
/// four straight ones by whether a wall is there, the four diagonals by whether
/// a wall is there and on both cells beside the corner.
#[verifier::spinoff_prover]
pub proof fn a_mask_says_which_neighbours_are_walls(cell: Cell, cells: Set<Cell>)
    requires
        i32::MIN < cell.col < i32::MAX,
        i32::MIN < cell.row < i32::MAX,
    ensures
        ({
            let at = |dc: int, dr: int|
                cells.contains(
                    Cell { col: (cell.col + dc) as i32, row: (cell.row + dr) as i32 },
                );
            let m = mask(cell, cells);
            &&& 0 <= m < 256
            &&& m % 2 == 1 <==> at(0, -1)
            &&& (m / 2) % 2 == 1 <==> at(0, -1) && at(1, 0) && at(1, -1)
            &&& (m / 4) % 2 == 1 <==> at(1, 0)
            &&& (m / 8) % 2 == 1 <==> at(0, 1) && at(1, 0) && at(1, 1)
            &&& (m / 16) % 2 == 1 <==> at(0, 1)
            &&& (m / 32) % 2 == 1 <==> at(0, 1) && at(-1, 0) && at(-1, 1)
            &&& (m / 64) % 2 == 1 <==> at(-1, 0)
            &&& (m / 128) % 2 == 1 <==> at(0, -1) && at(-1, 0) && at(-1, -1)
        }),
{
}

/// A wall that stands counts for its neighbours' faces, and nothing else does;
/// working the faces out changes a wall's mask and nothing else of anything.
pub proof fn only_standing_walls_count(pieces: Map<u64, Piece>, id: u64, cell: Cell)
    requires
        pieces.contains_key(id),
    ensures
        pieces[id] is Tile && (pieces[id]->Tile_0.material is Brick || pieces[id]->Tile_0.material
            is Iron || pieces[id]->Tile_0.material is Wood || pieces[id]->Tile_0.material is Glass)
            && !pieces[id]->Tile_0.destroyed && pieces[id]->Tile_0.cell == cell ==> wall_cells(
            pieces,
        ).contains(cell),
        wall_cells(pieces).contains(cell) ==> exists|e: u64|
            {
                &&& #[trigger] pieces.contains_key(e) && pieces[e] is Tile
                &&& pieces[e]->Tile_0.cell == cell && !pieces[e]->Tile_0.destroyed
                &&& pieces[e]->Tile_0.material is Brick || pieces[e]->Tile_0.material is Iron
                    || pieces[e]->Tile_0.material is Wood || pieces[e]->Tile_0.material is Glass
            },
        ({
            let after = refaced(pieces);
            &&& after.contains_key(id)
            &&& !(pieces[id] is Tile) ==> after[id] == pieces[id]
            &&& pieces[id] is Tile ==> after[id] is Tile && after[id]->Tile_0 == (Tile {
                edge_mask: after[id]->Tile_0.edge_mask,
                ..pieces[id]->Tile_0
            })
            &&& pieces[id] is Tile && (pieces[id]->Tile_0.material is Brick
                || pieces[id]->Tile_0.material is Iron || pieces[id]->Tile_0.material is Wood
                || pieces[id]->Tile_0.material is Glass) ==> after[id]->Tile_0.edge_mask == mask(
                pieces[id]->Tile_0.cell,
                wall_cells(pieces),
            ) as u8
            &&& pieces[id] is Tile && !(pieces[id]->Tile_0.material is Brick
                || pieces[id]->Tile_0.material is Iron || pieces[id]->Tile_0.material is Wood
                || pieces[id]->Tile_0.material is Glass) ==> after[id] == pieces[id]
        }),
{
    if pieces[id] is Tile {
        assert(thing::<Tile>(pieces, id) == Some(pieces[id]->Tile_0));
    }
    if wall_cells(pieces).contains(cell) {
        let e = choose|e: u64|
            (#[trigger] thing::<Tile>(pieces, e)) matches Some(t) && t.material.is_wall()
                && !t.destroyed && t.cell == cell;
        assert(pieces.contains_key(e));
    }
}

/// At the end of a frame a shot that has finished and a tile that was destroyed
/// are gone, and everything else is still there, unchanged but for the faces
/// of walls.
pub proof fn only_the_spent_is_cleared_away(pieces: Map<u64, Piece>, id: u64)
    requires
        pieces.contains_key(id),
    ensures
        ({
            let after = cleaned(pieces);
            match pieces[id] {
                Piece::Shot(s) => {
                    &&& s.state is Done ==> !after.contains_key(id)
                    &&& !(s.state is Done) ==> after.contains_key(id) && after[id] == pieces[id]
                },
                Piece::Tile(t) => {
                    &&& t.destroyed ==> !after.contains_key(id)
                    &&& !t.destroyed ==> after.contains_key(id) && after[id] is Tile
                        && after[id]->Tile_0 == (Tile {
                        edge_mask: after[id]->Tile_0.edge_mask,
                        ..t
                    })
                },
                _ => after.contains_key(id) && after[id] == pieces[id],
            }
        }),
{
    let left = kept(pieces);
    if left.contains_key(id) {
        only_standing_walls_count(left, id, Cell { col: 0, row: 0 });
    }
}

/// Grass is drawn from the top of the field down.
pub proof fn grass_is_drawn_from_the_top(a: Tuft, b: Tuft)
    ensures
        a.ahead(b) <==> a.base.y.total_rank() < b.base.y.total_rank(),
{
}

} // verus!
