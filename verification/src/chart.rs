//! The routing grid as text: what is blocked, what is open, who stands where.

use vstd::prelude::*;

use crate::ranking::{ranked, ranking_sorts, sort_ranked, Ranked};

verus! {

/// A cell of the routing grid.
#[derive(Clone, Copy, Debug, PartialEq, Eq, Structural)]
pub struct Spot {
    pub col: usize,
    pub row: usize,
}

/// A tank on the chart.
#[derive(Clone, Copy, Debug, PartialEq, Eq, Structural)]
pub struct TankSpot {
    pub slot: usize,
    pub wreck: bool,
    /// None off the grid's corner.
    pub at: Option<Spot>,
}

impl Ranked for TankSpot {
    open spec fn ahead(self, other: TankSpot) -> bool {
        self.slot > other.slot
    }

    proof fn ranks(a: TankSpot, b: TankSpot, c: TankSpot) {
    }

    fn is_ahead(&self, other: &TankSpot) -> (r: bool) {
        self.slot > other.slot
    }
}

/// The nine enemies that get a digit.
pub open spec fn digits() -> Seq<char> {
    seq!['0', '1', '2', '3', '4', '5', '6', '7', '8', '9']
}

/// A tank's mark: a wreck's cross, the player's letter, an enemy's digit or,
/// past the ninth, a letter for any of them.
pub open spec fn tank_mark(t: TankSpot) -> char {
    if t.wreck {
        'x'
    } else if t.slot == 0 {
        'P'
    } else if t.slot < 10 {
        digits()[t.slot as int]
    } else {
        'E'
    }
}

fn mark_of(t: &TankSpot) -> (c: char)
    ensures
        c == tank_mark(*t),
{
    if t.wreck {
        'x'
    } else if t.slot == 0 {
        'P'
    } else if t.slot < 10 {
        let digits: [char; 10] = ['0', '1', '2', '3', '4', '5', '6', '7', '8', '9'];
        assert(digits@ =~= self::digits());
        digits[t.slot]
    } else {
        'E'
    }
}

/// A mark to draw.
#[derive(Clone, Copy, Debug, PartialEq, Eq, Structural)]
pub struct ChartMark {
    pub at: Option<Spot>,
    pub mark: char,
}

/// The marks in drawing order: pickups, frogs, and the tanks from the highest
/// slot down.
pub open spec fn marks_of(
    pickups: Seq<Option<Spot>>,
    frogs: Seq<Option<Spot>>,
    tanks: Seq<TankSpot>,
) -> Seq<ChartMark> {
    pickups.map_values(|at: Option<Spot>| ChartMark { at, mark: '*' }) + frogs.map_values(
        |at: Option<Spot>| ChartMark { at, mark: 'F' },
    ) + ranked(tanks).map_values(|t: TankSpot| ChartMark { at: t.at, mark: tank_mark(t) })
}

/// What a cell shows once the first `n` marks are drawn: the last of them on
/// it, or whether it is blocked.
pub open spec fn shown(blocked: bool, marks: Seq<ChartMark>, spot: Spot, n: int) -> char
    decreases n,
{
    if n <= 0 {
        if blocked {
            '#'
        } else {
            '.'
        }
    } else if marks[n - 1].at == Some(spot) {
        marks[n - 1].mark
    } else {
        shown(blocked, marks, spot, n - 1)
    }
}

fn push_spots(marks: &mut Vec<ChartMark>, spots: &Vec<Option<Spot>>, mark: char)
    ensures
        final(marks)@ == old(marks)@ + spots@.map_values(
            |at: Option<Spot>| ChartMark { at, mark },
        ),
{
    let ghost all = spots@.map_values(|at: Option<Spot>| ChartMark { at, mark });
    let mut n: usize = 0;
    assert(marks@ =~= old(marks)@ + all.take(0));
    while n < spots.len()
        invariant
            n <= spots@.len(),
            all == spots@.map_values(|at: Option<Spot>| ChartMark { at, mark }),
            marks@ == old(marks)@ + all.take(n as int),
        decreases spots@.len() - n,
    {
        marks.push(ChartMark { at: spots[n], mark });
        n += 1;
        assert(marks@ =~= old(marks)@ + all.take(n as int));
    }
    assert(all.take(n as int) =~= all);
}

fn push_tanks(marks: &mut Vec<ChartMark>, tanks: &Vec<TankSpot>)
    ensures
        final(marks)@ == old(marks)@ + tanks@.map_values(
            |t: TankSpot| ChartMark { at: t.at, mark: tank_mark(t) },
        ),
{
    let ghost all = tanks@.map_values(|t: TankSpot| ChartMark { at: t.at, mark: tank_mark(t) });
    let mut n: usize = 0;
    assert(marks@ =~= old(marks)@ + all.take(0));
    while n < tanks.len()
        invariant
            n <= tanks@.len(),
            all == tanks@.map_values(|t: TankSpot| ChartMark { at: t.at, mark: tank_mark(t) }),
            marks@ == old(marks)@ + all.take(n as int),
        decreases tanks@.len() - n,
    {
        marks.push(ChartMark { at: tanks[n].at, mark: mark_of(&tanks[n]) });
        n += 1;
        assert(marks@ =~= old(marks)@ + all.take(n as int));
    }
    assert(all.take(n as int) =~= all);
}

fn show(blocked: bool, marks: &Vec<ChartMark>, spot: Spot) -> (c: char)
    ensures
        c == shown(blocked, marks@, spot, marks@.len() as int),
{
    let mut c: char = if blocked {
        '#'
    } else {
        '.'
    };
    let mut n: usize = 0;
    while n < marks.len()
        invariant
            n <= marks@.len(),
            c == shown(blocked, marks@, spot, n as int),
        decreases marks@.len() - n,
    {
        if let Some(at) = marks[n].at {
            if at == spot {
                c = marks[n].mark;
            }
        }
        n += 1;
    }
    c
}

/// One row of the chart.
pub open spec fn chart_row(blocked: Seq<bool>, marks: Seq<ChartMark>, row: usize) -> Seq<char> {
    Seq::new(
        blocked.len(),
        |c: int| shown(blocked[c], marks, Spot { col: c as usize, row }, marks.len() as int),
    )
}

/// The first `n` rows, each ended by a line break.
pub open spec fn chart_text(blocked: Seq<Vec<bool>>, marks: Seq<ChartMark>, n: int) -> Seq<char>
    decreases n,
{
    if n <= 0 {
        Seq::empty()
    } else {
        chart_text(blocked, marks, n - 1) + chart_row(
            blocked[n - 1]@,
            marks,
            (n - 1) as usize,
        ).push('\n')
    }
}

/// The routing grid as text, top row first: `#` blocked, `.` open, and what
/// stands on each cell, later marks over earlier ones. A mark past the grid's
/// edge is not drawn.
pub fn nav_grid_ascii(
    blocked: &Vec<Vec<bool>>,
    pickups: &Vec<Option<Spot>>,
    frogs: &Vec<Option<Spot>>,
    tanks: &Vec<TankSpot>,
) -> (text: Vec<char>)
    ensures
        text@ == chart_text(
            blocked@,
            marks_of(pickups@, frogs@, tanks@),
            blocked@.len() as int,
        ),
{
    let mut marks: Vec<ChartMark> = Vec::new();
    push_spots(&mut marks, pickups, '*');
    push_spots(&mut marks, frogs, 'F');
    let sorted: Vec<TankSpot> = sort_ranked(tanks);
    push_tanks(&mut marks, &sorted);
    assert(marks@ =~= marks_of(pickups@, frogs@, tanks@));
    let mut text: Vec<char> = Vec::new();
    let mut row: usize = 0;
    while row < blocked.len()
        invariant
            row <= blocked@.len(),
            text@ == chart_text(blocked@, marks@, row as int),
        decreases blocked@.len() - row,
    {
        let ghost before = text@;
        let cells: &Vec<bool> = &blocked[row];
        let ghost whole = chart_row(cells@, marks@, row);
        let mut col: usize = 0;
        assert(text@ =~= before + whole.take(0));
        while col < cells.len()
            invariant
                col <= cells@.len(),
                whole == chart_row(cells@, marks@, row),
                text@ == before + whole.take(col as int),
            decreases cells@.len() - col,
        {
            let c: char = show(cells[col], &marks, Spot { col, row });
            text.push(c);
            col += 1;
            assert(text@ =~= before + whole.take(col as int));
        }
        text.push('\n');
        row += 1;
        assert(text@ =~= chart_text(blocked@, marks@, row as int));
    }
    text
}

/// A cell shows the last mark drawn on it, and without one whether it is
/// blocked.
pub proof fn a_cell_shows_its_last_mark(
    blocked: bool,
    marks: Seq<ChartMark>,
    spot: Spot,
    n: int,
    k: int,
)
    requires
        0 <= n <= marks.len(),
    ensures
        0 <= k < n && marks[k].at == Some(spot) && (forall|j: int|
            k < j < n ==> (#[trigger] marks[j]).at != Some(spot)) ==> shown(
            blocked,
            marks,
            spot,
            n,
        ) == marks[k].mark,
        (forall|j: int| 0 <= j < n ==> (#[trigger] marks[j]).at != Some(spot)) ==> shown(
            blocked,
            marks,
            spot,
            n,
        ) == if blocked {
            '#'
        } else {
            '.'
        },
    decreases n,
{
    if n > 0 {
        a_cell_shows_its_last_mark(blocked, marks, spot, n - 1, k);
    }
}

/// A wreck is a cross, the first seat a `P`, and everyone else its slot's digit,
/// or an `E` past the ninth; the lower a slot the later it is drawn.
pub proof fn what_a_tank_is_drawn_as(a: TankSpot, b: TankSpot)
    ensures
        a.wreck ==> tank_mark(a) == 'x',
        !a.wreck && a.slot == 0 ==> tank_mark(a) == 'P',
        !a.wreck && a.slot == 1 ==> tank_mark(a) == '1',
        !a.wreck && a.slot == 2 ==> tank_mark(a) == '2',
        !a.wreck && a.slot == 3 ==> tank_mark(a) == '3',
        !a.wreck && a.slot == 4 ==> tank_mark(a) == '4',
        !a.wreck && a.slot == 5 ==> tank_mark(a) == '5',
        !a.wreck && a.slot == 6 ==> tank_mark(a) == '6',
        !a.wreck && a.slot == 7 ==> tank_mark(a) == '7',
        !a.wreck && a.slot == 8 ==> tank_mark(a) == '8',
        !a.wreck && a.slot == 9 ==> tank_mark(a) == '9',
        !a.wreck && a.slot >= 10 ==> tank_mark(a) == 'E',
        a.ahead(b) <==> a.slot > b.slot,
{
}

/// Pickups are drawn first, as stars, the frogs over them, and the tanks over
/// those.
pub proof fn tanks_are_drawn_over_everything(
    pickups: Seq<Option<Spot>>,
    frogs: Seq<Option<Spot>>,
    tanks: Seq<TankSpot>,
    k: int,
)
    ensures
        ({
            let m = marks_of(pickups, frogs, tanks);
            &&& m.len() == pickups.len() + frogs.len() + tanks.len()
            &&& 0 <= k < pickups.len() ==> m[k].at == pickups[k] && m[k].mark == '*'
            &&& 0 <= k < frogs.len() ==> m[pickups.len() + k].at == frogs[k] && m[pickups.len()
                + k].mark == 'F'
            &&& 0 <= k < tanks.len() ==> m[pickups.len() + frogs.len() + k].at == ranked(
                tanks,
            )[k].at
        }),
{
    ranking_sorts(tanks);
}

} // verus!
