//! The review heatmap: a grid of the last twelve weeks, one column per week
//! (oldest first) and one row per weekday (Sunday first), and the shade of
//! each cell.

use vstd::prelude::*;

use crate::date::Date;
use crate::date::FIRST_DAY;
use crate::date::LAST_DAY;

verus! {

/// The number of weeks (columns) shown.
pub const WEEKS: usize = 12;

/// The number of days in a week (rows).
pub const DAYS_PER_WEEK: usize = 7;

/// A single cell of raw data before rendering.
#[derive(Clone, Copy, Debug, PartialEq, Eq, Structural)]
pub struct Cell {
    /// The date this cell represents, or `None` if it's a future day in the
    /// current week (a gap in the last column).
    pub date: Option<Date>,
    /// The number of cards reviewed on that date. Zero for gaps.
    pub count: usize,
}

/// The day number of the Sunday that starts the first column.
pub open spec fn grid_start(today: Date) -> int {
    today.days - today.weekday_from_sunday() - 7 * (WEEKS - 1)
}

/// The count recorded for a date: the first entry for it, else zero.
pub open spec fn count_on(counts: Seq<(Date, usize)>, d: Date) -> usize
    decreases counts.len(),
{
    if counts.len() == 0 {
        0
    } else if counts[0].0 == d {
        counts[0].1
    } else {
        count_on(counts.drop_first(), d)
    }
}

/// The cell in column `week`, row `day`.
pub open spec fn grid_cell(today: Date, counts: Seq<(Date, usize)>, week: int, day: int) -> Cell {
    let n = grid_start(today) + 7 * week + day;
    if n > today.days {
        Cell { date: None, count: 0 }
    } else {
        Cell { date: Some(Date { days: n as i32 }), count: count_on(counts, Date { days: n as i32 }) }
    }
}

/// Can the grid for `today` be built within the calendar?
pub open spec fn grid_in_calendar(today: Date) -> bool {
    FIRST_DAY <= grid_start(today) && grid_start(today) + 7 * WEEKS <= LAST_DAY + 1
}

/// Today is in the last column, in the row of its weekday; the later days of
/// that column are gaps; the first cell is the Sunday eleven weeks before
/// the Sunday of today's week.
pub proof fn lemma_grid_anchors(today: Date, counts: Seq<(Date, usize)>)
    requires
        grid_in_calendar(today),
    ensures
        grid_cell(today, counts, WEEKS - 1, today.weekday_from_sunday()).date == Some(today),
        forall|d: int|
            today.weekday_from_sunday() < d < DAYS_PER_WEEK ==> (#[trigger] grid_cell(today, counts, WEEKS - 1, d)).date is None,
        grid_cell(today, counts, 0, 0).date == Some(Date { days: grid_start(today) as i32 }),
        grid_start(today) % 7 == 0,
{
    assert(0 <= today.weekday_from_sunday() < 7);
    assert(grid_start(today) % 7 == 0) by {
        vstd::arithmetic::div_mod::lemma_fundamental_div_mod(today.days as int, 7);
    }
}

/// The count recorded for a date.
fn lookup_count(counts: &Vec<(Date, usize)>, d: Date) -> (c: usize)
    ensures
        c == count_on(counts@, d),
{
    let mut k: usize = 0;
    proof {
        assert(counts@.skip(0) =~= counts@);
    }
    while k < counts.len()
        invariant
            k <= counts@.len(),
            count_on(counts@, d) == count_on(counts@.skip(k as int), d),
        decreases counts.len() - k,
    {
        proof {
            assert(counts@.skip(k as int).drop_first() =~= counts@.skip(k + 1));
        }
        if counts[k].0 == d {
            return counts[k].1;
        }
        k = k + 1;
    }
    0
}

/// The weekday of a date, counted from Sunday (0) to Saturday (6).
pub fn weekday_from_sunday(d: Date) -> (w: i32)
    requires
        FIRST_DAY <= d.days,
    ensures
        w == d.weekday_from_sunday(),
{
    let shifted: i64 = d.days as i64 + 98_000_000;
    let w = (shifted % 7) as i32;
    proof {
        assert((d.days as int + 98_000_000) % 7 == d.days as int % 7) by {
            vstd::arithmetic::div_mod::lemma_mod_add_multiples_vanish(d.days as int, 7);
            assert(98_000_000 == 7 * 14_000_000);
            vstd::arithmetic::div_mod::lemma_mod_multiples_vanish(14_000_000, d.days as int, 7);
        }
    }
    w
}

/// Can the grid for `today` be built within the calendar?
pub fn grid_fits(today: Date) -> (r: bool)
    ensures
        r == grid_in_calendar(today),
{
    if today.days < FIRST_DAY {
        return false;
    }
    let offset = weekday_from_sunday(today);
    let start: i64 = today.days as i64 - offset as i64 - 77;
    FIRST_DAY as i64 <= start && start + 84 <= LAST_DAY as i64 + 1
}

/// The Sunday that starts the first column: the first date of the range
/// whose review counts the heatmap shows.
pub fn grid_start_date(today: Date) -> (d: Date)
    requires
        grid_in_calendar(today),
    ensures
        d.days == grid_start(today),
{
    let offset = weekday_from_sunday(today);
    Date { days: today.days - offset - 77 }
}

/// Build the 12×7 grid. The outer vec is indexed by column (week), with the
/// oldest week first and the current week last. The inner vec is indexed by
/// weekday, with Sunday at index 0 and Saturday at index 6. Dates after
/// `today` are gaps; other cells hold the count recorded for their date.
pub fn build_grid(today: Date, counts: &Vec<(Date, usize)>) -> (grid: Vec<Vec<Cell>>)
    requires
        grid_in_calendar(today),
    ensures
        grid@.len() == WEEKS,
        forall|w: int| 0 <= w < WEEKS ==> (#[trigger] grid@[w])@.len() == DAYS_PER_WEEK,
        forall|w: int, d: int|
            0 <= w < WEEKS && 0 <= d < DAYS_PER_WEEK ==> #[trigger] grid@[w]@[d] == grid_cell(
                today,
                counts@,
                w,
                d,
            ),
{
    let offset = weekday_from_sunday(today);
    let start: i32 = today.days - offset - 77;
    let mut grid: Vec<Vec<Cell>> = Vec::new();
    let mut week: usize = 0;
    while week < WEEKS
        invariant
            week <= WEEKS,
            start == grid_start(today),
            grid_in_calendar(today),
            grid@.len() == week,
            forall|w: int| 0 <= w < week ==> (#[trigger] grid@[w])@.len() == DAYS_PER_WEEK,
            forall|w: int, d: int|
                0 <= w < week && 0 <= d < DAYS_PER_WEEK ==> #[trigger] grid@[w]@[d] == grid_cell(
                    today,
                    counts@,
                    w,
                    d,
                ),
        decreases WEEKS - week,
    {
        let mut col: Vec<Cell> = Vec::new();
        let mut day: usize = 0;
        while day < DAYS_PER_WEEK
            invariant
                week < WEEKS,
                day <= DAYS_PER_WEEK,
                start == grid_start(today),
                grid_in_calendar(today),
                col@.len() == day,
                forall|d: int| 0 <= d < day ==> col@[d] == grid_cell(today, counts@, week as int, d),
            decreases DAYS_PER_WEEK - day,
        {
            let n: i32 = start + (7 * week + day) as i32;
            if n > today.days {
                col.push(Cell { date: None, count: 0 });
            } else {
                let date = Date { days: n };
                col.push(Cell { date: Some(date), count: lookup_count(counts, date) });
            }
            day = day + 1;
        }
        grid.push(col);
        week = week + 1;
    }
    grid
}

/// How a cell is shaded: empty, or a green scaled by `num / den` between
/// the lightest (0) and darkest (1) shade.
#[derive(Clone, Copy, Debug, PartialEq, Eq, Structural)]
pub enum CellShade {
    Empty,
    Scaled { num: usize, den: usize },
}

/// The shade of a cell with `count` reviews when the non-zero counts range
/// from `min` to `max`: zero counts are empty; otherwise the position of
/// `count` between `min` and `max`, or the darkest shade when they agree.
pub fn cell_shade(count: usize, min: usize, max: usize) -> (s: CellShade)
    requires
        count == 0 || (min <= count && min <= max),
    ensures
        count == 0 ==> s == CellShade::Empty,
        count != 0 && max == min ==> s == (CellShade::Scaled { num: 1, den: 1 }),
        count != 0 && max != min ==> s == (CellShade::Scaled {
            num: (count - min) as usize,
            den: (max - min) as usize,
        }),
{
    if count == 0 {
        CellShade::Empty
    } else if max == min {
        CellShade::Scaled { num: 1, den: 1 }
    } else {
        CellShade::Scaled { num: count - min, den: max - min }
    }
}

/// Is some cell count non-zero?
pub open spec fn has_reviews(grid: Seq<Seq<Cell>>) -> bool {
    exists|w: int, d: int| 0 <= w < grid.len() && 0 <= d < grid[w].len() && (#[trigger] grid[w][d]).count > 0
}

/// The smallest and largest non-zero counts of the grid, if any count is
/// non-zero.
pub fn count_range(grid: &Vec<Vec<Cell>>) -> (r: Option<(usize, usize)>)
    ensures
        r is None <==> !has_reviews(grid@.map_values(|c: Vec<Cell>| c@)),
        r matches Some((lo, hi)) ==> {
            let g = grid@.map_values(|c: Vec<Cell>| c@);
            &&& exists|w: int, d: int| 0 <= w < g.len() && 0 <= d < g[w].len() && (#[trigger] g[w][d]).count == lo
            &&& exists|w: int, d: int| 0 <= w < g.len() && 0 <= d < g[w].len() && (#[trigger] g[w][d]).count == hi
            &&& forall|w: int, d: int| 0 <= w < g.len() && 0 <= d < g[w].len() && (#[trigger] g[w][d]).count > 0
                ==> lo <= g[w][d].count <= hi
            &&& 0 < lo
        },
{
    let ghost g = grid@.map_values(|c: Vec<Cell>| c@);
    let mut r: Option<(usize, usize)> = None;
    let mut w: usize = 0;
    while w < grid.len()
        invariant
            w <= grid@.len(),
            g == grid@.map_values(|c: Vec<Cell>| c@),
            r is None <==> !(exists|a: int, b: int| 0 <= a < w && 0 <= b < g[a].len() && (#[trigger] g[a][b]).count > 0),
            r matches Some((lo, hi)) ==> {
                &&& exists|a: int, b: int| 0 <= a < w && 0 <= b < g[a].len() && (#[trigger] g[a][b]).count == lo
                &&& exists|a: int, b: int| 0 <= a < w && 0 <= b < g[a].len() && (#[trigger] g[a][b]).count == hi
                &&& forall|a: int, b: int| 0 <= a < w && 0 <= b < g[a].len() && (#[trigger] g[a][b]).count > 0
                    ==> lo <= g[a][b].count <= hi
                &&& 0 < lo
            },
        decreases grid.len() - w,
    {
        let col = &grid[w];
        let mut d: usize = 0;
        while d < col.len()
            invariant
                w < grid@.len(),
                d <= col@.len(),
                *col == grid@[w as int],
                g == grid@.map_values(|c: Vec<Cell>| c@),
                r is None <==> !(exists|a: int, b: int|
                    0 <= a <= w && 0 <= b < g[a].len() && (a < w || b < d) && (#[trigger] g[a][b]).count > 0),
                r matches Some((lo, hi)) ==> {
                    &&& exists|a: int, b: int| 0 <= a <= w && 0 <= b < g[a].len() && (a < w || b < d) && (#[trigger] g[a][b]).count == lo
                    &&& exists|a: int, b: int| 0 <= a <= w && 0 <= b < g[a].len() && (a < w || b < d) && (#[trigger] g[a][b]).count == hi
                    &&& forall|a: int, b: int| 0 <= a <= w && 0 <= b < g[a].len() && (a < w || b < d) && (#[trigger] g[a][b]).count > 0
                        ==> lo <= g[a][b].count <= hi
                    &&& 0 < lo
                },
            decreases col.len() - d,
        {
            let c = col[d].count;
            proof {
                assert(g[w as int][d as int].count == c);
            }
            if c > 0 {
                r = match r {
                    None => Some((c, c)),
                    Some((lo, hi)) => Some((if c < lo { c } else { lo }, if c > hi { c } else { hi })),
                };
            }
            d = d + 1;
        }
        w = w + 1;
    }
    r
}

} // verus!
