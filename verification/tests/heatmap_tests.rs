use hashcards::date::Date;
use hashcards::heatmap::build_grid;
use hashcards::heatmap::cell_shade;
use hashcards::heatmap::count_range;
use hashcards::heatmap::grid_fits;
use hashcards::heatmap::grid_start_date;
use hashcards::heatmap::weekday_from_sunday;
use hashcards::heatmap::Cell;
use hashcards::heatmap::CellShade;

fn date(s: &str) -> Date {
    Date::parse(s).unwrap()
}

#[test]
fn test_build_grid_shape_and_anchors() {
    // Sunday 2026-05-24.
    let today = date("2026-05-24");
    let grid: Vec<Vec<Cell>> = build_grid(today, &Vec::new());
    assert_eq!(grid.len(), 12);
    for col in &grid {
        assert_eq!(col.len(), 7);
    }
    // Last column, row 0 (Sunday) is today.
    assert_eq!(grid[11][0].date, Some(today));
    // Last column, rows 1..6 are future days.
    for cell in grid[11].iter().take(7).skip(1) {
        assert_eq!(cell.date, None);
    }
    // First column, row 0 (Sunday) is 11 weeks before today.
    let expected_first = Date::new(today.days - 7 * 11);
    assert_eq!(grid[0][0].date, Some(expected_first));
}

#[test]
fn test_build_grid_midweek() {
    // Wednesday 2026-05-20: Sunday of this week is 2026-05-17.
    let today = date("2026-05-20");
    let grid = build_grid(today, &Vec::new());
    assert_eq!(grid[11][0].date, Some(date("2026-05-17"))); // Sun
    assert_eq!(grid[11][1].date, Some(date("2026-05-18"))); // Mon
    assert_eq!(grid[11][2].date, Some(date("2026-05-19"))); // Tue
    assert_eq!(grid[11][3].date, Some(today)); // Wed
    // Thu/Fri/Sat are future.
    assert_eq!(grid[11][4].date, None);
    assert_eq!(grid[11][5].date, None);
    assert_eq!(grid[11][6].date, None);
}

#[test]
fn test_build_grid_count_lookup() {
    let today = date("2026-05-20");
    let counts = vec![(date("2026-05-17"), 3), (date("2026-05-20"), 42)];
    let grid = build_grid(today, &counts);
    assert_eq!(grid[11][0].count, 3);
    assert_eq!(grid[11][3].count, 42);
    assert_eq!(grid[11][1].count, 0);
}

#[test]
fn test_weekday_and_start() {
    assert_eq!(weekday_from_sunday(date("2026-05-24")), 0);
    assert_eq!(weekday_from_sunday(date("2026-05-20")), 3);
    assert_eq!(weekday_from_sunday(date("0001-01-01")), 1);
    let today = date("2026-05-20");
    assert!(grid_fits(today));
    assert_eq!(grid_start_date(today), date("2026-03-01"));
}

#[test]
fn test_count_range() {
    let today = date("2026-05-20");
    let empty = build_grid(today, &Vec::new());
    assert_eq!(count_range(&empty), None);
    let counts = vec![(date("2026-05-17"), 3), (date("2026-05-20"), 42), (date("2026-05-19"), 0)];
    let grid = build_grid(today, &counts);
    assert_eq!(count_range(&grid), Some((3, 42)));
}

#[test]
fn test_cell_shade() {
    assert_eq!(cell_shade(0, 1, 10), CellShade::Empty);
    // A single distinct non-zero value gets the darkest shade, as the
    // maximum does when the counts differ.
    assert_eq!(cell_shade(5, 5, 5), CellShade::Scaled { num: 1, den: 1 });
    assert_eq!(cell_shade(10, 1, 10), CellShade::Scaled { num: 9, den: 9 });
    assert_eq!(cell_shade(1, 1, 10), CellShade::Scaled { num: 0, den: 9 });
    assert_eq!(cell_shade(4, 1, 10), CellShade::Scaled { num: 3, den: 9 });
}
