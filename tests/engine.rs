use sandfall::cell::{Bias, Cell, Color, Mobility};
use sandfall::commit::{default_summary, description_preview, other_branches};
use sandfall::grid::Grid;
use sandfall::render::{frame_ops, DrawOp};
use sandfall::scene::{confetti_colors, confetti_glyphs, place_confetti, prepare_grid, seed_confetti, Pick};
use sandfall::session::{run, Action, Stage};
use sandfall::stencil::{is_blank, place_center_text, split_lines};
use sandfall::stepper::{step_frame, update_grid};

fn count(grid: &Grid, pred: fn(&Cell) -> bool) -> usize {
    grid.cells.iter().filter(|c| pred(c)).count()
}

fn is_falling(c: &Cell) -> bool {
    matches!(c.mobility, Mobility::Falling(_))
}

fn is_empty(c: &Cell) -> bool {
    c.mobility == Mobility::Empty
}

fn cell_at(grid: &Grid, r: usize, c: usize) -> Cell {
    grid.get(r, c).expect("position exists")
}

#[test]
fn centering_places_hi_in_the_middle() {
    let mut grid = Grid::new(4, 10);
    place_center_text(&mut grid, "hi", Color::DarkCyan);
    for r in 0..4 {
        for c in 0..10 {
            let cell = cell_at(&grid, r, c);
            if r == 2 && c == 4 {
                assert_eq!(cell, Cell::fixed('h', Color::DarkCyan));
            } else if r == 2 && c == 5 {
                assert_eq!(cell, Cell::fixed('i', Color::DarkCyan));
            } else {
                assert_eq!(cell, Cell::empty());
            }
        }
    }
}

#[test]
fn stencil_whitespace_leaves_cells_untouched() {
    let mut grid = Grid::new(3, 5);
    let piece = Cell::falling('*', Color::Red, Bias::Left);
    assert!(grid.set(1, 2, piece));
    place_center_text(&mut grid, "a b", Color::Blue);
    assert_eq!(cell_at(&grid, 1, 1), Cell::fixed('a', Color::Blue));
    assert_eq!(cell_at(&grid, 1, 2), piece);
    assert_eq!(cell_at(&grid, 1, 3), Cell::fixed('b', Color::Blue));
}

#[test]
fn stencil_is_centered_as_a_block() {
    let mut grid = Grid::new(3, 6);
    place_center_text(&mut grid, "ab\nc", Color::Blue);
    assert_eq!(cell_at(&grid, 1, 2), Cell::fixed('a', Color::Blue));
    assert_eq!(cell_at(&grid, 1, 3), Cell::fixed('b', Color::Blue));
    assert_eq!(cell_at(&grid, 2, 2), Cell::fixed('c', Color::Blue));
    assert_eq!(cell_at(&grid, 2, 3), Cell::empty());
    assert_eq!(count(&grid, |c| c.mobility == Mobility::Fixed), 3);
}

#[test]
fn stencil_larger_than_grid_clamps_to_corner() {
    let mut grid = Grid::new(2, 3);
    place_center_text(&mut grid, "abcd\nefgh\nijkl", Color::Green);
    assert_eq!(cell_at(&grid, 0, 0), Cell::fixed('a', Color::Green));
    assert_eq!(cell_at(&grid, 0, 2), Cell::fixed('c', Color::Green));
    assert_eq!(cell_at(&grid, 1, 0), Cell::fixed('e', Color::Green));
    assert_eq!(cell_at(&grid, 1, 2), Cell::fixed('g', Color::Green));
}

#[test]
fn stencil_on_empty_grid_is_a_no_op() {
    let mut grid = Grid::new(0, 0);
    place_center_text(&mut grid, "hello", Color::Green);
    assert_eq!(grid.cells.len(), 0);
}

#[test]
fn split_lines_handles_line_endings() {
    let lines = split_lines("ab\r\ncd\n\ne\r");
    assert_eq!(lines, vec![vec!['a', 'b'], vec!['c', 'd'], vec![], vec!['e', '\r']]);
    assert_eq!(split_lines(""), Vec::<Vec<char>>::new());
    assert_eq!(split_lines("\n"), vec![Vec::<char>::new()]);
    assert_eq!(split_lines("x"), vec![vec!['x']]);
}

#[test]
fn blank_characters() {
    assert!(is_blank(' '));
    assert!(is_blank('\t'));
    assert!(is_blank('\u{3000}'));
    assert!(!is_blank('a'));
    assert!(!is_blank('\u{2588}'));
}

#[test]
fn fall_scenario_reaches_the_floor() {
    let rows = 5;
    let mut grid = Grid::new(rows, 4);
    let piece = Cell::falling('*', Color::Yellow, Bias::Right);
    grid.set(0, 0, piece);
    assert!(update_grid(&mut grid, 1, 3, false));
    assert_eq!(cell_at(&grid, 1, 0), piece);
    assert_eq!(cell_at(&grid, 0, 0), Cell::empty());
    for f in 2..rows {
        assert!(update_grid(&mut grid, f, 3, false));
    }
    assert_eq!(cell_at(&grid, rows - 1, 0), piece);
    assert_eq!(count(&grid, is_falling), 1);
    assert!(!update_grid(&mut grid, rows, 3, false));
    assert!(!update_grid(&mut grid, rows + 1, 3, false));
    assert_eq!(cell_at(&grid, rows - 1, 0), piece);
}

#[test]
fn obstacle_dispersal_moves_diagonally_right() {
    let mut grid = Grid::new(2, 3);
    let piece = Cell::falling('*', Color::Cyan, Bias::Right);
    grid.set(0, 1, piece);
    grid.set(1, 1, Cell::fixed('#', Color::Blue));
    assert!(update_grid(&mut grid, 0, 3, false));
    assert_eq!(cell_at(&grid, 0, 1), Cell::empty());
    assert_eq!(cell_at(&grid, 1, 1), Cell::fixed('#', Color::Blue));
    assert_eq!(cell_at(&grid, 1, 2), piece);
}

#[test]
fn obstacle_dispersal_moves_diagonally_left() {
    let mut grid = Grid::new(2, 3);
    let piece = Cell::falling('*', Color::Cyan, Bias::Left);
    grid.set(0, 1, piece);
    grid.set(1, 1, Cell::fixed('#', Color::Blue));
    assert!(update_grid(&mut grid, 0, 3, false));
    assert_eq!(cell_at(&grid, 1, 0), piece);
    assert_eq!(cell_at(&grid, 0, 1), Cell::empty());
}

#[test]
fn dispersal_slides_along_a_surface() {
    let mut grid = Grid::new(2, 4);
    let piece = Cell::falling('*', Color::Cyan, Bias::Right);
    grid.set(0, 0, piece);
    grid.set(1, 0, Cell::fixed('#', Color::Blue));
    grid.set(1, 1, Cell::fixed('#', Color::Blue));
    assert!(update_grid(&mut grid, 0, 3, false));
    // The walk moves beside the surface, drops into each free column below,
    // and ends in the last column it reaches.
    assert_eq!(cell_at(&grid, 1, 3), piece);
    assert_eq!(count(&grid, is_falling), 1);
}

#[test]
fn blocked_cell_without_opening_stays() {
    let mut grid = Grid::new(2, 1);
    let piece = Cell::falling('*', Color::Cyan, Bias::Left);
    grid.set(0, 0, piece);
    grid.set(1, 0, Cell::fixed('#', Color::Blue));
    assert!(!update_grid(&mut grid, 0, 3, false));
    assert_eq!(cell_at(&grid, 0, 0), piece);
}

#[test]
fn zero_disperse_distance_does_not_slide() {
    let mut grid = Grid::new(2, 3);
    let piece = Cell::falling('*', Color::Cyan, Bias::Right);
    grid.set(0, 1, piece);
    grid.set(1, 1, Cell::fixed('#', Color::Blue));
    assert!(!update_grid(&mut grid, 0, 0, false));
    assert_eq!(cell_at(&grid, 0, 1), piece);
}

#[test]
fn flat_and_empty_grids_report_no_movement() {
    let mut none = Grid::new(0, 0);
    assert!(!update_grid(&mut none, 0, 3, true));
    let mut no_cols = Grid::new(5, 0);
    assert!(!update_grid(&mut no_cols, 0, 3, true));
    let mut no_rows = Grid::new(0, 5);
    assert!(!update_grid(&mut no_rows, 0, 3, true));
    let mut one_row = Grid::new(1, 6);
    one_row.set(0, 2, Cell::falling('*', Color::Red, Bias::Left));
    assert!(!update_grid(&mut one_row, 0, 3, true));
    let mut one_col = Grid::new(3, 1);
    one_col.set(2, 0, Cell::falling('*', Color::Red, Bias::Left));
    assert!(!update_grid(&mut one_col, 0, 3, false));
}

#[test]
fn one_column_grid_still_lets_a_cell_fall() {
    let mut one_col = Grid::new(3, 1);
    one_col.set(0, 0, Cell::falling('*', Color::Red, Bias::Left));
    assert!(update_grid(&mut one_col, 0, 3, false));
    assert_eq!(cell_at(&one_col, 1, 0).glyph, '*');
}

#[test]
fn jitter_roll_moves_right_then_left() {
    let mut grid = Grid::new(2, 3);
    let piece = Cell::falling('*', Color::Cyan, Bias::Left);
    grid.set(0, 1, piece);
    let mut rolls = vec![99usize; 6];
    rolls[1] = 3;
    assert!(step_frame(&mut grid, 0, 3, Some(&rolls)));
    assert_eq!(cell_at(&grid, 0, 2), piece);

    let mut grid = Grid::new(2, 3);
    grid.set(0, 1, piece);
    rolls[1] = 7;
    assert!(step_frame(&mut grid, 0, 3, Some(&rolls)));
    assert_eq!(cell_at(&grid, 0, 0), piece);

    let mut grid = Grid::new(2, 3);
    grid.set(0, 1, piece);
    rolls[1] = 50;
    assert!(step_frame(&mut grid, 0, 3, Some(&rolls)));
    assert_eq!(cell_at(&grid, 1, 1), piece);
}

#[test]
fn right_jitter_blocked_falls_back_to_left() {
    let mut grid = Grid::new(2, 3);
    let piece = Cell::falling('*', Color::Cyan, Bias::Right);
    grid.set(0, 1, piece);
    grid.set(0, 2, Cell::fixed('#', Color::Blue));
    let mut rolls = vec![99usize; 6];
    rolls[1] = 1;
    assert!(step_frame(&mut grid, 0, 3, Some(&rolls)));
    assert_eq!(cell_at(&grid, 0, 0), piece);
}

#[test]
fn a_cell_moves_at_most_once_per_frame() {
    let mut grid = Grid::new(6, 1);
    let piece = Cell::falling('*', Color::Cyan, Bias::Right);
    grid.set(0, 0, piece);
    assert!(update_grid(&mut grid, 0, 3, false));
    assert_eq!(cell_at(&grid, 1, 0), piece);
    assert_eq!(cell_at(&grid, 2, 0), Cell::empty());
}

fn busy_grid() -> Grid {
    let mut grid = Grid::new(12, 20);
    for c in 0..20 {
        if c % 3 != 0 {
            grid.set(0, c, Cell::falling('o', Color::Red, Bias::Right));
        }
        if c % 2 == 0 {
            grid.set(2, c, Cell::falling('x', Color::Green, Bias::Left));
        }
    }
    place_center_text(&mut grid, "#####\n## ##", Color::DarkCyan);
    grid
}

#[test]
fn conservation_and_fixed_cells_over_many_frames() {
    let mut grid = busy_grid();
    let falling = count(&grid, is_falling);
    let empty = count(&grid, is_empty);
    let fixed: Vec<(usize, Cell)> = grid
        .cells
        .iter()
        .enumerate()
        .filter(|(_, c)| c.mobility == Mobility::Fixed)
        .map(|(i, c)| (i, *c))
        .collect();
    for frame in 0..200 {
        update_grid(&mut grid, frame, 3, true);
        assert_eq!(count(&grid, is_falling), falling);
        assert_eq!(count(&grid, is_empty), empty);
        for (i, c) in &fixed {
            assert_eq!(grid.cells[*i], *c);
        }
    }
}

#[test]
fn quiescence_is_stable() {
    let mut grid = busy_grid();
    let mut frame = 0;
    while update_grid(&mut grid, frame, 3, false) {
        frame += 1;
        assert!(frame < 10_000);
    }
    let settled = grid.cells.clone();
    for extra in 1..5 {
        assert!(!update_grid(&mut grid, frame + extra, 3, false));
        assert_eq!(grid.cells, settled);
    }
}

#[test]
fn grid_bounds_are_not_faults() {
    let mut grid = Grid::new(2, 2);
    assert!(grid.cell_empty(1, 1));
    assert!(!grid.cell_empty(2, 0));
    assert!(!grid.cell_empty(0, 2));
    assert_eq!(grid.get(5, 5), None);
    assert!(!grid.set(2, 0, Cell::fixed('x', Color::Red)));
    grid.set(0, 0, Cell::fixed('x', Color::Red));
    assert!(!grid.cell_empty(0, 0));
    assert_eq!(grid.rows(), 2);
    assert_eq!(grid.cols(), 2);
}

#[test]
fn swap_exchanges_whole_cells() {
    let mut grid = Grid::new(2, 3);
    let a = Cell::falling('a', Color::Red, Bias::Left);
    let b = Cell::fixed('b', Color::Blue);
    grid.set(0, 0, a);
    grid.set(0, 1, b);
    grid.swap_cells(0, 0, 0, 1);
    assert_eq!(cell_at(&grid, 0, 0), b);
    assert_eq!(cell_at(&grid, 0, 1), a);
    grid.swap_cells(0, 1, 1, 2);
    assert_eq!(cell_at(&grid, 1, 2), a);
    assert_eq!(cell_at(&grid, 0, 1), Cell::empty());
    grid.swap_cells(1, 2, 1, 2);
    assert_eq!(cell_at(&grid, 1, 2), a);
    grid.swap_cells(1, 2, 9, 9);
    assert_eq!(cell_at(&grid, 1, 2), a);
}

#[test]
fn random_falling_cell_keeps_glyph_and_color() {
    for _ in 0..20 {
        let c = Cell::new('*', Color::Magenta);
        assert_eq!(c.glyph, '*');
        assert_eq!(c.color, Color::Magenta);
        assert!(matches!(c.mobility, Mobility::Falling(_)));
    }
}

#[test]
fn random_bias_takes_both_directions() {
    let mut left = false;
    let mut right = false;
    for _ in 0..200 {
        match Cell::new('*', Color::Red).mobility {
            Mobility::Falling(Bias::Left) => left = true,
            Mobility::Falling(Bias::Right) => right = true,
            other => panic!("unexpected mobility {:?}", other),
        }
    }
    assert!(left && right);
}

#[test]
fn seeding_stays_in_the_upper_half() {
    let mut grid = Grid::new(10, 8);
    let glyphs = confetti_glyphs();
    let colors = confetti_colors();
    seed_confetti(&mut grid, 30, &glyphs, &colors);
    assert!(count(&grid, is_falling) > 0);
    for r in 0..10 {
        for c in 0..8 {
            let cell = cell_at(&grid, r, c);
            if is_falling(&cell) {
                assert!(r < 5);
                assert!(glyphs.contains(&cell.glyph));
                assert!(colors.contains(&cell.color));
            } else {
                assert_eq!(cell, Cell::empty());
            }
        }
    }
    let mut flat = Grid::new(1, 8);
    seed_confetti(&mut flat, 30, &glyphs, &colors);
    assert_eq!(count(&flat, is_falling), 0);
}

#[test]
fn prepared_grid_holds_text_and_confetti() {
    let grid = prepare_grid(8, 10, "hi", Color::DarkCyan);
    assert_eq!(cell_at(&grid, 4, 4), Cell::fixed('h', Color::DarkCyan));
    assert_eq!(cell_at(&grid, 4, 5), Cell::fixed('i', Color::DarkCyan));
    assert!(count(&grid, is_falling) <= 8);
    for r in 4..8 {
        for c in 0..10 {
            assert!(!is_falling(&cell_at(&grid, r, c)));
        }
    }
}

#[test]
fn frame_ops_draw_each_cell_once() {
    let mut grid = Grid::new(2, 2);
    grid.set(0, 1, Cell::fixed('x', Color::Red));
    let ops = frame_ops(&grid);
    assert_eq!(
        ops,
        vec![
            DrawOp::Paint(Color::Reset, ' '),
            DrawOp::Paint(Color::Red, 'x'),
            DrawOp::NewLine,
            DrawOp::Paint(Color::Reset, ' '),
            DrawOp::Paint(Color::Reset, ' '),
        ]
    );
    assert_eq!(frame_ops(&Grid::new(0, 3)), Vec::<DrawOp>::new());
}

#[test]
fn session_runs_stages_in_order() {
    assert_eq!(run(None, false), Action::Perform(Stage::Splash));
    assert_eq!(run(Some(Stage::Splash), true), Action::Perform(Stage::Workflow));
    assert_eq!(run(Some(Stage::Workflow), true), Action::Perform(Stage::Confetti));
    assert_eq!(run(Some(Stage::Confetti), true), Action::Finish);
    assert_eq!(run(Some(Stage::Workflow), false), Action::Abort);
}

#[test]
fn summary_prefix_depends_on_bump() {
    let s: String = default_summary("feat", "minor").into_iter().collect();
    assert_eq!(s, "feat(minor): ");
    let s: String = default_summary("fix", "patch").into_iter().collect();
    assert_eq!(s, "fix: ");
    let s: String = default_summary("docs", "patches").into_iter().collect();
    assert_eq!(s, "docs(patches): ");
}

#[test]
fn description_preview_shortens_long_text() {
    let show = |t: &str| -> String { description_preview(t).into_iter().collect() };
    assert_eq!(show(""), "<skipped>");
    assert_eq!(show("short note"), "short note");
    assert_eq!(show("exactly twenty chars"), "exactly twenty chars");
    assert_eq!(show("this description is too long"), "this description ...");
    assert_eq!(show("ééééééééééééééééééééé"), "ééééééééééééééééé...");
}

#[test]
fn other_branches_drop_the_current_one() {
    let names = vec!["main".to_string(), "dev".to_string(), "main".to_string(), "feature".to_string()];
    let current = "main".to_string();
    assert_eq!(other_branches(&names, &current), vec!["dev".to_string(), "feature".to_string()]);
    assert_eq!(other_branches(&Vec::new(), &current), Vec::<String>::new());
}

#[test]
fn place_confetti_puts_each_pick_in_order() {
    let mut grid = Grid::new(4, 3);
    let glyphs = confetti_glyphs();
    let colors = confetti_colors();
    let picks = vec![
        Pick { row: 0, col: 1, glyph: 0, color: 2, bias: Bias::Left },
        Pick { row: 1, col: 2, glyph: 4, color: 5, bias: Bias::Right },
        Pick { row: 0, col: 1, glyph: 3, color: 0, bias: Bias::Right },
        Pick { row: 9, col: 0, glyph: 0, color: 0, bias: Bias::Left },
        Pick { row: 1, col: 0, glyph: 7, color: 0, bias: Bias::Left },
    ];
    place_confetti(&mut grid, &picks, &glyphs, &colors);
    assert_eq!(cell_at(&grid, 0, 1), Cell::falling(glyphs[3], colors[0], Bias::Right));
    assert_eq!(cell_at(&grid, 1, 2), Cell::falling(glyphs[4], colors[5], Bias::Right));
    assert_eq!(cell_at(&grid, 1, 0), Cell::empty());
    assert_eq!(count(&grid, is_falling), 2);
}

#[test]
fn seeding_places_at_most_count_pieces_and_at_least_one() {
    let glyphs = confetti_glyphs();
    let colors = confetti_colors();
    for _ in 0..20 {
        let mut grid = Grid::new(6, 5);
        seed_confetti(&mut grid, 3, &glyphs, &colors);
        let n = count(&grid, is_falling);
        assert!(n >= 1 && n <= 3);
    }
    let grid = prepare_grid(20, 30, "", Color::DarkCyan);
    assert!(count(&grid, is_falling) <= 60);
    assert!(count(&grid, is_falling) >= 1);
}
