use minesweeper::minesweeper::{CellState, Minesweeper, OpenResult};

fn render(ms: &Minesweeper) -> String {
    let mut out = String::new();
    for y in 0..ms.height() {
        for x in 0..ms.width() {
            match ms.cell_state((x, y)) {
                CellState::Mine => out.push_str("💣"),
                CellState::Flag => out.push_str("🚩"),
                CellState::Covered => out.push_str("🟪"),
                CellState::Count(n) => out.push_str(&format!("{}", n)),
                CellState::Blank => out.push_str("⬜"),
            }
        }
        out.push_str("\n");
    }
    out
}

#[test]
fn create_minesweeper_test() {
    let num_mines = 1;
    let ms = Minesweeper::new(10, 10, num_mines);
    assert!(ms.mine_count() == num_mines);
}

#[test]
fn test_display() {
    let mut ms = Minesweeper::new(10, 10, 10);
    ms.open((5, 5));
    ms.toggle_flag((6, 6));
    println!("{}", render(&ms));
}

#[test]
fn new_places_exactly_requested_mines() {
    let ms = Minesweeper::new(4, 4, 15);
    assert_eq!(ms.mine_count(), 15);
    let ms2 = Minesweeper::new(5, 5, 0);
    assert_eq!(ms2.mine_count(), 0);
    let ms3 = Minesweeper::new(9, 1, 4);
    assert_eq!(ms3.mine_count(), 4);
}

#[test]
fn with_mines_ignores_duplicates() {
    let mines = vec![(1usize, 1usize), (1usize, 1usize)];
    let ms = Minesweeper::with_mines(2, 2, &mines);
    assert_eq!(ms.mine_count(), 1);
    assert!(ms.is_mine((1, 1)));
    assert!(!ms.is_mine((0, 0)));
}

#[test]
fn neighbor_counts_by_position() {
    let ms = Minesweeper::new(3, 3, 0);
    assert_eq!(ms.neighbors((0, 0)).len(), 3);
    assert_eq!(ms.neighbors((1, 0)).len(), 5);
    assert_eq!(ms.neighbors((1, 1)).len(), 8);
    let ns = ms.neighbors((1, 1));
    assert!(!ns.contains(&(1, 1)));
    for &(x, y) in ns.iter() {
        assert!(x < 3 && y < 3);
    }
    let corner = ms.neighbors((0, 0));
    assert!(corner.contains(&(1, 0)) && corner.contains(&(0, 1)) && corner.contains(&(1, 1)));
}

#[test]
fn open_with_forced_mine_at_corner() {
    let mines = vec![(2usize, 2usize)];
    let mut ms = Minesweeper::with_mines(3, 3, &mines);
    assert_eq!(ms.mine_count(), 1);
    let r = ms.open((0, 0));
    assert!(matches!(r, Some(OpenResult::NoMine(0))));
    assert!(!ms.is_lost());
    for y in 0..3 {
        for x in 0..3 {
            if (x, y) == (2, 2) {
                assert!(!ms.is_open((x, y)));
                assert!(matches!(ms.cell_state((x, y)), CellState::Covered));
            } else {
                assert!(ms.is_open((x, y)));
            }
        }
    }
    assert_eq!(ms.neighboring_mines((1, 1)), 1);
    assert_eq!(ms.neighboring_mines((2, 1)), 1);
    assert_eq!(ms.neighboring_mines((1, 2)), 1);
    assert!(matches!(ms.cell_state((2, 1)), CellState::Count(1)));
    let r2 = ms.open((2, 2));
    assert!(matches!(r2, Some(OpenResult::Mine)));
    assert!(ms.is_lost());
}

#[test]
fn lost_board_freezes() {
    let mines = vec![(0usize, 0usize)];
    let mut ms = Minesweeper::with_mines(2, 2, &mines);
    assert!(matches!(ms.open((0, 0)), Some(OpenResult::Mine)));
    assert!(ms.is_lost());
    assert!(ms.open((1, 1)).is_none());
    assert!(!ms.is_open((1, 1)));
    ms.toggle_flag((1, 0));
    assert!(!ms.is_flagged((1, 0)));
    assert_eq!(ms.mine_count(), 1);
    assert!(matches!(ms.cell_state((0, 0)), CellState::Mine));
}

#[test]
fn flagged_cell_cannot_be_opened() {
    let mines = vec![(0usize, 0usize)];
    let mut ms = Minesweeper::with_mines(3, 3, &mines);
    ms.toggle_flag((1, 1));
    let r = ms.open((1, 1));
    assert!(r.is_none());
    assert!(!ms.is_open((1, 1)));
    assert!(ms.is_flagged((1, 1)));
    assert!(matches!(ms.cell_state((1, 1)), CellState::Flag));
}

#[test]
fn toggle_flag_round_trip() {
    let mines = vec![(0usize, 0usize)];
    let mut ms = Minesweeper::with_mines(2, 2, &mines);
    assert!(!ms.is_flagged((1, 1)));
    ms.toggle_flag((1, 1));
    assert!(ms.is_flagged((1, 1)));
    ms.toggle_flag((1, 1));
    assert!(!ms.is_flagged((1, 1)));
}

#[test]
fn toggle_flag_on_open_cell_is_noop() {
    let mines = vec![(0usize, 0usize)];
    let mut ms = Minesweeper::with_mines(2, 2, &mines);
    ms.open((1, 1));
    ms.toggle_flag((1, 1));
    assert!(!ms.is_flagged((1, 1)));
    assert!(ms.is_open((1, 1)));
}

#[test]
fn chord_opens_unflagged_neighbors() {
    let mines = vec![(0usize, 0usize)];
    let mut ms = Minesweeper::with_mines(3, 3, &mines);
    assert!(matches!(ms.open((1, 1)), Some(OpenResult::NoMine(0))));
    assert!(ms.is_open((1, 1)));
    assert!(!ms.is_open((0, 1)));
    // one neighboring mine but no flag: chording changes nothing
    assert!(ms.open((1, 1)).is_none());
    assert!(!ms.is_open((0, 1)));
    ms.toggle_flag((0, 0));
    // flag count now matches the mine count: chording opens the rest
    assert!(ms.open((1, 1)).is_none());
    for y in 0..3 {
        for x in 0..3 {
            if (x, y) == (0, 0) {
                assert!(!ms.is_open((x, y)));
                assert!(ms.is_flagged((x, y)));
            } else {
                assert!(ms.is_open((x, y)));
            }
        }
    }
    assert!(!ms.is_lost());
}

#[test]
fn open_reports_zero_payload_even_near_mines() {
    let mines = vec![(0usize, 0usize)];
    let mut ms = Minesweeper::with_mines(2, 2, &mines);
    let r = ms.open((1, 1));
    assert_eq!(r, Some(OpenResult::NoMine(0)));
    assert_eq!(ms.neighboring_mines((1, 1)), 1);
}

#[test]
fn cascade_stops_at_flags() {
    let mines = vec![(3usize, 0usize)];
    let mut ms = Minesweeper::with_mines(4, 1, &mines);
    ms.toggle_flag((1, 0));
    let r = ms.open((0, 0));
    assert!(matches!(r, Some(OpenResult::NoMine(0))));
    assert!(ms.is_open((0, 0)));
    assert!(!ms.is_open((1, 0)));
    assert!(ms.is_flagged((1, 0)));
    assert!(!ms.is_open((2, 0)));
    assert!(!ms.is_lost());
}

#[test]
fn lost_board_reveals_mines() {
    let mines = vec![(0usize, 0usize), (2usize, 0usize)];
    let mut ms = Minesweeper::with_mines(3, 1, &mines);
    assert!(matches!(ms.open((0, 0)), Some(OpenResult::Mine)));
    assert!(ms.is_lost());
    assert!(matches!(ms.cell_state((2, 0)), CellState::Mine));
    assert!(matches!(ms.cell_state((1, 0)), CellState::Covered));
}

#[test]
fn repeated_cascade_is_idempotent() {
    let mines = vec![(2usize, 2usize)];
    let mut ms = Minesweeper::with_mines(3, 3, &mines);
    ms.open((0, 0));
    let opened: Vec<bool> = (0..3)
        .flat_map(|y| (0..3).map(move |x| (x, y)))
        .map(|p| ms.is_open(p))
        .collect();
    // chording the zero cell again changes nothing
    assert!(ms.open((0, 0)).is_none());
    let opened_again: Vec<bool> = (0..3)
        .flat_map(|y| (0..3).map(move |x| (x, y)))
        .map(|p| ms.is_open(p))
        .collect();
    assert_eq!(opened, opened_again);
    assert!(!ms.is_lost());
}
