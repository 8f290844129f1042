use minesweeper::map::{BoardError, CellView, Matrix, RevealOutcome, Tile};

fn board_with_mines(n: usize, m: usize, mines: &[(usize, usize)]) -> Matrix {
    let mut b = Matrix::new(n, m).unwrap();
    assert_eq!(b.place_mines_at(&mines.to_vec()), Ok(()));
    b.generate_num();
    b
}

fn count_views(b: &Matrix, v: CellView) -> usize {
    let mut k = 0;
    for r in 0..b.rows() {
        for c in 0..b.cols() {
            if b.cell_view(r, c) == v {
                k += 1;
            }
        }
    }
    k
}

#[test]
fn new_rejects_empty_dimensions() {
    assert!(matches!(Matrix::new(0, 3), Err(BoardError::InvalidDimensions)));
    assert!(matches!(Matrix::new(3, 0), Err(BoardError::InvalidDimensions)));
    let b = Matrix::new(2, 5).unwrap();
    assert_eq!(b.rows(), 2);
    assert_eq!(b.cols(), 5);
    assert!(!b.is_ready());
    assert!(!b.is_lost());
    assert_eq!(count_views(&b, CellView::Hidden), 10);
}

#[test]
fn no_mines_cascades_over_whole_board() {
    let mut b = Matrix::new(3, 3).unwrap();
    assert_eq!(b.generate_mine(0), Ok(()));
    b.generate_num();
    assert!(!b.check());
    assert_eq!(b.reveal_cell(0, 0), RevealOutcome::Continue);
    assert_eq!(count_views(&b, CellView::Revealed(Tile::Safe)), 9);
    assert!(b.check());
    assert!(!b.is_lost());
}

#[test]
fn hit_mine_loses() {
    let mut b = board_with_mines(3, 3, &[(1, 1)]);
    assert_eq!(b.reveal_cell(1, 1), RevealOutcome::HitMine);
    assert!(b.is_lost());
    assert!(!b.check());
    assert_eq!(b.cell_view(1, 1), CellView::Revealed(Tile::Mine));
}

#[test]
fn numbered_cell_bounds_cascade() {
    let mut b = board_with_mines(3, 3, &[(0, 0)]);
    assert_eq!(b.reveal_cell(2, 2), RevealOutcome::Continue);
    assert_eq!(b.cell_view(1, 1), CellView::Revealed(Tile::Num(1)));
    assert_eq!(b.cell_view(2, 2), CellView::Revealed(Tile::Safe));
    // (0, 1) and (1, 0) are numbered cells reached from the empty cells (1, 2) and (2, 1).
    assert_eq!(b.cell_view(0, 1), CellView::Revealed(Tile::Num(1)));
    assert_eq!(b.cell_view(1, 0), CellView::Revealed(Tile::Num(1)));
    assert_eq!(b.cell_view(0, 0), CellView::Hidden);
    assert!(b.check());
}

#[test]
fn numbered_cell_does_not_cascade() {
    let mut b = board_with_mines(3, 3, &[(0, 0)]);
    assert_eq!(b.reveal_cell(1, 1), RevealOutcome::Continue);
    assert_eq!(b.cell_view(1, 1), CellView::Revealed(Tile::Num(1)));
    assert_eq!(count_views(&b, CellView::Hidden), 8);
}

#[test]
fn cascade_stops_at_number_wall() {
    // Mines down column 2 of a 3x5 board split it into two regions.
    let mut b = board_with_mines(3, 5, &[(0, 2), (1, 2), (2, 2)]);
    assert_eq!(b.reveal_cell(0, 4), RevealOutcome::Continue);
    for r in 0..3 {
        assert_eq!(b.cell_view(r, 4), CellView::Revealed(Tile::Safe));
        assert!(matches!(b.cell_view(r, 3), CellView::Revealed(Tile::Num(_))));
        assert_eq!(b.cell_view(r, 1), CellView::Hidden);
        assert_eq!(b.cell_view(r, 0), CellView::Hidden);
    }
    assert_eq!(b.cell_view(1, 3), CellView::Revealed(Tile::Num(3)));
    assert!(!b.check());
}

#[test]
fn flag_blocks_reveal() {
    let mut b = board_with_mines(3, 3, &[(0, 0)]);
    b.toggle_flag(1, 1);
    assert_eq!(b.cell_view(1, 1), CellView::Flagged);
    assert_eq!(b.reveal_cell(1, 1), RevealOutcome::AlreadyRevealed);
    assert_eq!(b.cell_view(1, 1), CellView::Flagged);
    b.toggle_flag(1, 1);
    assert_eq!(b.cell_view(1, 1), CellView::Hidden);
    assert_eq!(b.reveal_cell(1, 1), RevealOutcome::Continue);
    assert_eq!(b.cell_view(1, 1), CellView::Revealed(Tile::Num(1)));
}

#[test]
fn flag_on_revealed_cell_is_ignored() {
    let mut b = board_with_mines(3, 3, &[(0, 0)]);
    assert_eq!(b.reveal_cell(1, 1), RevealOutcome::Continue);
    b.toggle_flag(1, 1);
    assert_eq!(b.cell_view(1, 1), CellView::Revealed(Tile::Num(1)));
    assert_eq!(b.reveal_cell(1, 1), RevealOutcome::AlreadyRevealed);
    b.toggle_flag(7, 7);
    assert_eq!(count_views(&b, CellView::Flagged), 0);
}

#[test]
fn cascade_skips_flagged_cells() {
    let mut b = board_with_mines(1, 3, &[]);
    b.toggle_flag(0, 2);
    assert_eq!(b.reveal_cell(0, 0), RevealOutcome::Continue);
    assert_eq!(b.cell_view(0, 1), CellView::Revealed(Tile::Safe));
    assert_eq!(b.cell_view(0, 2), CellView::Flagged);
    // One hidden cell that is not a mine and no hidden mine: not won.
    assert!(!b.check());
    b.toggle_flag(0, 2);
    assert_eq!(b.reveal_cell(0, 2), RevealOutcome::Continue);
    assert!(b.check());
}

#[test]
fn reveal_off_board() {
    let mut b = board_with_mines(2, 2, &[(0, 0)]);
    assert_eq!(b.reveal_cell(2, 0), RevealOutcome::OutOfBounds);
    assert_eq!(b.reveal_cell(0, 2), RevealOutcome::OutOfBounds);
    assert_eq!(count_views(&b, CellView::Hidden), 4);
}

#[test]
fn loss_is_sticky() {
    let mut b = board_with_mines(2, 2, &[(0, 0)]);
    assert_eq!(b.reveal_cell(0, 1), RevealOutcome::Continue);
    assert_eq!(b.reveal_cell(0, 0), RevealOutcome::HitMine);
    assert_eq!(b.reveal_cell(1, 0), RevealOutcome::AlreadyRevealed);
    assert_eq!(b.reveal_cell(1, 1), RevealOutcome::AlreadyRevealed);
    b.toggle_flag(1, 1);
    b.set_shown(true);
    assert!(b.is_lost());
    assert!(!b.check());
    assert_eq!(b.cell_view(0, 1), CellView::Revealed(Tile::Num(1)));
}

#[test]
fn won_board_ignores_further_reveals() {
    let mut b = board_with_mines(2, 2, &[(0, 0)]);
    for (r, c) in [(0, 1), (1, 0), (1, 1)] {
        assert_eq!(b.reveal_cell(r, c), RevealOutcome::Continue);
    }
    assert!(b.check());
    assert_eq!(b.reveal_cell(0, 0), RevealOutcome::AlreadyRevealed);
    assert!(!b.is_lost());
    assert_eq!(b.cell_view(0, 0), CellView::Hidden);
}

#[test]
fn counts_match_neighbouring_mines() {
    let mut b = board_with_mines(3, 4, &[(0, 0), (0, 1), (2, 3)]);
    b.set_shown(true);
    let expected = [
        [Tile::Mine, Tile::Mine, Tile::Num(1), Tile::Safe],
        [Tile::Num(2), Tile::Num(2), Tile::Num(2), Tile::Num(1)],
        [Tile::Safe, Tile::Safe, Tile::Num(1), Tile::Mine],
    ];
    for r in 0..3 {
        for c in 0..4 {
            assert_eq!(b.cell_view(r, c), CellView::Revealed(expected[r][c]));
        }
    }
}

#[test]
fn count_of_eight() {
    let ring = [(0, 0), (0, 1), (0, 2), (1, 0), (1, 2), (2, 0), (2, 1), (2, 2)];
    let mut b = board_with_mines(3, 3, &ring);
    assert_eq!(b.reveal_cell(1, 1), RevealOutcome::Continue);
    assert_eq!(b.cell_view(1, 1), CellView::Revealed(Tile::Num(8)));
    assert!(b.check());
}

#[test]
fn random_placement_places_exact_count() {
    for k in [0usize, 1, 4, 8] {
        let mut b = Matrix::new(3, 3).unwrap();
        assert_eq!(b.generate_mine(k), Ok(()));
        b.generate_num();
        b.set_shown(true);
        assert_eq!(count_views(&b, CellView::Revealed(Tile::Mine)), k);
        assert!(b.is_ready());
    }
}

#[test]
fn random_placement_errors() {
    let mut b = Matrix::new(3, 3).unwrap();
    assert_eq!(b.generate_mine(9), Err(BoardError::TooManyMines));
    assert_eq!(b.generate_mine(2), Ok(()));
    assert_eq!(b.generate_mine(2), Err(BoardError::AlreadyPlaced));
    assert_eq!(b.place_mines_at(&vec![(0, 0)]), Err(BoardError::AlreadyPlaced));
}

#[test]
fn fixed_placement_errors() {
    let mut b = Matrix::new(2, 2).unwrap();
    assert_eq!(b.place_mines_at(&vec![(0, 0), (0, 1), (1, 0), (1, 1)]), Err(BoardError::TooManyMines));
    assert_eq!(b.place_mines_at(&vec![(0, 2)]), Err(BoardError::InvalidCell));
    assert_eq!(b.place_mines_at(&vec![(1, 1), (1, 1)]), Err(BoardError::InvalidCell));
    assert_eq!(b.place_mines_at(&vec![(1, 1), (0, 1)]), Ok(()));
    assert_eq!(b.generate_mine(1), Err(BoardError::AlreadyPlaced));
}

#[test]
fn renew_starts_a_new_session() {
    let mut b = board_with_mines(2, 2, &[(0, 0)]);
    assert_eq!(b.reveal_cell(0, 0), RevealOutcome::HitMine);
    b.renew(3, 4);
    assert_eq!(b.rows(), 3);
    assert_eq!(b.cols(), 4);
    assert!(!b.is_lost());
    assert!(!b.is_ready());
    assert_eq!(count_views(&b, CellView::Hidden), 12);
    assert_eq!(b.generate_mine(1), Ok(()));
}

#[test]
fn set_shown_displays_truth_without_revealing() {
    let mut b = board_with_mines(2, 2, &[(1, 1)]);
    b.set_shown(true);
    assert_eq!(b.cell_view(1, 1), CellView::Revealed(Tile::Mine));
    b.set_shown(false);
    assert_eq!(b.cell_view(1, 1), CellView::Hidden);
    assert!(!b.check());
}
