use minesweeper::layout::{get_tile_rect, mouse_key_in_which_tile, on_restart_button};
use minesweeper::map::{CellView, Matrix, RevealOutcome, Tile};

#[test]
fn pointer_to_cell() {
    assert_eq!(mouse_key_in_which_tile(0, 60), Ok((0, 0)));
    assert_eq!(mouse_key_in_which_tile(85, 145), Ok((2, 2)));
    assert_eq!(mouse_key_in_which_tile(799, 659), Ok((14, 19)));
    assert!(mouse_key_in_which_tile(10, 59).is_err());
    assert!(mouse_key_in_which_tile(-1, 100).is_err());
}

#[test]
fn cell_rectangle() {
    assert_eq!(get_tile_rect(0, 0), (0, 60, 40, 40));
    assert_eq!(get_tile_rect(2, 3), (120, 140, 40, 40));
}

#[test]
fn restart_button_area() {
    assert!(on_restart_button(375, 5));
    assert!(on_restart_button(425, 55));
    assert!(on_restart_button(400, 30));
    assert!(!on_restart_button(426, 30));
    assert!(!on_restart_button(400, 4));
}

#[test]
fn pointer_reveal_and_flag() {
    let mut b = Matrix::new(3, 3).unwrap();
    assert_eq!(b.place_mines_at(&vec![(2, 2)]), Ok(()));
    b.generate_num();
    // Pointer (45, 105) is over cell (1, 1).
    b.set_flag(45, 105);
    assert_eq!(b.cell_view(1, 1), CellView::Flagged);
    b.set_flag(45, 105);
    assert_eq!(b.cell_view(1, 1), CellView::Hidden);
    b.set_flag(45, 10);
    assert!(b.show_tile(45, 10));
    assert!(b.show_tile(45, 105));
    assert_eq!(b.cell_view(1, 1), CellView::Revealed(Tile::Num(1)));
    assert!(!b.show_tile(85, 145));
    assert!(b.is_lost());
    assert_eq!(b.reveal_cell(0, 0), RevealOutcome::AlreadyRevealed);
}
