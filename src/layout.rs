//! Screen geometry: where each cell is drawn and which cell a pointer is on.
use vstd::prelude::*;

verus! {

/// Height in pixels of the information bar above the board.
pub const MARGIN: i32 = 60;

/// Side in pixels of one square cell.
pub const TILE_WIDTH: i32 = 40;

/// Left edge, top edge and side of the square restart button in the bar.
pub const BUTTON_LEFT: i32 = 375;

pub const BUTTON_TOP: i32 = 5;

pub const BUTTON_SIDE: i32 = 50;

/// The cell `(row, column)` under pointer position `(x, y)`, if the pointer
/// is over the board area (right of its left edge and below the bar).
pub open spec fn pointer_tile(x: int, y: int) -> Option<(int, int)> {
    if x >= 0 && y >= MARGIN {
        Some(((y - MARGIN) / TILE_WIDTH as int, x / TILE_WIDTH as int))
    } else {
        None
    }
}

/// The cell `(row, column)` under pointer position `(x, y)`; `x` grows to the
/// right and `y` downwards. A pointer left of the board or over the bar is on
/// no cell.
pub fn mouse_key_in_which_tile(x: i32, y: i32) -> (r: Result<(usize, usize), String>)
    ensures
        r is Ok <==> pointer_tile(x as int, y as int) is Some,
        r matches Ok(p) ==> pointer_tile(x as int, y as int) == Some((p.0 as int, p.1 as int)),
{
    if x >= 0 && y >= MARGIN {
        let row = ((y - MARGIN) / TILE_WIDTH) as usize;
        let col = (x / TILE_WIDTH) as usize;
        Ok((row, col))
    } else {
        Err("the pointer is on no cell".to_owned())
    }
}

/// The rectangle `(left, top, width, height)` in pixels where cell `(x, y)`,
/// row `x` and column `y`, is drawn.
pub fn get_tile_rect(x: usize, y: usize) -> (rect: (i32, i32, u32, u32))
    requires
        x * TILE_WIDTH + MARGIN <= i32::MAX,
        y * TILE_WIDTH <= i32::MAX,
    ensures
        rect.0 == y * TILE_WIDTH,
        rect.1 == x * TILE_WIDTH + MARGIN,
        rect.2 == TILE_WIDTH,
        rect.3 == TILE_WIDTH,
{
    let left = (y as i32) * TILE_WIDTH;
    let top = (x as i32) * TILE_WIDTH + MARGIN;
    (left, top, TILE_WIDTH as u32, TILE_WIDTH as u32)
}

/// Pointer position `(x, y)` is on the restart button (edges included).
pub fn on_restart_button(x: i32, y: i32) -> (r: bool)
    ensures
        r == (BUTTON_LEFT <= x <= BUTTON_LEFT + BUTTON_SIDE && BUTTON_TOP <= y <= BUTTON_TOP + BUTTON_SIDE),
{
    BUTTON_LEFT <= x && x <= BUTTON_LEFT + BUTTON_SIDE && BUTTON_TOP <= y && y <= BUTTON_TOP + BUTTON_SIDE
}

} // verus!
