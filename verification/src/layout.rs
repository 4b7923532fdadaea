//! Where the thumbnails of the recent stickers go, and how large a sticker
//! window opens.

use vstd::prelude::*;

verus! {

/// The least width and height, in pixels, that a sticker window opens with.
pub const MIN_WINDOW_SIDE: i32 = 25;

/// The window height, in pixels, from which the thumbnails stand in two rows.
pub const TWO_ROW_HEIGHT: i32 = 400;

/// The cell of the thumbnail grid that thumbnail number `position` goes to,
/// as column and row, both counted from zero. The grid fills column by
/// column, each with `max_rows` cells; with less than two rows every
/// thumbnail has a column of its own.
pub open spec fn cell_of(position: nat, max_rows: nat) -> (nat, nat) {
    if max_rows <= 1 {
        (position, 0)
    } else {
        (position / max_rows, position % max_rows)
    }
}

/// The side that a sticker window opens with for an image of side
/// `image_side`: that side, but not less than [`MIN_WINDOW_SIDE`].
pub fn window_side(image_side: i32) -> (side: i32)
    ensures
        side == if image_side < MIN_WINDOW_SIDE {
            MIN_WINDOW_SIDE
        } else {
            image_side
        },
{
    if image_side < MIN_WINDOW_SIDE {
        MIN_WINDOW_SIDE
    } else {
        image_side
    }
}

/// The number of thumbnail rows in a window of the given height: one below
/// [`TWO_ROW_HEIGHT`], else two.
pub fn rows_for_height(height: i32) -> (rows: usize)
    ensures
        rows == if height < TWO_ROW_HEIGHT {
            1usize
        } else {
            2usize
        },
{
    if height < TWO_ROW_HEIGHT {
        1
    } else {
        2
    }
}

/// The column and row of thumbnail number `position`.
pub fn grid_cell(position: usize, max_rows: usize) -> (cell: (usize, usize))
    ensures
        (cell.0 as nat, cell.1 as nat) == cell_of(position as nat, max_rows as nat),
{
    if max_rows <= 1 {
        (position, 0)
    } else {
        (position / max_rows, position % max_rows)
    }
}

/// The first thumbnail stands in the first cell, and each next one a row
/// further down, or, where the column is full, at the top of the next column.
pub proof fn lemma_cells_step(position: nat, max_rows: nat)
    ensures
        cell_of(0, max_rows) == (0nat, 0nat),
        cell_of(position + 1, max_rows) == if cell_of(position, max_rows).1 + 1 >= max_rows {
            ((cell_of(position, max_rows).0 + 1) as nat, 0nat)
        } else {
            (cell_of(position, max_rows).0, (cell_of(position, max_rows).1 + 1) as nat)
        },
{
    if max_rows > 1 {
        let rows = max_rows as int;
        let at = position as int;
        assert(0int / rows == 0 && 0int % rows == 0) by (nonlinear_arith)
            requires
                rows > 1,
        ;
        assert(at == rows * (at / rows) + at % rows && 0 <= at % rows < rows) by (nonlinear_arith)
            requires
                rows > 1,
                at >= 0,
        ;
        if at % rows + 1 >= rows {
            assert((at + 1) / rows == at / rows + 1 && (at + 1) % rows == 0) by (nonlinear_arith)
                requires
                    rows > 1,
                    at == rows * (at / rows) + at % rows,
                    at % rows == rows - 1,
            ;
        } else {
            assert((at + 1) / rows == at / rows && (at + 1) % rows == at % rows + 1)
                by (nonlinear_arith)
                requires
                    rows > 1,
                    at == rows * (at / rows) + at % rows,
                    0 <= at % rows < rows - 1,
            ;
        }
    }
}

} // verus!
