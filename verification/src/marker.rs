//! Placement of the caret row under a marked range.
use vstd::prelude::*;
use crate::num::{sat_sub, min_int, max_int};

verus! {

/// Length of the ellipsis that precedes a scrolled line.
pub const ELLIPSIS_LEN: usize = 3;

/// The columns `[start, end)` (1-indexed) of line `line_idx` that a location
/// from line `start_line`, column `start_column` to line `end_line`, column
/// `end_column` covers: on a one-line location its own range; on its first
/// line from the start column to the end of the line, last byte included;
/// on its last line from column 1 to the end column; on the lines between,
/// the whole line.
pub open spec fn marked_columns(
    start_column: int,
    end_column: int,
    line_length: int,
    line_idx: int,
    start_line: int,
    end_line: int,
) -> (int, int) {
    if start_line == end_line {
        (start_column, end_column)
    } else if line_idx == start_line {
        (start_column, line_length + 1)
    } else if line_idx == end_line {
        (1, end_column)
    } else {
        (1, line_length + 1)
    }
}

/// The display column (1-indexed, after the gutter) at which column
/// `column` of a line is shown, when the line is shown from byte
/// `column_offset` on in a code area `available_code_width` wide. A
/// scrolled line shows its ellipsis (as much of it as fits, at most 3
/// bytes) first; columns scrolled out of view are placed right after it.
pub open spec fn display_column(column: int, column_offset: int, available_code_width: int) -> int {
    if column_offset > 0 {
        let prefix = min_int(3, available_code_width);
        if column - 1 < column_offset {
            prefix + 1
        } else {
            prefix + (column - 1 - column_offset) + 1
        }
    } else {
        max_int(column, 1)
    }
}

/// Where the carets go on one marked line, as (1-indexed display column,
/// number of carets): under the first marked column, clamped to one past
/// the end of the line, for as many columns as the range covers (at least
/// one), cut to the code width.
pub open spec fn marker_position_spec(
    start_column: int,
    end_column: int,
    line_length: int,
    line_idx: int,
    start_line: int,
    end_line: int,
    column_offset: int,
    available_code_width: int,
) -> (int, int) {
    let range = marked_columns(
        start_column,
        end_column,
        line_length,
        line_idx,
        start_line,
        end_line,
    );
    let range_start = min_int(range.0, line_length + 1);
    let range_end = min_int(range.1, line_length + 2);
    let marker_col = display_column(range_start, column_offset, available_code_width);
    let marker_length = min_int(
        max_int(sat_sub(range_end, range_start), 1),
        sat_sub(available_code_width, marker_col - 1),
    );
    (marker_col, marker_length)
}

/// Computes `marker_position_spec`.
pub fn calculate_marker_position(
    location_start_column: usize,
    end_column: usize,
    line_length: usize,
    line_idx: usize,
    start_line: usize,
    end_line: usize,
    column_offset: usize,
    available_code_width: usize,
) -> (r: (usize, usize))
    requires
        line_length + ELLIPSIS_LEN + 3 <= usize::MAX,
    ensures
        (r.0 as int, r.1 as int) == marker_position_spec(
            location_start_column as int,
            end_column as int,
            line_length as int,
            line_idx as int,
            start_line as int,
            end_line as int,
            column_offset as int,
            available_code_width as int,
        ),
{
    let (range_start, range_end) = if start_line == end_line {
        (location_start_column, end_column)
    } else if line_idx == start_line {
        (location_start_column, line_length + 1)
    } else if line_idx == end_line {
        (1, end_column)
    } else {
        (1, line_length + 1)
    };
    let range_start = if range_start <= line_length + 1 { range_start } else { line_length + 1 };
    let range_end = if range_end <= line_length + 2 { range_end } else { line_length + 2 };
    let marker_col = if column_offset > 0 {
        let prefix = if available_code_width < ELLIPSIS_LEN {
            available_code_width
        } else {
            ELLIPSIS_LEN
        };
        if range_start == 0 || range_start - 1 < column_offset {
            prefix + 1
        } else {
            prefix + (range_start - 1 - column_offset) + 1
        }
    } else if range_start >= 1 {
        range_start
    } else {
        1
    };
    let span = if range_end >= range_start { range_end - range_start } else { 0 };
    let span = if span >= 1 { span } else { 1 };
    let room = if available_code_width >= marker_col - 1 {
        available_code_width - (marker_col - 1)
    } else {
        0
    };
    let marker_length = if span <= room { span } else { room };
    (marker_col, marker_length)
}

} // verus!
