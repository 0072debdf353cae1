use vstd::prelude::*;

verus! {

/// Pixel gap kept between the bottom of the canvas and the baseline row of
/// the lowest caption line.
pub const BOTTOM_MARGIN: u32 = 70;

/// The x position at which a line of the given width starts when centered on
/// a canvas of the given width, by integer halving; 0 when the line is wider
/// than the canvas.
pub fn center_x(canvas_width: u32, line_width: u32) -> (x: u32)
    ensures
        x == if line_width / 2 <= canvas_width / 2 {
            canvas_width / 2 - line_width / 2
        } else {
            0
        },
{
    let half_canvas = canvas_width / 2;
    let half_line = line_width / 2;
    if half_line <= half_canvas {
        half_canvas - half_line
    } else {
        0
    }
}

/// The y position of a caption line stacked `rows_up` line heights above the
/// bottom margin; `None` when the canvas is too short for that row.
pub fn stack_y(canvas_height: u32, line_height: u32, rows_up: u32) -> (y: Option<u32>)
    ensures
        match y {
            Some(v) => BOTTOM_MARGIN + line_height * rows_up <= canvas_height && v
                == canvas_height - BOTTOM_MARGIN - line_height * rows_up,
            None => canvas_height < BOTTOM_MARGIN + line_height * rows_up,
        },
{
    proof {
        assert((line_height as int) * (rows_up as int) <= (u32::MAX as int) * (u32::MAX as int))
            by (nonlinear_arith)
            requires
                line_height <= u32::MAX,
                rows_up <= u32::MAX,
        ;
    }
    let need: u64 = BOTTOM_MARGIN as u64 + (line_height as u64) * (rows_up as u64);
    if need <= canvas_height as u64 {
        Some(canvas_height - BOTTOM_MARGIN - line_height * rows_up)
    } else {
        None
    }
}

} // verus!
