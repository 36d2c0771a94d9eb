use crate::game::REGION_SIZE;
use vstd::prelude::*;

verus! {

/// A tick is due once this many milliseconds have gone by since the last.
pub const TICK_MILLIS: u128 = 32;

/// The side length, in pixels, of the texture that is drawn for a cell.
pub const TEX_SIZE: u32 = 16;

/// The side length, in pixels, of a cell on the screen.
pub const CELL_DRAW_SIZE: i32 = 4;

/// The number of blocks along each side of the grid that is shown.
pub const MAP_SIZE: i32 = 8;

/// What the window reported: a request to close it, the escape key, or
/// anything else.
#[derive(Copy, Clone, Debug, PartialEq, Eq, Structural)]
pub enum Input {
    Quit,
    Escape,
    Other,
}

/// Whether the driver ends its loop on this input.
pub fn should_stop(input: Input) -> (stop: bool)
    ensures
        stop == (input is Quit || input is Escape),
{
    match input {
        Input::Quit => true,
        Input::Escape => true,
        Input::Other => false,
    }
}

/// Whether the pixel `(i, j)` of the cell texture lies on its edge.
pub fn on_edge(i: u32, j: u32) -> (edge: bool)
    ensures
        edge == (i == 0 || j == 0 || i == TEX_SIZE - 1 || j == TEX_SIZE - 1),
{
    i == 0 || j == 0 || i == TEX_SIZE - 1 || j == TEX_SIZE - 1
}

/// The left edge, or the top edge, on the screen of the cell at position
/// `local` of the block at block coordinate `block`.
pub open spec fn screen_at(block: int, local: int) -> int {
    (block * REGION_SIZE + local) * CELL_DRAW_SIZE
}

/// The square on the screen of the cell at `(i, j)` of block
/// `(block_x, block_y)`: left, top, width and height in pixels.  `None` if
/// the screen's coordinates cannot name it.
pub fn cell_rect(block_x: i32, block_y: i32, i: i32, j: i32) -> (r: Option<(i32, i32, u32, u32)>)
    ensures
        r is Some <==> i32::MIN <= screen_at(block_x as int, i as int) <= i32::MAX && i32::MIN <= screen_at(
            block_y as int,
            j as int,
        ) <= i32::MAX,
        r matches Some(rect) ==> {
            &&& rect.0 == screen_at(block_x as int, i as int)
            &&& rect.1 == screen_at(block_y as int, j as int)
            &&& rect.2 == CELL_DRAW_SIZE
            &&& rect.3 == CELL_DRAW_SIZE
        },
{
    let region: i64 = REGION_SIZE as i64;
    let scale: i64 = CELL_DRAW_SIZE as i64;
    assert(region == 8 && scale == 4);
    let x: i64 = (block_x as i64) * region + (i as i64);
    let y: i64 = (block_y as i64) * region + (j as i64);
    let left: i64 = x * scale;
    let top: i64 = y * scale;
    if left < i32::MIN as i64 || left > i32::MAX as i64 || top < i32::MIN as i64 || top > i32::MAX as i64 {
        return None;
    }
    Some((left as i32, top as i32, CELL_DRAW_SIZE as u32, CELL_DRAW_SIZE as u32))
}

/// Keeps the time since the last tick and says when the next one is due.
pub struct Pacer {
    since_update: u128,
}

impl View for Pacer {
    type V = nat;

    /// The milliseconds counted since the last tick.
    closed spec fn view(&self) -> nat {
        self.since_update as nat
    }
}

impl Pacer {
    /// A pacer that has counted nothing yet.
    pub fn new() -> (p: Pacer)
        ensures
            p@ == 0,
    {
        Pacer { since_update: 0 }
    }

    /// Whether a tick is due.  If so, the count starts again from zero.
    pub fn tick_due(&mut self) -> (due: bool)
        ensures
            due == (old(self)@ >= TICK_MILLIS),
            final(self)@ == (if due {
                0
            } else {
                old(self)@
            }),
    {
        if self.since_update >= TICK_MILLIS {
            self.since_update = 0;
            true
        } else {
            false
        }
    }

    /// Counts a frame that took `millis` milliseconds.  A frame counts for
    /// one millisecond at least, and the count stops at `u128::MAX`.
    pub fn frame_took(&mut self, millis: u128)
        ensures
            final(self)@ == (if old(self)@ + (if millis == 0 { 1 } else { millis as int }) > u128::MAX {
                u128::MAX as int
            } else {
                old(self)@ + (if millis == 0 { 1 } else { millis as int })
            }),
    {
        let d: u128 = if millis == 0 { 1 } else { millis };
        if self.since_update > u128::MAX - d {
            self.since_update = u128::MAX;
        } else {
            self.since_update = self.since_update + d;
        }
    }
}

} // verus!
