use crate::cells::Cell;
use vstd::prelude::*;

verus! {

/// What a block is, mathematically: its cells in row-major order (x fastest)
/// and its dirty flag.
pub struct Block {
    pub cells: Seq<Cell>,
    pub dirty: bool,
}

/// What a grid is, mathematically: `size` blocks along each side, a cell for
/// every coordinate inside, and a dirty flag for every block.
pub struct Grid {
    pub size: int,
    pub cells: Map<(int, int), Cell>,
    pub dirty: Map<(int, int), bool>,
}

/// The side length of a block, in cells.
pub open spec fn region() -> int {
    8
}

/// The number of cells in a block.
pub open spec fn region_cells() -> int {
    64
}

/// Where block `(bx, by)` comes in storage order: blocks are kept row by
/// row, `size` to a row.
pub open spec fn slot(size: int, bx: int, by: int) -> int {
    by * size + bx
}

/// Where the cell at `(x, y)` comes inside its block: cells are kept row by
/// row, x fastest.
pub open spec fn offset(x: int, y: int) -> int {
    (y % region()) * region() + x % region()
}

/// Every block of a grid has a place in storage order.
pub proof fn lemma_slot_bounds(size: int, bx: int, by: int)
    requires
        0 <= bx < size,
        0 <= by < size,
    ensures
        0 <= slot(size, bx, by) < size * size,
{
    assert(by * size + bx < size * size) by (nonlinear_arith)
        requires
            0 <= bx < size,
            0 <= by < size,
    ;
    assert(0 <= by * size) by (nonlinear_arith)
        requires
            0 <= by,
            0 <= size,
    ;
}

/// No two blocks of a grid share a place in storage order.
pub proof fn lemma_slot_injective(size: int, bx: int, by: int, cx: int, cy: int)
    requires
        0 <= bx < size,
        0 <= by < size,
        0 <= cx < size,
        0 <= cy < size,
        slot(size, bx, by) == slot(size, cx, cy),
    ensures
        bx == cx,
        by == cy,
{
    assert(by == cy) by (nonlinear_arith)
        requires
            0 <= bx < size,
            0 <= cx < size,
            by * size + bx == cy * size + cx,
    ;
    assert(by * size == cy * size);
}

impl Grid {
    /// The side length of the grid, in cells.
    pub open spec fn side(self) -> int {
        self.size * region()
    }

    /// Whether the cell coordinate lies inside the grid.
    pub open spec fn in_bounds(self, x: int, y: int) -> bool {
        0 <= x < self.side() && 0 <= y < self.side()
    }

    /// Whether the block coordinate names a block of the grid.
    pub open spec fn has_block(self, bx: int, by: int) -> bool {
        0 <= bx < self.size && 0 <= by < self.size
    }

    /// The maps hold exactly the coordinates inside the grid.
    pub open spec fn wf(self) -> bool {
        &&& 0 <= self.size
        &&& forall|x: int, y: int| #[trigger] self.cells.dom().contains((x, y)) <==> self.in_bounds(x, y)
        &&& forall|bx: int, by: int| #[trigger] self.dirty.dom().contains((bx, by)) <==> self.has_block(bx, by)
    }

    /// The cell at a coordinate inside the grid.
    pub open spec fn cell(self, x: int, y: int) -> Cell
        recommends
            self.in_bounds(x, y),
    {
        self.cells[(x, y)]
    }

    /// Whether the coordinate lies inside the grid and holds air.  A
    /// coordinate outside is never empty: nothing can move there.
    pub open spec fn is_empty(self, x: int, y: int) -> bool {
        self.in_bounds(x, y) && self.cells[(x, y)] == Cell::Air
    }

    /// The dirty flag of a block of the grid.
    pub open spec fn is_dirty(self, bx: int, by: int) -> bool
        recommends
            self.has_block(bx, by),
    {
        self.dirty[(bx, by)]
    }

    /// The grid after `cell` is stored at `(x, y)`.  With `mark` the owning
    /// block becomes dirty; a flag is never cleared.  A coordinate outside
    /// leaves the grid as it is.
    pub open spec fn write(self, cell: Cell, x: int, y: int, mark: bool) -> Grid {
        if self.in_bounds(x, y) {
            Grid {
                size: self.size,
                cells: self.cells.insert((x, y), cell),
                dirty: if mark {
                    self.dirty.insert((x / region(), y / region()), true)
                } else {
                    self.dirty
                },
            }
        } else {
            self
        }
    }

    /// The grid after the block around the cell `(x, y)` has been marked
    /// dirty; no cell changes.  A coordinate outside leaves the grid as it
    /// is.
    pub open spec fn mark(self, x: int, y: int) -> Grid {
        if self.in_bounds(x, y) {
            Grid { size: self.size, cells: self.cells, dirty: self.dirty.insert((x / region(), y / region()), true) }
        } else {
            self
        }
    }

    /// The grid after block `(bx, by)` is replaced by a fresh one: all air,
    /// and dirty.  A block coordinate outside leaves the grid as it is.
    pub open spec fn reset(self, bx: int, by: int) -> Grid {
        if self.has_block(bx, by) {
            Grid {
                size: self.size,
                cells: Map::new(
                    |p: (int, int)| self.in_bounds(p.0, p.1),
                    |p: (int, int)|
                        if p.0 / region() == bx && p.1 / region() == by {
                            Cell::Air
                        } else {
                            self.cells[p]
                        },
                ),
                dirty: self.dirty.insert((bx, by), true),
            }
        } else {
            self
        }
    }

    /// The grid of `size` blocks a side as it is made: all air, every block
    /// dirty.
    pub open spec fn fresh(size: int) -> Grid {
        Grid {
            size,
            cells: Map::new(
                |p: (int, int)| 0 <= p.0 < size * region() && 0 <= p.1 < size * region(),
                |p: (int, int)| Cell::Air,
            ),
            dirty: Map::new(|b: (int, int)| 0 <= b.0 < size && 0 <= b.1 < size, |b: (int, int)| true),
        }
    }
}

} // verus!
