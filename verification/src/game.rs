pub use crate::cells::Cell;
use crate::cells::{update_cell, update_cell_with, Flips};
use crate::grid::{
    lemma_slot_bounds, lemma_slot_injective, offset, region, region_cells, slot, Block, Grid,
};
use crate::rules::{
    cell_count, lemma_order_pos, lemma_steps_clean, lemma_steps_prefix, no_flips, order_index, prepared,
    rule, steps, tick,
};
use vstd::prelude::*;

verus! {

/// The side length of a block, in cells.
pub const REGION_SIZE: i32 = 8;

/// The number of cells in a block.
pub const REGION_CELLS: usize = 64;

/// A square of `REGION_SIZE` by `REGION_SIZE` cells with a dirty flag: the
/// unit of bulk copy and reset.
pub struct CellBlock {
    cells: Vec<Cell>,
    dirty: bool,
}

impl View for CellBlock {
    type V = Block;

    closed spec fn view(&self) -> Block {
        Block { cells: self.cells@, dirty: self.dirty }
    }
}

impl CellBlock {
    /// The block holds one cell for each of its positions.
    pub open spec fn wf(&self) -> bool {
        self@.cells.len() == REGION_CELLS
    }

    /// A block of air.  It starts dirty, so the first tick evaluates it.
    pub fn new() -> (b: Self)
        ensures
            b.wf(),
            b@.dirty,
            forall|i: int| 0 <= i < REGION_CELLS ==> b@.cells[i] == Cell::Air,
    {
        let mut cells: Vec<Cell> = Vec::new();
        let mut i: usize = 0;
        while i < REGION_CELLS
            invariant
                i <= REGION_CELLS,
                cells.len() == i,
                forall|k: int| 0 <= k < i ==> cells[k] == Cell::Air,
            decreases REGION_CELLS - i,
        {
            cells.push(Cell::Air);
            i += 1;
        }
        CellBlock { cells, dirty: true }
    }

    /// Whether the block changed, or was written into, during the last tick.
    pub fn is_dirty(&self) -> (d: bool)
        ensures
            d == self@.dirty,
    {
        self.dirty
    }

    /// Every cell of the block with its position inside the block, in
    /// row-major order: x fastest, then y.
    pub fn cells(&self) -> (v: Vec<(Cell, i32, i32)>)
        requires
            self.wf(),
        ensures
            v.len() == REGION_CELLS,
            forall|k: int|
                0 <= k < REGION_CELLS ==> #[trigger] v[k] == (
                    self@.cells[k],
                    (k % REGION_SIZE as int) as i32,
                    (k / REGION_SIZE as int) as i32,
                ),
    {
        let mut v: Vec<(Cell, i32, i32)> = Vec::new();
        let mut j: i32 = 0;
        while j < REGION_SIZE
            invariant
                0 <= j <= REGION_SIZE,
                self.wf(),
                v.len() == j * REGION_SIZE,
                forall|k: int|
                    0 <= k < v.len() ==> #[trigger] v[k] == (
                        self@.cells[k],
                        (k % REGION_SIZE as int) as i32,
                        (k / REGION_SIZE as int) as i32,
                    ),
            decreases REGION_SIZE - j,
        {
            let mut i: i32 = 0;
            while i < REGION_SIZE
                invariant
                    0 <= j < REGION_SIZE,
                    0 <= i <= REGION_SIZE,
                    self.wf(),
                    v.len() == j * REGION_SIZE + i,
                    forall|k: int|
                        0 <= k < v.len() ==> #[trigger] v[k] == (
                            self@.cells[k],
                            (k % REGION_SIZE as int) as i32,
                            (k / REGION_SIZE as int) as i32,
                        ),
                decreases REGION_SIZE - i,
            {
                let at: usize = (i + j * REGION_SIZE) as usize;
                v.push((self.cells[at], i, j));
                i += 1;
            }
            j += 1;
        }
        v
    }

    /// Stores `cell` at position `l` and, with `mark`, sets the dirty flag.
    fn put(&mut self, l: usize, cell: Cell, mark: bool)
        requires
            old(self).wf(),
            l < REGION_CELLS,
        ensures
            final(self).wf(),
            final(self)@.cells == old(self)@.cells.update(l as int, cell),
            final(self)@.dirty == (old(self)@.dirty || mark),
    {
        self.cells.set(l, cell);
        if mark {
            self.dirty = true;
        }
    }

    /// Copies the cells of `other`; the dirty flag stays.
    fn copy_cells_from(&mut self, other: &CellBlock)
        requires
            old(self).wf(),
            other.wf(),
        ensures
            final(self).wf(),
            final(self)@.cells == other@.cells,
            final(self)@.dirty == old(self)@.dirty,
    {
        let mut l: usize = 0;
        while l < REGION_CELLS
            invariant
                l <= REGION_CELLS,
                self.wf(),
                other.wf(),
                self@.dirty == old(self)@.dirty,
                forall|i: int| 0 <= i < l ==> self@.cells[i] == other@.cells[i],
            decreases REGION_CELLS - l,
        {
            self.cells.set(l, other.cells[l]);
            l += 1;
        }
        assert(self@.cells =~= other@.cells);
    }

    /// Sets the dirty flag; the cells stay.
    fn set_dirty(&mut self)
        ensures
            final(self)@.cells == old(self)@.cells,
            final(self)@.dirty,
    {
        self.dirty = true;
    }

    /// Clears the dirty flag; the cells stay.
    fn clear_dirty(&mut self)
        ensures
            final(self)@.cells == old(self)@.cells,
            !final(self)@.dirty,
    {
        self.dirty = false;
    }
}

/// A coordinate that names no cell, or no block, of the grid.
#[derive(Copy, Clone, Debug, PartialEq, Eq, Structural)]
pub struct OutOfBounds;

/// A square grid of blocks, addressed by cell coordinates that start at the
/// top left corner; `y` grows downwards.
pub struct GameState {
    size: i32,
    blocks: Vec<CellBlock>,
}

impl View for GameState {
    type V = Grid;

    closed spec fn view(&self) -> Grid {
        let size = self.size as int;
        Grid {
            size,
            cells: Map::new(
                |p: (int, int)| 0 <= p.0 < size * region() && 0 <= p.1 < size * region(),
                |p: (int, int)|
                    self.blocks[slot(size, p.0 / region(), p.1 / region())]@.cells[offset(p.0, p.1)],
            ),
            dirty: Map::new(
                |b: (int, int)| 0 <= b.0 < size && 0 <= b.1 < size,
                |b: (int, int)| self.blocks[slot(size, b.0, b.1)]@.dirty,
            ),
        }
    }
}

impl GameState {
    /// The storage holds `size` by `size` well-formed blocks.
    pub closed spec fn inv(&self) -> bool {
        &&& 0 <= self.size
        &&& self.blocks.len() == self.size * self.size
        &&& forall|i: int| 0 <= i < self.blocks.len() ==> (#[trigger] self.blocks[i]).wf()
    }

    /// The grid is whole, and every cell coordinate and the cell count fit
    /// the machine's integers.
    pub open spec fn wf(&self) -> bool {
        &&& self.inv()
        &&& self@.wf()
        &&& self@.side() <= i32::MAX
        &&& cell_count(self@.size) <= usize::MAX
    }

    /// A grid of `size` by `size` blocks of air, every block dirty.
    pub fn new(size: i32) -> (s: Self)
        requires
            0 <= size,
            size * REGION_SIZE <= i32::MAX,
            size * size * REGION_CELLS <= usize::MAX,
        ensures
            s.wf(),
            s@ == Grid::fresh(size as int),
    {
        assert(size * size <= size * size * REGION_CELLS) by (nonlinear_arith)
            requires
                0 <= size,
                REGION_CELLS == 64,
        ;
        let n: usize = (size as usize) * (size as usize);
        let mut blocks: Vec<CellBlock> = Vec::new();
        let mut i: usize = 0;
        while i < n
            invariant
                i <= n,
                blocks.len() == i,
                forall|k: int|
                    0 <= k < i ==> {
                        &&& (#[trigger] blocks[k]).wf()
                        &&& blocks[k]@.dirty
                        &&& forall|l: int| 0 <= l < REGION_CELLS ==> blocks[k]@.cells[l] == Cell::Air
                    },
            decreases n - i,
        {
            blocks.push(CellBlock::new());
            i += 1;
        }
        let s = GameState { size, blocks };
        proof {
            let fresh = Grid::fresh(size as int);
            assert forall|p: (int, int)| s@.cells.dom().contains(p) implies #[trigger] s@.cells[p]
                == Cell::Air by {
                lemma_slot_bounds(size as int, p.0 / region(), p.1 / region());
            }
            assert forall|b: (int, int)| s@.dirty.dom().contains(b) implies #[trigger] s@.dirty[b] by {
                lemma_slot_bounds(size as int, b.0, b.1);
            }
            assert(s@.cells =~= fresh.cells);
            assert(s@.dirty =~= fresh.dirty);
        }
        s
    }

    /// The number of blocks along each side.
    pub fn size(&self) -> (n: i32)
        ensures
            n == self@.size,
    {
        self.size
    }

    /// Resolves a cell coordinate to the place where the cell is stored.
    /// Every access goes through here, so this is the one bounds check.
    fn locate(&self, x: i32, y: i32) -> (r: Result<(usize, usize), OutOfBounds>)
        requires
            self.wf(),
        ensures
            r is Ok <==> self@.in_bounds(x as int, y as int),
            r matches Ok(at) ==> {
                &&& at.0 == slot(self.size as int, x as int / region(), y as int / region())
                &&& at.0 < self.blocks.len()
                &&& at.1 == offset(x as int, y as int)
                &&& at.1 < REGION_CELLS
            },
    {
        let side = self.size * REGION_SIZE;
        if x < 0 || y < 0 || x >= side || y >= side {
            return Err(OutOfBounds);
        }
        let bx = (x / REGION_SIZE) as usize;
        let by = (y / REGION_SIZE) as usize;
        let ix = x % REGION_SIZE;
        let iy = y % REGION_SIZE;
        proof {
            lemma_slot_bounds(self.size as int, bx as int, by as int);
        }
        Ok((by * (self.size as usize) + bx, (iy * REGION_SIZE + ix) as usize))
    }

    /// The place of `(x, y)` in evaluation order: a tick that is given a
    /// script of flips hands the entry at this index to the cell at `(x, y)`.
    pub fn order_of(&self, x: i32, y: i32) -> (r: Result<usize, OutOfBounds>)
        requires
            self.wf(),
        ensures
            r is Ok <==> self@.in_bounds(x as int, y as int),
            r matches Ok(k) ==> k == order_index(self@.size, x as int, y as int),
    {
        match self.locate(x, y) {
            Ok((b, l)) => Ok(b * REGION_CELLS + l),
            Err(e) => Err(e),
        }
    }

    /// The cell stored at `(x, y)`.
    pub fn read_cell(&self, x: i32, y: i32) -> (r: Result<Cell, OutOfBounds>)
        requires
            self.wf(),
        ensures
            r is Ok <==> self@.in_bounds(x as int, y as int),
            r matches Ok(cell) ==> cell == self@.cell(x as int, y as int),
    {
        match self.locate(x, y) {
            Ok((b, l)) => Ok(self.blocks[b].cells[l]),
            Err(e) => Err(e),
        }
    }

    /// Whether `(x, y)` lies inside the grid and holds air.
    pub fn is_empty(&self, x: i32, y: i32) -> (r: bool)
        requires
            self.wf(),
        ensures
            r == self@.is_empty(x as int, y as int),
    {
        match self.read_cell(x, y) {
            Ok(Cell::Air) => true,
            _ => false,
        }
    }

    /// Stores `cell` at `(x, y)`.  With `dirty` the owning block is marked
    /// dirty; its flag is never cleared here.
    pub fn write_cell(&mut self, cell: Cell, x: i32, y: i32, dirty: bool) -> (r: Result<(), OutOfBounds>)
        requires
            old(self).wf(),
        ensures
            final(self).wf(),
            final(self)@ == old(self)@.write(cell, x as int, y as int, dirty),
            r is Ok <==> old(self)@.in_bounds(x as int, y as int),
    {
        match self.locate(x, y) {
            Ok((b, l)) => {
                self.blocks[b].put(l, cell, dirty);
                proof {
                    let before = old(self)@.write(cell, x as int, y as int, dirty);
                    let size = self.size as int;
                    assert forall|p: (int, int)| self@.cells.dom().contains(p) implies #[trigger] self@.cells[p]
                        == before.cells[p] by {
                        lemma_slot_bounds(size, p.0 / region(), p.1 / region());
                        if slot(size, p.0 / region(), p.1 / region()) == b {
                            lemma_slot_injective(
                                size,
                                p.0 / region(),
                                p.1 / region(),
                                x as int / region(),
                                y as int / region(),
                            );
                        }
                    }
                    assert forall|q: (int, int)| self@.dirty.dom().contains(q) implies #[trigger] self@.dirty[q]
                        == before.dirty[q] by {
                        lemma_slot_bounds(size, q.0, q.1);
                        if slot(size, q.0, q.1) == b {
                            lemma_slot_injective(size, q.0, q.1, x as int / region(), y as int / region());
                        }
                    }
                    assert(self@.cells =~= before.cells);
                    assert(self@.dirty =~= before.dirty);
                }
                Ok(())
            },
            Err(e) => Err(e),
        }
    }

    /// Marks the block around the cell `(x, y)` dirty; no cell changes.
    pub fn mark_dirty(&mut self, x: i32, y: i32) -> (r: Result<(), OutOfBounds>)
        requires
            old(self).wf(),
        ensures
            final(self).wf(),
            final(self)@ == old(self)@.mark(x as int, y as int),
            r is Ok <==> old(self)@.in_bounds(x as int, y as int),
    {
        match self.locate(x, y) {
            Ok((b, _)) => {
                self.blocks[b].set_dirty();
                proof {
                    let after = old(self)@.mark(x as int, y as int);
                    let size = self.size as int;
                    assert forall|p: (int, int)| self@.cells.dom().contains(p) implies #[trigger] self@.cells[p]
                        == after.cells[p] by {
                        lemma_slot_bounds(size, p.0 / region(), p.1 / region());
                    }
                    assert forall|q: (int, int)| self@.dirty.dom().contains(q) implies #[trigger] self@.dirty[q]
                        == after.dirty[q] by {
                        lemma_slot_bounds(size, q.0, q.1);
                        if slot(size, q.0, q.1) == b {
                            lemma_slot_injective(size, q.0, q.1, x as int / region(), y as int / region());
                        }
                    }
                    assert(self@.cells =~= after.cells);
                    assert(self@.dirty =~= after.dirty);
                }
                Ok(())
            },
            Err(e) => Err(e),
        }
    }

    /// Resolves a block coordinate to the place where the block is stored.
    fn locate_block(&self, bx: i32, by: i32) -> (r: Result<usize, OutOfBounds>)
        requires
            self.wf(),
        ensures
            r is Ok <==> self@.has_block(bx as int, by as int),
            r matches Ok(b) ==> b == slot(self.size as int, bx as int, by as int) && b < self.blocks.len(),
    {
        if bx < 0 || by < 0 || bx >= self.size || by >= self.size {
            return Err(OutOfBounds);
        }
        proof {
            lemma_slot_bounds(self.size as int, bx as int, by as int);
        }
        Ok((by as usize) * (self.size as usize) + (bx as usize))
    }

    /// The block at block coordinate `(bx, by)`.  Its cells are the grid's
    /// cells from `(bx * REGION_SIZE, by * REGION_SIZE)` on, row by row.
    pub fn get_block(&self, bx: i32, by: i32) -> (r: Result<&CellBlock, OutOfBounds>)
        requires
            self.wf(),
        ensures
            r is Ok <==> self@.has_block(bx as int, by as int),
            r matches Ok(block) ==> {
                &&& block.wf()
                &&& block@.dirty == self@.is_dirty(bx as int, by as int)
                &&& forall|l: int|
                    0 <= l < REGION_CELLS ==> #[trigger] block@.cells[l] == self@.cell(
                        bx * region() + l % region(),
                        by * region() + l / region(),
                    )
            },
    {
        match self.locate_block(bx, by) {
            Ok(b) => Ok(&self.blocks[b]),
            Err(e) => Err(e),
        }
    }

    /// Replaces block `(bx, by)` by a fresh one: all air, and dirty.
    pub fn reset_block(&mut self, bx: i32, by: i32) -> (r: Result<(), OutOfBounds>)
        requires
            old(self).wf(),
        ensures
            final(self).wf(),
            final(self)@ == old(self)@.reset(bx as int, by as int),
            r is Ok <==> old(self)@.has_block(bx as int, by as int),
    {
        match self.locate_block(bx, by) {
            Ok(b) => {
                self.blocks.set(b, CellBlock::new());
                proof {
                    let after = old(self)@.reset(bx as int, by as int);
                    let size = self.size as int;
                    assert forall|p: (int, int)| self@.cells.dom().contains(p) implies #[trigger] self@.cells[p]
                        == after.cells[p] by {
                        lemma_slot_bounds(size, p.0 / region(), p.1 / region());
                        if slot(size, p.0 / region(), p.1 / region()) == b {
                            lemma_slot_injective(size, p.0 / region(), p.1 / region(), bx as int, by as int);
                        }
                    }
                    assert forall|q: (int, int)| self@.dirty.dom().contains(q) implies #[trigger] self@.dirty[q]
                        == after.dirty[q] by {
                        lemma_slot_bounds(size, q.0, q.1);
                        if slot(size, q.0, q.1) == b {
                            lemma_slot_injective(size, q.0, q.1, bx as int, by as int);
                        }
                    }
                    assert(self@.cells =~= after.cells);
                    assert(self@.dirty =~= after.dirty);
                }
                Ok(())
            },
            Err(e) => Err(e),
        }
    }
}

/// The first phase of a tick: makes `write_state` ready to take the rules'
/// stores.  A block that is dirty in `read_state` is reset, a clean one is
/// copied, and then every dirty flag of `write_state` is cleared.
pub fn prepare(read_state: &GameState, write_state: &mut GameState)
    requires
        read_state.wf(),
        old(write_state).wf(),
        old(write_state)@.size == read_state@.size,
    ensures
        final(write_state).wf(),
        final(write_state)@ == prepared(read_state@),
{
    let n = read_state.blocks.len();
    let mut b: usize = 0;
    while b < n
        invariant
            read_state.wf(),
            write_state.wf(),
            write_state.size == read_state.size,
            n == read_state.blocks.len(),
            b <= n,
            forall|k: int, l: int|
                0 <= k < b && 0 <= l < REGION_CELLS ==> #[trigger] write_state.blocks[k]@.cells[l] == (
                    if read_state.blocks[k]@.dirty {
                        Cell::Air
                    } else {
                        read_state.blocks[k]@.cells[l]
                    }),
        decreases n - b,
    {
        if read_state.blocks[b].dirty {
            write_state.blocks.set(b, CellBlock::new());
        } else {
            write_state.blocks[b].copy_cells_from(&read_state.blocks[b]);
        }
        b += 1;
    }
    let mut c: usize = 0;
    while c < n
        invariant
            read_state.wf(),
            write_state.wf(),
            write_state.size == read_state.size,
            n == read_state.blocks.len(),
            c <= n,
            forall|k: int, l: int|
                0 <= k < n && 0 <= l < REGION_CELLS ==> #[trigger] write_state.blocks[k]@.cells[l] == (
                    if read_state.blocks[k]@.dirty {
                        Cell::Air
                    } else {
                        read_state.blocks[k]@.cells[l]
                    }),
            forall|k: int| 0 <= k < c ==> !(#[trigger] write_state.blocks[k])@.dirty,
        decreases n - c,
    {
        write_state.blocks[c].clear_dirty();
        c += 1;
    }
    proof {
        let size = read_state.size as int;
        let goal = prepared(read_state@);
        assert forall|p: (int, int)| write_state@.cells.dom().contains(p) implies #[trigger] write_state@.cells[p]
            == goal.cells[p] by {
            lemma_slot_bounds(size, p.0 / region(), p.1 / region());
        }
        assert forall|q: (int, int)| write_state@.dirty.dom().contains(q) implies #[trigger] write_state@.dirty[q]
            == goal.dirty[q] by {
            lemma_slot_bounds(size, q.0, q.1);
        }
        assert(write_state@.cells =~= goal.cells);
        assert(write_state@.dirty =~= goal.dirty);
    }
}

/// The second phase of a tick: every cell of every dirty block of
/// `read_state` has its rule evaluated, block after block, and inside a
/// block row by row.  With a script the `k`-th position takes its flips
/// from there, else they are drawn at random.  Returns the flips used.
fn evaluate(read_state: &GameState, write_state: &mut GameState, script: Option<&Vec<Flips>>) -> (used: Ghost<
    Seq<Flips>,
>)
    requires
        read_state.wf(),
        old(write_state).wf(),
    ensures
        final(write_state).wf(),
        final(write_state)@ == steps(
            read_state@,
            old(write_state)@,
            used@,
            cell_count(read_state@.size) as nat,
        ),
        script matches Some(s) ==> used@ == s@,
{
    let size = read_state.size;
    let ghost start = write_state@;
    let ghost cells = region_cells();
    let mut used: Ghost<Seq<Flips>> = Ghost(
        match script {
            Some(s) => s@,
            None => Seq::empty(),
        },
    );
    let mut k: usize = 0;
    let mut by: i32 = 0;
    while by < size
        invariant
            read_state.wf(),
            write_state.wf(),
            size == read_state.size,
            start == old(write_state)@,
            cells == 64,
            0 <= by <= size,
            k == by * size * cells,
            script matches Some(s) ==> used@ == s@,
            script is None ==> used@.len() == k,
            write_state@ == steps(read_state@, start, used@, k as nat),
        decreases size - by,
    {
        let mut bx: i32 = 0;
        while bx < size
            invariant
                read_state.wf(),
                write_state.wf(),
                size == read_state.size,
                start == old(write_state)@,
                cells == 64,
                0 <= by < size,
                0 <= bx <= size,
                k == slot(size as int, bx as int, by as int) * cells,
                script matches Some(s) ==> used@ == s@,
                script is None ==> used@.len() == k,
                write_state@ == steps(read_state@, start, used@, k as nat),
            decreases size - bx,
        {
            proof {
                lemma_slot_bounds(size as int, bx as int, by as int);
            }
            let block = &read_state.blocks[(by as usize) * (size as usize) + (bx as usize)];
            if block.dirty {
                let listing = block.cells();
                let mut l: usize = 0;
                while l < REGION_CELLS
                    invariant
                        read_state.wf(),
                        write_state.wf(),
                        size == read_state.size,
                        start == old(write_state)@,
                        cells == 64,
                        0 <= by < size,
                        0 <= bx < size,
                        l <= REGION_CELLS,
                        0 <= slot(size as int, bx as int, by as int) < size * size,
                        block == read_state.blocks[slot(size as int, bx as int, by as int)],
                        block@.dirty,
                        listing.len() == REGION_CELLS,
                        forall|i: int|
                            0 <= i < REGION_CELLS ==> #[trigger] listing[i] == (
                                block@.cells[i],
                                (i % REGION_SIZE as int) as i32,
                                (i / REGION_SIZE as int) as i32,
                            ),
                        k == slot(size as int, bx as int, by as int) * cells + l,
                        script matches Some(s) ==> used@ == s@,
                        script is None ==> used@.len() == k,
                        write_state@ == steps(read_state@, start, used@, k as nat),
                    decreases REGION_CELLS - l,
                {
                    let (cell, i, j) = listing[l];
                    let x = bx * REGION_SIZE + i;
                    let y = by * REGION_SIZE + j;
                    let ghost before = write_state@;
                    proof {
                        lemma_order_pos(size as int, bx as int, by as int, l as int);
                        assert(read_state@.cell(x as int, y as int) == cell);
                        assert(read_state@.is_dirty(x as int / region(), y as int / region()));
                    }
                    match script {
                        Some(s) => {
                            let flips = if k < s.len() { s[k] } else { Flips::none() };
                            update_cell_with(&cell, x, y, flips, read_state, write_state);
                        },
                        None => {
                            update_cell(&cell, x, y, read_state, write_state);
                            proof {
                                let flips = choose|f: Flips|
                                    write_state@ == rule(read_state@, before, cell, x as int, y as int, f);
                                lemma_steps_prefix(read_state@, start, used@, used@.push(flips), k as nat);
                                used@ = used@.push(flips);
                            }
                        },
                    }
                    k += 1;
                    l += 1;
                }
            } else {
                proof {
                    let skipped = used@ + Seq::new(cells as nat, |i: int| no_flips());
                    if script is None {
                        lemma_steps_prefix(read_state@, start, used@, skipped, k as nat);
                        used@ = skipped;
                    }
                    lemma_steps_clean(read_state@, start, used@, bx as int, by as int, cells as nat);
                }
                k += REGION_CELLS;
            }
            bx += 1;
        }
        proof {
            assert((by + 1) * size == by * size + size) by (nonlinear_arith);
        }
        by += 1;
    }
    used
}

/// One tick with the given flips: the `k`-th position in evaluation order
/// takes `flips[k]`, and a position beyond the end of `flips` takes
/// `Flips::none()`.  `write_state` becomes the grid that follows
/// `read_state`; what it held before does not matter.
pub fn update_with(read_state: &GameState, write_state: &mut GameState, flips: &Vec<Flips>)
    requires
        read_state.wf(),
        old(write_state).wf(),
        old(write_state)@.size == read_state@.size,
    ensures
        final(write_state).wf(),
        final(write_state)@ == tick(read_state@, flips@),
{
    prepare(read_state, write_state);
    let _ = evaluate(read_state, write_state, Some(flips));
}

/// One tick with flips drawn at random.  `write_state` becomes a grid that
/// follows `read_state`: the one that `update_with` gives for some flips.
pub fn update(read_state: &GameState, write_state: &mut GameState)
    requires
        read_state.wf(),
        old(write_state).wf(),
        old(write_state)@.size == read_state@.size,
    ensures
        final(write_state).wf(),
        exists|flips: Seq<Flips>| final(write_state)@ == tick(read_state@, flips),
{
    prepare(read_state, write_state);
    let used = evaluate(read_state, write_state, None);
    assert(write_state@ == tick(read_state@, used@));
}

} // verus!
