use crate::cells::{Cell, Flips, IGNITION_HEAT};
use crate::grid::{offset, region, region_cells, slot, Grid};
use vstd::arithmetic::div_mod::lemma_fundamental_div_mod_converse;
use vstd::prelude::*;

verus! {

/// What a rule evaluation decides: one store into a grid and, for a cell
/// that falls, the place of a cell whose block is woken, that is, marked
/// dirty, so that what rests above the place left is evaluated next tick.
pub struct Write {
    pub x: int,
    pub y: int,
    pub cell: Cell,
    pub mark: bool,
    pub wake: Option<(int, int)>,
}

impl Grid {
    /// The grid after the store `w` and the waking that goes with it.
    pub open spec fn apply(self, w: Write) -> Grid {
        let stored = self.write(w.cell, w.x, w.y, w.mark);
        match w.wake {
            Some(at) => stored.mark(at.0, at.1),
            None => stored,
        }
    }
}

/// The flips that nudge nothing and pick the first alternative.
pub open spec fn no_flips() -> Flips {
    Flips { left: false, right: false, up: false, down: false, tie: false }
}

/// The neighbor that four flips select: `left` takes 1 from x and `right`
/// adds 1 to it, `up` takes 1 from y and `down` adds 1 to it.  Opposite
/// flips cancel, so the result may be `(x, y)` itself.
pub open spec fn nudged(x: int, y: int, f: Flips) -> (int, int) {
    (
        x - (if f.left { 1int } else { 0int }) + (if f.right { 1int } else { 0int }),
        y - (if f.up { 1int } else { 0int }) + (if f.down { 1int } else { 0int }),
    )
}

/// A place is free for a mover when it is air in the frozen read grid and
/// nothing has been written there in the write grid yet.
pub open spec fn vacant(read: Grid, write: Grid, x: int, y: int) -> bool {
    read.is_empty(x, y) && write.is_empty(x, y)
}

/// Gravity.  The cell falls straight down if that place is free; else to
/// the diagonal below on the side that `right` picks, if that is free; else
/// it rests where it is, without marking any block.  A cell that falls
/// marks the block it falls into and wakes the block of the cell one row
/// up, one column to the side that `right` did not pick.
pub open spec fn fall_write(read: Grid, write: Grid, cell: Cell, x: int, y: int, right: bool) -> Write {
    let side = if right { x + 1 } else { x - 1 };
    let away = if right { x - 1 } else { x + 1 };
    if vacant(read, write, x, y + 1) {
        Write { x, y: y + 1, cell, mark: true, wake: Some((away, y - 1)) }
    } else if vacant(read, write, side, y + 1) {
        Write { x: side, y: y + 1, cell, mark: true, wake: Some((away, y - 1)) }
    } else {
        Write { x, y, cell, mark: false, wake: None }
    }
}

/// Wood.  Without fuel it becomes air.  Otherwise it looks at the neighbor
/// that the flips select: next to fire it catches, else it stays as it is.
pub open spec fn wood_write(read: Grid, fuel: i32, x: int, y: int, f: Flips) -> Write {
    let (nx, ny) = nudged(x, y, f);
    if fuel <= 0 {
        Write { x, y, cell: Cell::Air, mark: false, wake: None }
    } else if read.in_bounds(nx, ny) && read.cell(nx, ny) is Fire {
        Write { x, y, cell: Cell::Fire { heat: IGNITION_HEAT }, mark: true, wake: None }
    } else {
        Write { x, y, cell: Cell::Wood { fuel }, mark: false, wake: None }
    }
}

/// Fire.  Without heat it becomes air.  Otherwise it looks at the neighbor
/// that the flips select: into air it moves, losing 2 heat with `tie` and 1
/// without; else it stays and loses 1.
pub open spec fn fire_write(read: Grid, heat: i32, x: int, y: int, f: Flips) -> Write {
    let (nx, ny) = nudged(x, y, f);
    if heat <= 0 {
        Write { x, y, cell: Cell::Air, mark: false, wake: None }
    } else if read.is_empty(nx, ny) {
        Write {
            x: nx,
            y: ny,
            cell: Cell::Fire { heat: (heat - (if f.tie { 2int } else { 1int })) as i32 },
            mark: true,
            wake: None,
        }
    } else {
        Write { x, y, cell: Cell::Fire { heat: (heat - 1) as i32 }, mark: true, wake: None }
    }
}

/// Whether `f` holds flips for nothing but what the rule of `cell`,
/// evaluated at `(x, y)`, consults; a flip that is not consulted is unset.
/// Air and what has burnt out consult none, sand consults `tie`, wood the
/// four directions, and fire the four directions and, where the neighbor
/// that they select is air, `tie`.
pub open spec fn consulted(read: Grid, cell: Cell, x: int, y: int, f: Flips) -> bool {
    match cell {
        Cell::Air => f == no_flips(),
        Cell::Sand => !f.left && !f.right && !f.up && !f.down,
        Cell::Wood { fuel } => if fuel <= 0 {
            f == no_flips()
        } else {
            !f.tie
        },
        Cell::Fire { heat } => if heat <= 0 {
            f == no_flips()
        } else {
            f.tie ==> read.is_empty(nudged(x, y, f).0, nudged(x, y, f).1)
        },
    }
}

/// The store that the rule of `cell`, evaluated at `(x, y)`, decides; air
/// decides none.
pub open spec fn rule_write(read: Grid, write: Grid, cell: Cell, x: int, y: int, f: Flips) -> Option<Write> {
    match cell {
        Cell::Air => None,
        Cell::Sand => Some(fall_write(read, write, Cell::Sand, x, y, f.tie)),
        Cell::Wood { fuel } => Some(wood_write(read, fuel, x, y, f)),
        Cell::Fire { heat } => Some(fire_write(read, heat, x, y, f)),
    }
}

/// The write grid after the rule of `cell` has been evaluated at `(x, y)`.
pub open spec fn rule(read: Grid, write: Grid, cell: Cell, x: int, y: int, f: Flips) -> Grid {
    match rule_write(read, write, cell, x, y, f) {
        Some(w) => write.apply(w),
        None => write,
    }
}

/// The write grid as a tick prepares it, before any rule is evaluated: a
/// dirty block of the read grid is all air, a clean one is copied, and no
/// block is dirty.
pub open spec fn prepared(read: Grid) -> Grid {
    Grid {
        size: read.size,
        cells: Map::new(
            |p: (int, int)| read.in_bounds(p.0, p.1),
            |p: (int, int)|
                if read.dirty[(p.0 / region(), p.1 / region())] {
                    Cell::Air
                } else {
                    read.cells[p]
                },
        ),
        dirty: Map::new(|b: (int, int)| read.has_block(b.0, b.1), |b: (int, int)| false),
    }
}

/// The number of cells of a grid with `size` blocks along each side.
pub open spec fn cell_count(size: int) -> int {
    size * size * region_cells()
}

/// The position that comes `k`-th in evaluation order: block after block as
/// they are stored, and inside a block row by row, x fastest.
pub open spec fn order_pos(size: int, k: int) -> (int, int) {
    let b = k / region_cells();
    let l = k % region_cells();
    ((b % size) * region() + l % region(), (b / size) * region() + l / region())
}

/// The place of `(x, y)` in evaluation order.
pub open spec fn order_index(size: int, x: int, y: int) -> int {
    slot(size, x / region(), y / region()) * region_cells() + offset(x, y)
}

/// The flips for the `k`-th position; a tick that is given too few goes on
/// with `no_flips()`.
pub open spec fn flips_at(flips: Seq<Flips>, k: int) -> Flips {
    if 0 <= k < flips.len() {
        flips[k]
    } else {
        no_flips()
    }
}

/// The write grid after the first `n` positions in evaluation order have
/// had their turn.  A position in a clean block of the read grid is passed
/// over; one in a dirty block has the rule of its cell evaluated, reading
/// the read grid and storing into the write grid.
pub open spec fn steps(read: Grid, write: Grid, flips: Seq<Flips>, n: nat) -> Grid
    decreases n,
{
    if n == 0 {
        write
    } else {
        let k = n - 1;
        let before = steps(read, write, flips, k as nat);
        let (x, y) = order_pos(read.size, k);
        if read.is_dirty(x / region(), y / region()) {
            rule(read, before, read.cell(x, y), x, y, flips_at(flips, k))
        } else {
            before
        }
    }
}

/// One tick: the grid that follows `read` when the `k`-th position in
/// evaluation order is given the flips `flips_at(flips, k)`.
pub open spec fn tick(read: Grid, flips: Seq<Flips>) -> Grid {
    steps(read, prepared(read), flips, cell_count(read.size) as nat)
}

/// What a spawner is, mathematically: whether it is enabled, its anchor,
/// the offsets from the anchor at which it stamps, and the material.
pub struct Spawn {
    pub enabled: bool,
    pub x: int,
    pub y: int,
    pub deltas: Seq<(i32, i32)>,
    pub cell: Cell,
}

/// The offsets of the radial pattern: a ring of every second cell, nine
/// cells across.  It is the lattice of five by five offsets without its
/// four corners and without its centre, `(4, 4)`: twenty offsets, no two
/// alike.
pub open spec fn radial_pattern() -> Seq<(i32, i32)> {
    seq![
        (2i32, 0i32),
        (4i32, 0i32),
        (6i32, 0i32),
        (0i32, 2i32),
        (2i32, 2i32),
        (4i32, 2i32),
        (6i32, 2i32),
        (8i32, 2i32),
        (0i32, 4i32),
        (2i32, 4i32),
        (6i32, 4i32),
        (8i32, 4i32),
        (0i32, 6i32),
        (2i32, 6i32),
        (4i32, 6i32),
        (6i32, 6i32),
        (8i32, 6i32),
        (2i32, 8i32),
        (4i32, 8i32),
        (6i32, 8i32),
    ]
}

/// The radial pattern has twenty offsets, and no two of them are alike.
pub proof fn lemma_radial_pattern()
    ensures
        radial_pattern().len() == 20,
        forall|i: int, j: int|
            0 <= i < j < 20 ==> #[trigger] radial_pattern()[i] != #[trigger] radial_pattern()[j],
{
    let p = radial_pattern();
    assert(p[0] == (2i32, 0i32) && p[1] == (4i32, 0i32) && p[2] == (6i32, 0i32) && p[3] == (0i32, 2i32));
    assert(p[4] == (2i32, 2i32) && p[5] == (4i32, 2i32) && p[6] == (6i32, 2i32) && p[7] == (8i32, 2i32));
    assert(p[8] == (0i32, 4i32) && p[9] == (2i32, 4i32) && p[10] == (6i32, 4i32) && p[11] == (8i32, 4i32));
    assert(p[12] == (0i32, 6i32) && p[13] == (2i32, 6i32) && p[14] == (4i32, 6i32) && p[15] == (6i32, 6i32));
    assert(p[16] == (8i32, 6i32) && p[17] == (2i32, 8i32) && p[18] == (4i32, 8i32) && p[19] == (6i32, 8i32));
}

/// Whether `(px, py)` is the anchor `(x, y)` moved by one of the offsets.
pub open spec fn stamp_hits(x: int, y: int, deltas: Seq<(i32, i32)>, px: int, py: int) -> bool {
    exists|i: int| 0 <= i < deltas.len() && x + (#[trigger] deltas[i]).0 == px && y + deltas[i].1 == py
}

/// Whether one of the offsets leads from the anchor to a cell of `g` that
/// lies in block `(bx, by)`.
pub open spec fn stamp_marks(g: Grid, x: int, y: int, deltas: Seq<(i32, i32)>, bx: int, by: int) -> bool {
    exists|i: int|
        0 <= i < deltas.len() && g.in_bounds(x + (#[trigger] deltas[i]).0, y + deltas[i].1) && (x
            + deltas[i].0) / region() == bx && (y + deltas[i].1) / region() == by
}

/// The grid after `cell` has been stamped at every offset from the anchor:
/// exactly the cells hit hold `cell`, exactly the blocks they lie in have
/// become dirty, and everything else is as it was.
pub open spec fn stamped(g: Grid, cell: Cell, x: int, y: int, deltas: Seq<(i32, i32)>) -> Grid {
    Grid {
        size: g.size,
        cells: Map::new(
            |p: (int, int)| g.in_bounds(p.0, p.1),
            |p: (int, int)|
                if stamp_hits(x, y, deltas, p.0, p.1) {
                    cell
                } else {
                    g.cells[p]
                },
        ),
        dirty: Map::new(
            |b: (int, int)| g.has_block(b.0, b.1),
            |b: (int, int)| g.dirty[b] || stamp_marks(g, x, y, deltas, b.0, b.1),
        ),
    }
}

/// Stamping one offset more is one more store.
pub proof fn lemma_stamped_step(g: Grid, cell: Cell, x: int, y: int, deltas: Seq<(i32, i32)>, n: int)
    requires
        g.wf(),
        0 <= n < deltas.len(),
    ensures
        stamped(g, cell, x, y, deltas.take(n + 1)) == stamped(g, cell, x, y, deltas.take(n)).write(
            cell,
            x + deltas[n].0,
            y + deltas[n].1,
            true,
        ),
{
    let short = deltas.take(n);
    let long = deltas.take(n + 1);
    let tx = x + deltas[n].0;
    let ty = y + deltas[n].1;
    let a = stamped(g, cell, x, y, long);
    let b = stamped(g, cell, x, y, short).write(cell, tx, ty, true);
    assert forall|p: (int, int)| g.in_bounds(p.0, p.1) implies stamp_hits(x, y, long, p.0, p.1) == (stamp_hits(
        x,
        y,
        short,
        p.0,
        p.1,
    ) || p == (tx, ty)) by {
        if stamp_hits(x, y, short, p.0, p.1) {
            let i = choose|i: int| 0 <= i < short.len() && x + (#[trigger] short[i]).0 == p.0 && y + short[i].1 == p.1;
            assert(long[i] == short[i]);
        }
        if p == (tx, ty) {
            assert(long[n] == deltas[n]);
        }
        if stamp_hits(x, y, long, p.0, p.1) {
            let i = choose|i: int| 0 <= i < long.len() && x + (#[trigger] long[i]).0 == p.0 && y + long[i].1 == p.1;
            if i < n {
                assert(short[i] == long[i]);
            }
        }
    }
    assert forall|q: (int, int)| g.has_block(q.0, q.1) implies stamp_marks(g, x, y, long, q.0, q.1) == (stamp_marks(
        g,
        x,
        y,
        short,
        q.0,
        q.1,
    ) || (g.in_bounds(tx, ty) && q == (tx / region(), ty / region()))) by {
        if stamp_marks(g, x, y, short, q.0, q.1) {
            let i = choose|i: int|
                0 <= i < short.len() && g.in_bounds(x + (#[trigger] short[i]).0, y + short[i].1) && (x
                    + short[i].0) / region() == q.0 && (y + short[i].1) / region() == q.1;
            assert(long[i] == short[i]);
        }
        if g.in_bounds(tx, ty) && q == (tx / region(), ty / region()) {
            assert(long[n] == deltas[n]);
        }
        if stamp_marks(g, x, y, long, q.0, q.1) {
            let i = choose|i: int|
                0 <= i < long.len() && g.in_bounds(x + (#[trigger] long[i]).0, y + long[i].1) && (x
                    + long[i].0) / region() == q.0 && (y + long[i].1) / region() == q.1;
            if i < n {
                assert(short[i] == long[i]);
            }
        }
    }
    assert(a.cells =~= b.cells);
    assert(a.dirty =~= b.dirty);
}

/// Stamping no offset changes nothing.
pub proof fn lemma_stamped_none(g: Grid, cell: Cell, x: int, y: int, deltas: Seq<(i32, i32)>)
    requires
        g.wf(),
        deltas.len() == 0,
    ensures
        stamped(g, cell, x, y, deltas) == g,
{
    let none = stamped(g, cell, x, y, deltas);
    assert(none.cells =~= g.cells);
    assert(none.dirty =~= g.dirty);
}

/// The `l`-th cell of block `(bx, by)` comes at place
/// `slot(size, bx, by) * 64 + l` in evaluation order.
pub proof fn lemma_order_pos(size: int, bx: int, by: int, l: int)
    requires
        0 <= bx < size,
        0 <= by < size,
        0 <= l < region_cells(),
    ensures
        order_pos(size, slot(size, bx, by) * region_cells() + l) == (
            bx * region() + l % region(),
            by * region() + l / region(),
        ),
{
    let b = slot(size, bx, by);
    let k = b * region_cells() + l;
    assert(k / region_cells() == b && k % region_cells() == l) by {
        lemma_fundamental_div_mod_converse(k, region_cells(), b, l);
    }
    lemma_fundamental_div_mod_converse(b, size, by, bx);
}

/// A tick looks only at the flips of the positions that have had their
/// turn: two sequences that agree there give the same grid.
pub proof fn lemma_steps_prefix(read: Grid, write: Grid, f1: Seq<Flips>, f2: Seq<Flips>, n: nat)
    requires
        forall|k: int| 0 <= k < n ==> flips_at(f1, k) == flips_at(f2, k),
    ensures
        steps(read, write, f1, n) == steps(read, write, f2, n),
    decreases n,
{
    if n > 0 {
        lemma_steps_prefix(read, write, f1, f2, (n - 1) as nat);
    }
}

/// The positions of a clean block are passed over.
pub proof fn lemma_steps_clean(read: Grid, write: Grid, flips: Seq<Flips>, bx: int, by: int, l: nat)
    requires
        read.has_block(bx, by),
        !read.is_dirty(bx, by),
        l <= region_cells(),
    ensures
        steps(read, write, flips, (slot(read.size, bx, by) * region_cells() + l) as nat) == steps(
            read,
            write,
            flips,
            (slot(read.size, bx, by) * region_cells()) as nat,
        ),
    decreases l,
{
    crate::grid::lemma_slot_bounds(read.size, bx, by);
    if l > 0 {
        let start = slot(read.size, bx, by) * region_cells();
        let k = start + l - 1;
        lemma_steps_clean(read, write, flips, bx, by, (l - 1) as nat);
        lemma_order_pos(read.size, bx, by, l - 1);
        let (x, y) = order_pos(read.size, k);
        assert(x / region() == bx && y / region() == by);
        assert(steps(read, write, flips, (k + 1) as nat) == steps(read, write, flips, k as nat));
    }
}

} // verus!
