use crate::cells::{Cell, Flips, IGNITION_HEAT};
use crate::grid::{lemma_slot_bounds, offset, region, slot, Grid};
use crate::rules::{
    cell_count, fall_write, fire_write, flips_at, lemma_order_pos, lemma_steps_prefix, nudged, order_index,
    order_pos, prepared, rule, rule_write, steps, tick, vacant, Write,
};
use vstd::arithmetic::div_mod::lemma_fundamental_div_mod;
use vstd::prelude::*;

verus! {

/// What a store leaves at `(x, y)` in a place that held air: its cell, if
/// it goes there, else air.
pub open spec fn left_behind(w: Option<Write>, x: int, y: int) -> Cell {
    match w {
        Some(w) => if w.x == x && w.y == y {
            w.cell
        } else {
            Cell::Air
        },
        None => Cell::Air,
    }
}

/// Whether `(ax, ay)` and `(bx, by)` are the same place or neighbors,
/// diagonals included.
pub open spec fn adjacent(ax: int, ay: int, bx: int, by: int) -> bool {
    ax - 1 <= bx <= ax + 1 && ay - 1 <= by <= ay + 1
}

/// The write grid of a tick just before `(x, y)` has its turn.
pub open spec fn at_turn(read: Grid, flips: Seq<Flips>, x: int, y: int) -> Grid {
    steps(read, prepared(read), flips, order_index(read.size, x, y) as nat)
}

/// The store that the cell at `(x, y)` decides at its turn in a tick.
pub open spec fn turn_write(read: Grid, flips: Seq<Flips>, x: int, y: int) -> Option<Write> {
    rule_write(
        read,
        at_turn(read, flips, x, y),
        read.cell(x, y),
        x,
        y,
        flips_at(flips, order_index(read.size, x, y)),
    )
}

/// A store changes the cell it goes to and, at most, the flag of the block
/// around it; the grid keeps its extent.
pub proof fn lemma_write(g: Grid, cell: Cell, x: int, y: int, mark: bool)
    requires
        g.wf(),
    ensures
        g.write(cell, x, y, mark).wf(),
        g.write(cell, x, y, mark).size == g.size,
        forall|px: int, py: int|
            g.in_bounds(px, py) ==> #[trigger] g.write(cell, x, y, mark).cell(px, py) == (if px == x && py == y {
                cell
            } else {
                g.cell(px, py)
            }),
        forall|bx: int, by: int|
            g.has_block(bx, by) ==> #[trigger] g.write(cell, x, y, mark).is_dirty(bx, by) == (g.is_dirty(bx, by)
                || (mark && g.in_bounds(x, y) && bx == x / region() && by == y / region())),
{
    let a = g.write(cell, x, y, mark);
    if g.in_bounds(x, y) {
        assert(g.has_block(x / region(), y / region()));
        assert forall|px: int, py: int| #[trigger] a.cells.dom().contains((px, py)) <==> a.in_bounds(px, py) by {
            assert(g.cells.dom().contains((px, py)) <==> g.in_bounds(px, py));
        }
        assert forall|bx: int, by: int| #[trigger] a.dirty.dom().contains((bx, by)) <==> a.has_block(bx, by) by {
            assert(g.dirty.dom().contains((bx, by)) <==> g.has_block(bx, by));
        }
    }
}

/// A rule's decision changes the cell it stores at and, at most, the flags
/// of the block stored into and of the block woken; the grid keeps its
/// extent.
pub proof fn lemma_apply(g: Grid, w: Write)
    requires
        g.wf(),
    ensures
        g.apply(w).wf(),
        g.apply(w).size == g.size,
        forall|px: int, py: int|
            g.in_bounds(px, py) ==> #[trigger] g.apply(w).cell(px, py) == (if px == w.x && py == w.y {
                w.cell
            } else {
                g.cell(px, py)
            }),
        forall|bx: int, by: int|
            g.has_block(bx, by) ==> #[trigger] g.apply(w).is_dirty(bx, by) == (g.is_dirty(bx, by) || (w.mark
                && g.in_bounds(w.x, w.y) && bx == w.x / region() && by == w.y / region()) || (w.wake matches Some(
                at,
            ) && g.in_bounds(at.0, at.1) && bx == at.0 / region() && by == at.1 / region())),
{
    let stored = g.write(w.cell, w.x, w.y, w.mark);
    lemma_write(g, w.cell, w.x, w.y, w.mark);
    match w.wake {
        Some(at) => {
            let a = stored.mark(at.0, at.1);
            if stored.in_bounds(at.0, at.1) {
                assert(stored.has_block(at.0 / region(), at.1 / region()));
                assert forall|px: int, py: int| #[trigger]
                    a.cells.dom().contains((px, py)) <==> a.in_bounds(px, py) by {
                    assert(stored.cells.dom().contains((px, py)) <==> stored.in_bounds(px, py));
                }
                assert forall|bx: int, by: int| #[trigger]
                    a.dirty.dom().contains((bx, by)) <==> a.has_block(bx, by) by {
                    assert(stored.dirty.dom().contains((bx, by)) <==> stored.has_block(bx, by));
                }
                assert forall|px: int, py: int| g.in_bounds(px, py) implies #[trigger] a.cell(px, py)
                    == stored.cell(px, py) by {}
                assert forall|bx: int, by: int| g.has_block(bx, by) implies #[trigger] a.is_dirty(bx, by) == (
                stored.is_dirty(bx, by) || (bx == at.0 / region() && by == at.1 / region())) by {}
            }
        },
        None => {},
    }
}

/// A rule stores at its own place, or it moves: then it stores next to its
/// place, where the read grid holds air, and marks the block stored into.
/// Only a rule that moves wakes a block.
pub proof fn lemma_rule_target(read: Grid, write: Grid, cell: Cell, x: int, y: int, f: Flips)
    ensures
        rule_write(read, write, cell, x, y, f) matches Some(w) ==> {
            ||| w.x == x && w.y == y
            ||| read.is_empty(w.x, w.y) && w.mark && adjacent(x, y, w.x, w.y)
        },
        rule_write(read, write, cell, x, y, f) matches Some(w) ==> (w.wake is Some ==> w.mark),
        cell == Cell::Air <==> rule_write(read, write, cell, x, y, f) is None,
{
}

/// A rule evaluation keeps the grid well-formed and of the same extent, and
/// never clears a dirty flag.
pub proof fn lemma_rule_keeps(read: Grid, write: Grid, cell: Cell, x: int, y: int, f: Flips)
    requires
        write.wf(),
    ensures
        rule(read, write, cell, x, y, f).wf(),
        rule(read, write, cell, x, y, f).size == write.size,
        forall|bx: int, by: int|
            write.has_block(bx, by) && write.is_dirty(bx, by) ==> #[trigger] rule(
                read,
                write,
                cell,
                x,
                y,
                f,
            ).is_dirty(bx, by),
{
    match rule_write(read, write, cell, x, y, f) {
        Some(w) => {
            lemma_apply(write, w);
        },
        None => {},
    }
}

/// The prepared write grid is well-formed and has the extent of the read
/// grid.
pub proof fn lemma_prepared(read: Grid)
    requires
        read.wf(),
    ensures
        prepared(read).wf(),
        prepared(read).size == read.size,
{
}

/// Evaluating rules keeps the grid well-formed and of the same extent.
pub proof fn lemma_steps_keep(read: Grid, write: Grid, flips: Seq<Flips>, n: nat)
    requires
        write.wf(),
    ensures
        steps(read, write, flips, n).wf(),
        steps(read, write, flips, n).size == write.size,
    decreases n,
{
    if n > 0 {
        let k = n - 1;
        let before = steps(read, write, flips, k as nat);
        lemma_steps_keep(read, write, flips, k as nat);
        let (x, y) = order_pos(read.size, k);
        lemma_rule_keeps(read, before, read.cell(x, y), x, y, flips_at(flips, k));
    }
}

/// A block that is dirty at some point of a tick is dirty from then on.
pub proof fn lemma_steps_dirty_stays(read: Grid, write: Grid, flips: Seq<Flips>, m: nat, n: nat, bx: int, by: int)
    requires
        write.wf(),
        write.has_block(bx, by),
        m <= n,
        steps(read, write, flips, m).is_dirty(bx, by),
    ensures
        steps(read, write, flips, n).is_dirty(bx, by),
    decreases n,
{
    if m < n {
        let k = n - 1;
        let before = steps(read, write, flips, k as nat);
        lemma_steps_dirty_stays(read, write, flips, m, k as nat, bx, by);
        lemma_steps_keep(read, write, flips, k as nat);
        let (x, y) = order_pos(read.size, k);
        lemma_rule_keeps(read, before, read.cell(x, y), x, y, flips_at(flips, k));
    }
}

/// Every place inside the grid has its turn, and exactly there.
pub proof fn lemma_order_of_place(size: int, x: int, y: int)
    requires
        0 <= x < size * region(),
        0 <= y < size * region(),
    ensures
        0 <= order_index(size, x, y) < cell_count(size),
        order_pos(size, order_index(size, x, y)) == (x, y),
{
    lemma_slot_bounds(size, x / region(), y / region());
    lemma_order_pos(size, x / region(), y / region(), offset(x, y));
    assert(slot(size, x / region(), y / region()) * 64 + offset(x, y) < size * size * 8 * 8) by (nonlinear_arith)
        requires
            0 <= slot(size, x / region(), y / region()) < size * size,
            0 <= offset(x, y) < 64,
    ;
}

/// Every turn belongs to a place inside the grid, and to no other.
pub proof fn lemma_place_of_order(size: int, k: int)
    requires
        0 <= size,
        0 <= k < cell_count(size),
    ensures
        0 <= order_pos(size, k).0 < size * region(),
        0 <= order_pos(size, k).1 < size * region(),
        order_index(size, order_pos(size, k).0, order_pos(size, k).1) == k,
{
    let b = k / 64;
    let l = k % 64;
    assert(0 <= b < size * size) by (nonlinear_arith)
        requires
            0 <= k < size * size * 8 * 8,
            b == k / 64,
    ;
    assert(size > 0) by (nonlinear_arith)
        requires
            0 <= size,
            0 < size * size,
    ;
    let bx = b % size;
    let by = b / size;
    lemma_fundamental_div_mod(b, size);
    assert(0 <= by < size) by (nonlinear_arith)
        requires
            0 <= b < size * size,
            b == size * by + bx,
            0 <= bx < size,
    ;
    assert(size * by == by * size) by (nonlinear_arith);
    assert(slot(size, bx, by) == b);
}

/// What a place that held something holds after the first `n` turns of a
/// tick.  In a clean block the cell is kept.  In a dirty block only the
/// cell's own rule stores there: the place holds air until its turn, and
/// from then on what that rule stores at it, or air if the rule stores
/// elsewhere.
pub proof fn lemma_steps_place(read: Grid, flips: Seq<Flips>, n: nat, x: int, y: int)
    requires
        read.wf(),
        read.in_bounds(x, y),
        read.cell(x, y) != Cell::Air,
        n <= cell_count(read.size),
    ensures
        steps(read, prepared(read), flips, n).cell(x, y) == (if !read.is_dirty(x / region(), y / region()) {
            read.cell(x, y)
        } else if n <= order_index(read.size, x, y) {
            Cell::Air
        } else {
            left_behind(turn_write(read, flips, x, y), x, y)
        }),
    decreases n,
{
    lemma_prepared(read);
    if n > 0 {
        let k = n - 1;
        let before = steps(read, prepared(read), flips, k as nat);
        lemma_steps_place(read, flips, k as nat, x, y);
        lemma_steps_keep(read, prepared(read), flips, k as nat);
        lemma_place_of_order(read.size, k);
        lemma_order_of_place(read.size, x, y);
        let (qx, qy) = order_pos(read.size, k);
        let cell = read.cell(qx, qy);
        let f = flips_at(flips, k);
        lemma_rule_target(read, before, cell, qx, qy, f);
        if read.is_dirty(qx / region(), qy / region()) {
            match rule_write(read, before, cell, qx, qy, f) {
                Some(w) => {
                    lemma_apply(before, w);
                },
                None => {},
            }
        }
    }
}

/// A tick gives a well-formed grid of the extent of the read grid.
pub proof fn lemma_tick_keeps_extent(read: Grid, flips: Seq<Flips>)
    requires
        read.wf(),
    ensures
        tick(read, flips).wf(),
        tick(read, flips).size == read.size,
{
    lemma_prepared(read);
    lemma_steps_keep(read, prepared(read), flips, cell_count(read.size) as nat);
}

/// Determinism: the same read grid and the same flips give the same grid.
/// It is enough that the flips agree at every position of the grid.
pub proof fn lemma_tick_deterministic(read_a: Grid, flips_a: Seq<Flips>, read_b: Grid, flips_b: Seq<Flips>)
    requires
        read_a == read_b,
        forall|k: int| 0 <= k < cell_count(read_a.size) ==> flips_at(flips_a, k) == flips_at(flips_b, k),
    ensures
        tick(read_a, flips_a) == tick(read_b, flips_b),
{
    assert(0 <= cell_count(read_a.size)) by (nonlinear_arith);
    lemma_steps_prefix(
        read_a,
        prepared(read_a),
        flips_a,
        flips_b,
        cell_count(read_a.size) as nat,
    );
}

/// What a tick leaves at a place that held something.  In a clean block the
/// cell is kept.  In a dirty block the place holds what the cell's own rule
/// stores at it, and air if that rule stores elsewhere: no other rule
/// stores there.
pub proof fn lemma_tick_place(read: Grid, flips: Seq<Flips>, x: int, y: int)
    requires
        read.wf(),
        read.in_bounds(x, y),
        read.cell(x, y) != Cell::Air,
    ensures
        tick(read, flips).cell(x, y) == (if read.is_dirty(x / region(), y / region()) {
            left_behind(turn_write(read, flips, x, y), x, y)
        } else {
            read.cell(x, y)
        }),
{
    lemma_order_of_place(read.size, x, y);
    lemma_steps_place(read, flips, cell_count(read.size) as nat, x, y);
}

/// A store that marks makes its block dirty for the rest of the tick, and
/// so does a waking: if the cell at `(x, y)` stores with a mark at its
/// turn, the block stored into is dirty when the tick ends; if it wakes a
/// cell of the grid, the block of that cell is.
pub proof fn lemma_tick_marks(read: Grid, flips: Seq<Flips>, x: int, y: int)
    requires
        read.wf(),
        read.in_bounds(x, y),
        read.is_dirty(x / region(), y / region()),
    ensures
        turn_write(read, flips, x, y) matches Some(w) ==> (w.mark && read.in_bounds(w.x, w.y) ==> tick(
            read,
            flips,
        ).is_dirty(w.x / region(), w.y / region())),
        turn_write(read, flips, x, y) matches Some(w) ==> (w.wake matches Some(at) ==> (read.in_bounds(
            at.0,
            at.1,
        ) ==> tick(read, flips).is_dirty(at.0 / region(), at.1 / region()))),
{
    let k = order_index(read.size, x, y);
    let before = at_turn(read, flips, x, y);
    lemma_prepared(read);
    lemma_order_of_place(read.size, x, y);
    lemma_steps_keep(read, prepared(read), flips, k as nat);
    match turn_write(read, flips, x, y) {
        Some(w) => {
            lemma_apply(before, w);
            assert(steps(read, prepared(read), flips, (k + 1) as nat) == before.apply(w));
            if w.mark && read.in_bounds(w.x, w.y) {
                lemma_steps_dirty_stays(
                    read,
                    prepared(read),
                    flips,
                    (k + 1) as nat,
                    cell_count(read.size) as nat,
                    w.x / region(),
                    w.y / region(),
                );
            }
            match w.wake {
                Some(at) => {
                    if read.in_bounds(at.0, at.1) {
                        lemma_steps_dirty_stays(
                            read,
                            prepared(read),
                            flips,
                            (k + 1) as nat,
                            cell_count(read.size) as nat,
                            at.0 / region(),
                            at.1 / region(),
                        );
                    }
                },
                None => {},
            }
        },
        None => {},
    }
}

/// The block that a falling cell left.  If the sand at `(x, y)`, in a dirty
/// block, falls at its turn, its block is dirty when the tick ends, and so
/// evaluated in the next tick, wherever the place it fell to or the cell it
/// woke lies in that block.  The cell woken is the one a row up and a
/// column to the side that the coin did not pick, so the block is left
/// clean only by a cell that falls out of it from a place where that cell
/// is outside the block.
pub proof fn lemma_tick_left_block(read: Grid, flips: Seq<Flips>, x: int, y: int)
    requires
        read.wf(),
        read.in_bounds(x, y),
        read.cell(x, y) == Cell::Sand,
        read.is_dirty(x / region(), y / region()),
        turn_write(read, flips, x, y) matches Some(w) && w.mark,
    ensures
        ({
            let w = turn_write(read, flips, x, y)->0;
            let away = if flips_at(flips, order_index(read.size, x, y)).tie {
                x - 1
            } else {
                x + 1
            };
            &&& w.wake == Some((away, y - 1))
            &&& (w.x / region() == x / region() && w.y / region() == y / region()) || (read.in_bounds(away, y - 1)
                && away / region() == x / region() && (y - 1) / region() == y / region()) ==> tick(
                read,
                flips,
            ).is_dirty(x / region(), y / region())
        }),
{
    lemma_tick_marks(read, flips, x, y);
    let k = order_index(read.size, x, y);
    let before = at_turn(read, flips, x, y);
    lemma_prepared(read);
    lemma_order_of_place(read.size, x, y);
    lemma_steps_keep(read, prepared(read), flips, k as nat);
    lemma_fall_one_place(read, before, Cell::Sand, x, y, flips_at(flips, k).tie);
}

/// Dirty propagation across blocks: if the rule of the cell at `(x, y)`,
/// in a dirty block, stores into another block, that block is dirty when
/// the tick ends, so the next tick evaluates it.
pub proof fn lemma_foreign_store_marks_dirty(read: Grid, flips: Seq<Flips>, x: int, y: int)
    requires
        read.wf(),
        read.in_bounds(x, y),
        read.is_dirty(x / region(), y / region()),
    ensures
        turn_write(read, flips, x, y) matches Some(w) ==> (read.in_bounds(w.x, w.y) && (w.x / region() != x
            / region() || w.y / region() != y / region()) ==> tick(read, flips).is_dirty(
            w.x / region(),
            w.y / region(),
        )),
{
    lemma_tick_marks(read, flips, x, y);
    lemma_rule_target(
        read,
        at_turn(read, flips, x, y),
        read.cell(x, y),
        x,
        y,
        flips_at(flips, order_index(read.size, x, y)),
    );
}

/// A rule reads the write grid only to see whether a place it could move
/// to is taken: on two write grids that agree, for the three places below
/// `(x, y)`, on whether they are free, it decides the same store.
pub proof fn lemma_rule_reads_write_for_taken_only(
    read: Grid,
    write_a: Grid,
    write_b: Grid,
    cell: Cell,
    x: int,
    y: int,
    f: Flips,
)
    requires
        write_a.is_empty(x - 1, y + 1) == write_b.is_empty(x - 1, y + 1),
        write_a.is_empty(x, y + 1) == write_b.is_empty(x, y + 1),
        write_a.is_empty(x + 1, y + 1) == write_b.is_empty(x + 1, y + 1),
    ensures
        rule_write(read, write_a, cell, x, y, f) == rule_write(read, write_b, cell, x, y, f),
{
}

/// Air stays air unless something can move in: a place that is air in the
/// read grid, with no sand and no fire in a dirty block next to it, is air
/// at every point of the tick.
pub proof fn lemma_steps_air_stays(read: Grid, flips: Seq<Flips>, n: nat, x: int, y: int)
    requires
        read.wf(),
        read.is_empty(x, y),
        n <= cell_count(read.size),
        forall|qx: int, qy: int|
            read.in_bounds(qx, qy) && adjacent(x, y, qx, qy) && read.is_dirty(qx / region(), qy / region())
                ==> !(#[trigger] read.cell(qx, qy) is Sand) && !(read.cell(qx, qy) is Fire),
    ensures
        steps(read, prepared(read), flips, n).cell(x, y) == Cell::Air,
    decreases n,
{
    lemma_prepared(read);
    if n > 0 {
        let k = n - 1;
        let before = steps(read, prepared(read), flips, k as nat);
        lemma_steps_air_stays(read, flips, k as nat, x, y);
        lemma_steps_keep(read, prepared(read), flips, k as nat);
        lemma_place_of_order(read.size, k);
        let (qx, qy) = order_pos(read.size, k);
        let cell = read.cell(qx, qy);
        let f = flips_at(flips, k);
        lemma_rule_target(read, before, cell, qx, qy, f);
        if read.is_dirty(qx / region(), qy / region()) {
            match rule_write(read, before, cell, qx, qy, f) {
                Some(w) => {
                    lemma_apply(before, w);
                    if w.x == x && w.y == y {
                        assert(adjacent(x, y, qx, qy));
                        assert(cell is Sand || cell is Fire);
                    }
                },
                None => {},
            }
        }
    }
}

/// Air stays air through a tick unless something can move in: see
/// `lemma_steps_air_stays`.
pub proof fn lemma_tick_air_stays(read: Grid, flips: Seq<Flips>, x: int, y: int)
    requires
        read.wf(),
        read.is_empty(x, y),
        forall|qx: int, qy: int|
            read.in_bounds(qx, qy) && adjacent(x, y, qx, qy) && read.is_dirty(qx / region(), qy / region())
                ==> !(#[trigger] read.cell(qx, qy) is Sand) && !(read.cell(qx, qy) is Fire),
    ensures
        tick(read, flips).cell(x, y) == Cell::Air,
{
    assert(0 <= cell_count(read.size)) by (nonlinear_arith);
    lemma_steps_air_stays(read, flips, cell_count(read.size) as nat, x, y);
}

/// Gravity stores the cell at exactly one place.  Every other cell of the
/// write grid is as before.  If the cell moves, it moves one row down, at
/// most one column aside, to a place that was air in both grids.
pub proof fn lemma_fall_one_place(read: Grid, write: Grid, cell: Cell, x: int, y: int, right: bool)
    requires
        write.wf(),
    ensures
        ({
            let w = fall_write(read, write, cell, x, y, right);
            let after = write.apply(w);
            &&& w.cell == cell
            &&& write.in_bounds(w.x, w.y) ==> after.cell(w.x, w.y) == cell
            &&& forall|px: int, py: int|
                write.in_bounds(px, py) && !(px == w.x && py == w.y) ==> #[trigger] after.cell(px, py)
                    == write.cell(px, py)
            &&& w.mark <==> !(w.x == x && w.y == y)
            &&& w.mark ==> w.y == y + 1 && x - 1 <= w.x <= x + 1 && vacant(read, write, w.x, w.y)
            &&& !w.mark ==> !vacant(read, write, x, y + 1)
        }),
{
    let w = fall_write(read, write, cell, x, y, right);
    lemma_apply(write, w);
}

/// A cell that is boxed in rests: with nothing free below it, straight or
/// diagonal, gravity stores it where it is, whatever the coin says, and
/// marks no block.
pub proof fn lemma_boxed_in_rests(read: Grid, write: Grid, cell: Cell, x: int, y: int, right: bool)
    requires
        write.wf(),
        !read.is_empty(x, y + 1),
        !read.is_empty(x - 1, y + 1),
        !read.is_empty(x + 1, y + 1),
    ensures
        fall_write(read, write, cell, x, y, right) == (Write { x, y, cell, mark: false, wake: None }),
        forall|bx: int, by: int|
            write.has_block(bx, by) ==> #[trigger] write.apply(
                fall_write(read, write, cell, x, y, right),
            ).is_dirty(bx, by) == write.is_dirty(bx, by),
{
    lemma_write(write, cell, x, y, false);
}

/// Boxed-in sand is still sand at its place after the tick, whatever the
/// flips and whether or not its block was evaluated.
pub proof fn lemma_tick_boxed_sand_stays(read: Grid, flips: Seq<Flips>, x: int, y: int)
    requires
        read.wf(),
        read.in_bounds(x, y),
        read.cell(x, y) == Cell::Sand,
        !read.is_empty(x, y + 1),
        !read.is_empty(x - 1, y + 1),
        !read.is_empty(x + 1, y + 1),
    ensures
        tick(read, flips).cell(x, y) == Cell::Sand,
{
    lemma_tick_place(read, flips, x, y);
}

/// A place that was air, has been filled during the tick and has no fire
/// next to it in the read grid keeps its cell to the end of the tick: no
/// later mover takes a place that is taken.
pub proof fn lemma_steps_settled(read: Grid, flips: Seq<Flips>, m: nat, n: nat, x: int, y: int)
    requires
        read.wf(),
        read.is_empty(x, y),
        m <= n <= cell_count(read.size),
        steps(read, prepared(read), flips, m).cell(x, y) != Cell::Air,
        forall|qx: int, qy: int|
            read.in_bounds(qx, qy) && adjacent(x, y, qx, qy) ==> !(#[trigger] read.cell(qx, qy) is Fire),
    ensures
        steps(read, prepared(read), flips, n).cell(x, y) == steps(read, prepared(read), flips, m).cell(x, y),
    decreases n,
{
    if m < n {
        let k = n - 1;
        let before = steps(read, prepared(read), flips, k as nat);
        lemma_steps_settled(read, flips, m, k as nat, x, y);
        lemma_prepared(read);
        lemma_steps_keep(read, prepared(read), flips, k as nat);
        lemma_place_of_order(read.size, k);
        let (qx, qy) = order_pos(read.size, k);
        let cell = read.cell(qx, qy);
        let f = flips_at(flips, k);
        lemma_rule_target(read, before, cell, qx, qy, f);
        if read.is_dirty(qx / region(), qy / region()) {
            match rule_write(read, before, cell, qx, qy, f) {
                Some(w) => {
                    lemma_apply(before, w);
                    if w.x == x && w.y == y {
                        assert(cell is Fire);
                        assert(adjacent(x, y, qx, qy));
                    }
                },
                None => {},
            }
        }
    }
}

/// Sand that moves is at one place after the tick.  If the sand at
/// `(x, y)`, in a dirty block, finds a place free at its turn, then after
/// the tick `(x, y)` holds air; and the place it moved to holds sand,
/// unless a fire next to that place could spread into it.
pub proof fn lemma_tick_sand_moves(read: Grid, flips: Seq<Flips>, x: int, y: int)
    requires
        read.wf(),
        read.in_bounds(x, y),
        read.cell(x, y) == Cell::Sand,
        read.is_dirty(x / region(), y / region()),
        turn_write(read, flips, x, y) matches Some(w) && w.mark,
    ensures
        tick(read, flips).cell(x, y) == Cell::Air,
        turn_write(read, flips, x, y) matches Some(w) && ((forall|qx: int, qy: int|
            read.in_bounds(qx, qy) && adjacent(w.x, w.y, qx, qy) ==> !(#[trigger] read.cell(qx, qy) is Fire))
            ==> tick(read, flips).cell(w.x, w.y) == Cell::Sand),
{
    let k = order_index(read.size, x, y);
    let end = cell_count(read.size);
    let before = at_turn(read, flips, x, y);
    let w = turn_write(read, flips, x, y)->0;
    lemma_prepared(read);
    lemma_order_of_place(read.size, x, y);
    lemma_steps_keep(read, prepared(read), flips, k as nat);
    lemma_tick_place(read, flips, x, y);
    lemma_fall_one_place(read, before, Cell::Sand, x, y, flips_at(flips, k).tie);
    if forall|qx: int, qy: int|
        read.in_bounds(qx, qy) && adjacent(w.x, w.y, qx, qy) ==> !(#[trigger] read.cell(qx, qy) is Fire) {
        let after = steps(read, prepared(read), flips, (k + 1) as nat);
        assert(after == before.apply(w));
        assert(after.cell(w.x, w.y) == Cell::Sand);
        lemma_steps_settled(read, flips, (k + 1) as nat, end as nat, w.x, w.y);
    }
}

/// Sand that finds no place free rests: if the sand at `(x, y)`, in a dirty
/// block, does not move at its turn, `(x, y)` holds sand after the tick.
pub proof fn lemma_tick_sand_rests(read: Grid, flips: Seq<Flips>, x: int, y: int)
    requires
        read.wf(),
        read.in_bounds(x, y),
        read.cell(x, y) == Cell::Sand,
        read.is_dirty(x / region(), y / region()),
        turn_write(read, flips, x, y) matches Some(w) && !w.mark,
    ensures
        tick(read, flips).cell(x, y) == Cell::Sand,
{
    lemma_tick_place(read, flips, x, y);
}

/// Fire spreads by moving.  A fire with heat left whose chosen neighbor is
/// air stores one fire, at that neighbor, with 1 or 2 less heat, and leaves
/// every other cell of the write grid, its own place included, as it was.
pub proof fn lemma_fire_moves(read: Grid, write: Grid, heat: i32, x: int, y: int, f: Flips)
    requires
        write.wf(),
        heat > 0,
        read.in_bounds(x, y),
        read.cell(x, y) == (Cell::Fire { heat }),
        read.is_empty(nudged(x, y, f).0, nudged(x, y, f).1),
    ensures
        ({
            let w = fire_write(read, heat, x, y, f);
            let after = write.apply(w);
            &&& (w.x, w.y) == nudged(x, y, f)
            &&& !(w.x == x && w.y == y)
            &&& w.cell == (Cell::Fire { heat: (heat - 1) as i32 }) || w.cell == (Cell::Fire {
                heat: (heat - 2) as i32,
            })
            &&& w.mark
            &&& write.in_bounds(w.x, w.y) ==> after.cell(w.x, w.y) == w.cell
            &&& forall|px: int, py: int|
                write.in_bounds(px, py) && !(px == w.x && py == w.y) ==> #[trigger] after.cell(px, py)
                    == write.cell(px, py)
        }),
{
    let w = fire_write(read, heat, x, y, f);
    lemma_apply(write, w);
}

/// A fire that moves leaves air: if the fire at `(x, y)`, in a dirty block,
/// has heat left and its chosen neighbor is air, `(x, y)` holds air after
/// the tick.
pub proof fn lemma_tick_fire_leaves(read: Grid, flips: Seq<Flips>, heat: i32, x: int, y: int)
    requires
        read.wf(),
        read.in_bounds(x, y),
        read.cell(x, y) == (Cell::Fire { heat }),
        read.is_dirty(x / region(), y / region()),
        heat > 0,
        ({
            let n = nudged(x, y, flips_at(flips, order_index(read.size, x, y)));
            read.is_empty(n.0, n.1)
        }),
    ensures
        tick(read, flips).cell(x, y) == Cell::Air,
{
    lemma_tick_place(read, flips, x, y);
}

/// A fire that cannot move cools: if the fire at `(x, y)`, in a dirty
/// block, has heat left and its chosen neighbor is not air, `(x, y)` holds
/// the fire with 1 less heat after the tick.
pub proof fn lemma_tick_fire_cools(read: Grid, flips: Seq<Flips>, heat: i32, x: int, y: int)
    requires
        read.wf(),
        read.in_bounds(x, y),
        read.cell(x, y) == (Cell::Fire { heat }),
        read.is_dirty(x / region(), y / region()),
        heat > 0,
        ({
            let n = nudged(x, y, flips_at(flips, order_index(read.size, x, y)));
            !read.is_empty(n.0, n.1)
        }),
    ensures
        tick(read, flips).cell(x, y) == (Cell::Fire { heat: (heat - 1) as i32 }),
        tick(read, flips).is_dirty(x / region(), y / region()),
{
    lemma_tick_place(read, flips, x, y);
    lemma_tick_marks(read, flips, x, y);
}

/// A fire without heat goes out: in a dirty block its place holds air
/// after the tick.
pub proof fn lemma_tick_fire_goes_out(read: Grid, flips: Seq<Flips>, heat: i32, x: int, y: int)
    requires
        read.wf(),
        read.in_bounds(x, y),
        read.cell(x, y) == (Cell::Fire { heat }),
        read.is_dirty(x / region(), y / region()),
        heat <= 0,
    ensures
        tick(read, flips).cell(x, y) == Cell::Air,
{
    lemma_tick_place(read, flips, x, y);
}

/// The last of a fire.  A fire of heat 1, in a dirty block, with no air at
/// its place or next to it, is a fire of heat 0 after one tick and air
/// after the next, whatever the flips.
pub proof fn lemma_hemmed_fire_dies(read: Grid, first: Seq<Flips>, second: Seq<Flips>, x: int, y: int)
    requires
        read.wf(),
        read.in_bounds(x, y),
        read.cell(x, y) == (Cell::Fire { heat: 1 }),
        read.is_dirty(x / region(), y / region()),
        forall|qx: int, qy: int| adjacent(x, y, qx, qy) ==> !#[trigger] read.is_empty(qx, qy),
    ensures
        tick(read, first).cell(x, y) == (Cell::Fire { heat: 0 }),
        tick(tick(read, first), second).cell(x, y) == Cell::Air,
{
    let n = nudged(x, y, flips_at(first, order_index(read.size, x, y)));
    assert(adjacent(x, y, n.0, n.1));
    lemma_tick_fire_cools(read, first, 1, x, y);
    lemma_tick_keeps_extent(read, first);
    lemma_tick_fire_goes_out(tick(read, first), second, 0, x, y);
}

/// Wood next to fire catches: if the wood at `(x, y)`, in a dirty block,
/// has fuel left and its chosen neighbor is fire, `(x, y)` holds a fire of
/// the ignition heat after the tick; with another neighbor the wood is
/// kept, fuel and all.
pub proof fn lemma_tick_wood(read: Grid, flips: Seq<Flips>, fuel: i32, x: int, y: int)
    requires
        read.wf(),
        read.in_bounds(x, y),
        read.cell(x, y) == (Cell::Wood { fuel }),
        read.is_dirty(x / region(), y / region()),
        fuel > 0,
    ensures
        ({
            let n = nudged(x, y, flips_at(flips, order_index(read.size, x, y)));
            tick(read, flips).cell(x, y) == (if read.in_bounds(n.0, n.1) && read.cell(n.0, n.1) is Fire {
                Cell::Fire { heat: IGNITION_HEAT }
            } else {
                Cell::Wood { fuel }
            })
        }),
{
    lemma_tick_place(read, flips, x, y);
}

} // verus!
