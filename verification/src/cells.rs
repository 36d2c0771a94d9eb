use crate::game::GameState;
use crate::rules::{
    consulted, fall_write, lemma_radial_pattern, lemma_stamped_none, lemma_stamped_step, no_flips, nudged,
    radial_pattern, rule, stamped, vacant, Spawn,
};
use vstd::prelude::*;

verus! {

/// The heat of a fire that has just caught.
pub const IGNITION_HEAT: i32 = 30;

/// The material held at one grid position.
#[derive(Copy, Clone, Debug, PartialEq, Eq, Hash, Structural)]
pub enum Cell {
    Air,
    Sand,
    Wood { fuel: i32 },
    Fire { heat: i32 },
}

/// The coin flips that one rule evaluation may consult.
///
/// `left`, `right`, `up` and `down` nudge a neighbor offset; `tie` picks the
/// diagonal a falling cell tries and the heat a spreading fire loses.
#[derive(Copy, Clone, Debug, PartialEq, Eq, Structural)]
pub struct Flips {
    pub left: bool,
    pub right: bool,
    pub up: bool,
    pub down: bool,
    pub tie: bool,
}

impl Flips {
    /// The flips that nudge nothing and pick the first alternative.
    pub fn none() -> (f: Flips)
        ensures
            f == no_flips(),
    {
        Flips { left: false, right: false, up: false, down: false, tie: false }
    }
}

/// Whether a cell that was told to fall has moved.
#[derive(Copy, Clone, Debug, PartialEq, Eq, Structural)]
pub enum GravityResult {
    OnGround,
    Falling,
}

/// One fair coin flip, from `rand::random`, which draws it from the
/// thread-local generator.  Nothing is claimed of the outcome: two calls may
/// differ.  The generator seeds itself from the operating system, on first
/// use in a thread and again after every 64 KiB it has given out or after a
/// fork, and gives up with a panic if that source fails.
#[verifier::external_body]
fn coin_flip() -> bool {
    rand::random()
}

/// Four coin flips for a neighbor offset; `tie` is left unset.
fn draw_dir() -> (f: Flips)
    ensures
        !f.tie,
{
    let left = coin_flip();
    let right = coin_flip();
    let up = coin_flip();
    let down = coin_flip();
    Flips { left, right, up, down, tie: false }
}

/// The neighbor of `(x, y)` that the four direction flips select.  Every
/// neighbor of `(x, y)` must be a coordinate that `i32` can name.
pub fn nudge(x: i32, y: i32, flips: Flips) -> (r: (i32, i32))
    requires
        i32::MIN < x < i32::MAX,
        i32::MIN < y < i32::MAX,
    ensures
        (r.0 as int, r.1 as int) == nudged(x as int, y as int, flips),
{
    let mut dx = x;
    let mut dy = y;
    if flips.left {
        dx = x - 1;
    }
    if flips.right {
        dx = dx + 1;
    }
    if flips.up {
        dy = y - 1;
    }
    if flips.down {
        dy = dy + 1;
    }
    (dx, dy)
}

/// A neighbor of `(x, y)` chosen by four coin flips.  Each of x and y is
/// moved by -1, 0 or +1, so the result may be `(x, y)` itself.  Every such
/// neighbor must be a coordinate that `i32` can name.
pub fn random_dir(x: i32, y: i32) -> (r: (i32, i32))
    requires
        i32::MIN < x < i32::MAX,
        i32::MIN < y < i32::MAX,
    ensures
        exists|f: Flips| (r.0 as int, r.1 as int) == nudged(x as int, y as int, f),
        x - 1 <= r.0 <= x + 1,
        y - 1 <= r.1 <= y + 1,
{
    let flips = draw_dir();
    nudge(x, y, flips)
}

/// The neighbor of `(x, y)` that the flips select, with the cell it holds
/// in `read`, if it lies inside that grid.
fn neighbor(read: &GameState, x: i32, y: i32, flips: Flips) -> (r: Option<(i32, i32, Cell)>)
    requires
        read.wf(),
    ensures
        ({
            let (nx, ny) = nudged(x as int, y as int, flips);
            &&& r is Some <==> read@.in_bounds(nx, ny)
            &&& r matches Some(n) ==> n.0 == nx && n.1 == ny && n.2 == read@.cell(nx, ny)
        }),
{
    if x == i32::MIN || x == i32::MAX || y == i32::MIN || y == i32::MAX {
        // Every neighbor of such a coordinate lies outside any grid.
        return None;
    }
    let (nx, ny) = nudge(x, y, flips);
    match read.read_cell(nx, ny) {
        Ok(cell) => Some((nx, ny, cell)),
        Err(_) => None,
    }
}

/// Whether `(x, y)` is free for a mover: air in `read`, and still air in
/// `write`.
fn is_vacant(read: &GameState, write: &GameState, x: i32, y: i32) -> (r: bool)
    requires
        read.wf(),
        write.wf(),
    ensures
        r == vacant(read@, write@, x as int, y as int),
{
    read.is_empty(x, y) && write.is_empty(x, y)
}

/// Lets `cell`, evaluated at `(x, y)`, fall by one: straight down, else to
/// the diagonal below on the side that `right` picks, else not at all.  The
/// cell is stored at exactly one place.  If it falls, the block it falls
/// into is marked dirty, and so is the block of the cell one row up and one
/// column to the other side, if the grid has that cell.
pub fn gravity(cell: Cell, x: i32, y: i32, right: bool, read: &GameState, write: &mut GameState) -> (r:
    GravityResult)
    requires
        read.wf(),
        old(write).wf(),
    ensures
        final(write).wf(),
        final(write)@ == old(write)@.apply(fall_write(read@, old(write)@, cell, x as int, y as int, right)),
        r is Falling <==> fall_write(read@, old(write)@, cell, x as int, y as int, right).mark,
{
    if y < i32::MAX {
        let below = y + 1;
        if is_vacant(read, write, x, below) {
            let away = if right { x - 1 } else { x + 1 };
            let _ = write.write_cell(cell, x, below, true);
            let _ = write.mark_dirty(away, y - 1);
            return GravityResult::Falling;
        }
        if if right { x < i32::MAX } else { x > i32::MIN } {
            let side = if right { x + 1 } else { x - 1 };
            if is_vacant(read, write, side, below) {
                let away = if right { x - 1 } else { x + 1 };
                let _ = write.write_cell(cell, side, below, true);
                let _ = write.mark_dirty(away, y - 1);
                return GravityResult::Falling;
            }
        }
    }
    let _ = write.write_cell(cell, x, y, false);
    GravityResult::OnGround
}

/// Evaluates the rule of `cell` at `(x, y)` with the given flips: reads
/// `read`, stores into `write`.
pub fn update_cell_with(cell: &Cell, x: i32, y: i32, flips: Flips, read: &GameState, write: &mut GameState)
    requires
        read.wf(),
        old(write).wf(),
    ensures
        final(write).wf(),
        final(write)@ == rule(read@, old(write)@, *cell, x as int, y as int, flips),
{
    match *cell {
        Cell::Air => {},
        Cell::Sand => {
            let _ = gravity(Cell::Sand, x, y, flips.tie, read, write);
        },
        Cell::Wood { fuel } => {
            if fuel <= 0 {
                let _ = write.write_cell(Cell::Air, x, y, false);
                return ;
            }
            match neighbor(read, x, y, flips) {
                Some((_, _, Cell::Fire { .. })) => {
                    let _ = write.write_cell(Cell::Fire { heat: IGNITION_HEAT }, x, y, true);
                },
                _ => {
                    let _ = write.write_cell(Cell::Wood { fuel }, x, y, false);
                },
            }
        },
        Cell::Fire { heat } => {
            if heat <= 0 {
                let _ = write.write_cell(Cell::Air, x, y, false);
                return ;
            }
            match neighbor(read, x, y, flips) {
                Some((nx, ny, Cell::Air)) => {
                    let degrade: i32 = if flips.tie { 2 } else { 1 };
                    let _ = write.write_cell(Cell::Fire { heat: heat - degrade }, nx, ny, true);
                },
                _ => {
                    let _ = write.write_cell(Cell::Fire { heat: heat - 1 }, x, y, true);
                },
            }
        },
    }
}

/// Draws the coin flips that the rule of `cell`, evaluated at `(x, y)`,
/// consults: none for air and for what has burnt out, `tie` for sand, the
/// four directions for wood and for fire, and `tie` too for a fire whose
/// chosen neighbor is air.
fn draw(cell: &Cell, x: i32, y: i32, read: &GameState) -> (f: Flips)
    requires
        read.wf(),
    ensures
        consulted(read@, *cell, x as int, y as int, f),
{
    match *cell {
        Cell::Air => Flips::none(),
        Cell::Sand => {
            let tie = coin_flip();
            Flips { left: false, right: false, up: false, down: false, tie }
        },
        Cell::Wood { fuel } => {
            if fuel <= 0 {
                Flips::none()
            } else {
                draw_dir()
            }
        },
        Cell::Fire { heat } => {
            if heat <= 0 {
                Flips::none()
            } else {
                let dir = draw_dir();
                match neighbor(read, x, y, dir) {
                    Some((_, _, Cell::Air)) => {
                        let tie = coin_flip();
                        Flips { left: dir.left, right: dir.right, up: dir.up, down: dir.down, tie }
                    },
                    _ => dir,
                }
            }
        },
    }
}

/// Evaluates the rule of `cell` at `(x, y)` with coin flips drawn at
/// random: reads `read`, stores into `write`.  Whatever the flips come to,
/// the outcome is that of `update_cell_with` for some flips.
pub fn update_cell(cell: &Cell, x: i32, y: i32, read: &GameState, write: &mut GameState)
    requires
        read.wf(),
        old(write).wf(),
    ensures
        final(write).wf(),
        exists|f: Flips| final(write)@ == rule(read@, old(write)@, *cell, x as int, y as int, f),
{
    let flips = draw(cell, x, y, read);
    update_cell_with(cell, x, y, flips, read, write);
}

/// Stamps a material into a grid at a fixed pattern of offsets from an
/// anchor, whenever it is asked to and is enabled.
pub struct RadialSpawner {
    enabled: bool,
    x: i32,
    y: i32,
    deltas: Vec<(i32, i32)>,
    cell: Cell,
}

impl View for RadialSpawner {
    type V = Spawn;

    closed spec fn view(&self) -> Spawn {
        Spawn {
            enabled: self.enabled,
            x: self.x as int,
            y: self.y as int,
            deltas: self.deltas@,
            cell: self.cell,
        }
    }
}

impl RadialSpawner {
    /// A spawner of sand with the radial pattern of twenty offsets, anchored
    /// at `(x, y)`.  It starts disabled.
    pub fn new(x: i32, y: i32) -> (s: RadialSpawner)
        ensures
            s@ == (Spawn {
                enabled: false,
                x: x as int,
                y: y as int,
                deltas: radial_pattern(),
                cell: Cell::Sand,
            }),
            s@.deltas.len() == 20,
            forall|i: int, j: int| 0 <= i < j < 20 ==> #[trigger] s@.deltas[i] != #[trigger] s@.deltas[j],
    {
        proof {
            lemma_radial_pattern();
        }
        let deltas = vec![
            (2, 0),
            (4, 0),
            (6, 0),
            (0, 2),
            (2, 2),
            (4, 2),
            (6, 2),
            (8, 2),
            (0, 4),
            (2, 4),
            (6, 4),
            (8, 4),
            (0, 6),
            (2, 6),
            (4, 6),
            (6, 6),
            (8, 6),
            (2, 8),
            (4, 8),
            (6, 8),
        ];
        assert(deltas@ =~= radial_pattern());
        RadialSpawner { x, y, deltas, enabled: false, cell: Cell::Sand }
    }

    /// A spawner of sand with a pattern of its own, anchored at `(x, y)`.
    /// It starts disabled.
    pub fn with_deltas(x: i32, y: i32, deltas: Vec<(i32, i32)>) -> (s: RadialSpawner)
        ensures
            s@ == (Spawn { enabled: false, x: x as int, y: y as int, deltas: deltas@, cell: Cell::Sand }),
    {
        RadialSpawner { x, y, deltas, enabled: false, cell: Cell::Sand }
    }

    /// Moves the anchor.
    pub fn set_pos(&mut self, x: i32, y: i32)
        ensures
            final(self)@ == (Spawn { x: x as int, y: y as int, ..old(self)@ }),
    {
        self.x = x;
        self.y = y;
    }

    /// Lets `spawn` stamp.
    pub fn enable(&mut self)
        ensures
            final(self)@ == (Spawn { enabled: true, ..old(self)@ }),
    {
        self.enabled = true;
    }

    /// Makes `spawn` do nothing.
    pub fn disable(&mut self)
        ensures
            final(self)@ == (Spawn { enabled: false, ..old(self)@ }),
    {
        self.enabled = false;
    }

    /// Sets the material to stamp.
    pub fn set_cell(&mut self, cell: Cell)
        ensures
            final(self)@ == (Spawn { cell, ..old(self)@ }),
    {
        self.cell = cell
    }
}

/// Something that puts material into a grid, whenever it is asked to.
pub trait Spawner {
    /// Stores into `write_state`; the grid keeps its extent.
    fn spawn(&mut self, write_state: &mut GameState)
        requires
            old(write_state).wf(),
        ensures
            final(write_state).wf(),
            final(write_state)@.size == old(write_state)@.size,
    ;
}

impl Spawner for RadialSpawner {
    /// While enabled, stores the material at every offset from the anchor
    /// that falls inside the grid, and marks the blocks stored into dirty.
    fn spawn(&mut self, write_state: &mut GameState)
        ensures
            final(self)@ == old(self)@,
            final(write_state)@ == (if old(self)@.enabled {
                stamped(old(write_state)@, old(self)@.cell, old(self)@.x, old(self)@.y, old(self)@.deltas)
            } else {
                old(write_state)@
            }),
    {
        if !self.enabled {
            return ;
        }
        proof {
            lemma_stamped_none(write_state@, self.cell, self.x as int, self.y as int, self.deltas@.take(0));
        }
        let mut i: usize = 0;
        while i < self.deltas.len()
            invariant
                i <= self.deltas.len(),
                self@ == old(self)@,
                self.enabled,
                old(write_state).wf(),
                write_state.wf(),
                write_state@ == stamped(
                    old(write_state)@,
                    self.cell,
                    self.x as int,
                    self.y as int,
                    self.deltas@.take(i as int),
                ),
            decreases self.deltas.len() - i,
        {
            let (dx, dy) = self.deltas[i];
            proof {
                lemma_stamped_step(
                    old(write_state)@,
                    self.cell,
                    self.x as int,
                    self.y as int,
                    self.deltas@,
                    i as int,
                );
            }
            match (self.x.checked_add(dx), self.y.checked_add(dy)) {
                (Some(tx), Some(ty)) => {
                    let _ = write_state.write_cell(self.cell, tx, ty, true);
                },
                _ => {
                    // A place that no i32 names lies outside every grid.
                },
            }
            i += 1;
        }
        assert(self.deltas@.take(self.deltas@.len() as int) =~= self.deltas@);
    }
}

} // verus!
