//! The board: a dense, row-major array of cells addressed by `(x, y)`.
use crate::cell::{Cell, CellOrientation, CellVersion, GameError};
use vstd::prelude::*;

verus! {

/// Where `(x, y)` lies in a row-major array whose rows are `w` long.
pub open spec fn flat(w: int, x: int, y: int) -> int {
    x + w * y
}

/// A position inside a `w` by `h` board has its place inside the array.
pub proof fn lemma_flat_bounds(w: int, h: int, x: int, y: int)
    requires
        0 <= x < w,
        0 <= y < h,
    ensures
        0 <= flat(w, x, y) < w * h,
{
    assert(0 <= x + w * y < w * h) by (nonlinear_arith)
        requires
            0 <= x < w,
            0 <= y < h,
    ;
}

/// Two positions inside the rows have the same place only if they are equal.
pub proof fn lemma_flat_injective(w: int, x1: int, y1: int, x2: int, y2: int)
    requires
        0 <= x1 < w,
        0 <= x2 < w,
        0 <= y1,
        0 <= y2,
        flat(w, x1, y1) == flat(w, x2, y2),
    ensures
        x1 == x2,
        y1 == y2,
{
    if y1 < y2 {
        assert(x1 + w * y1 < x2 + w * y2) by (nonlinear_arith)
            requires
                0 <= x1 < w,
                0 <= x2,
                y1 < y2,
        ;
    } else if y2 < y1 {
        assert(x2 + w * y2 < x1 + w * y1) by (nonlinear_arith)
            requires
                0 <= x2 < w,
                0 <= x1,
                y2 < y1,
        ;
    }
}

/// The cell every board starts with.
pub open spec fn blank() -> Cell {
    Cell {
        version: CellVersion::Single,
        orientation: CellOrientation::North,
        locked: false,
        powered: false,
    }
}

/// A board of `width` by `height` pipe pieces.
pub struct Game {
    pub width: usize,
    pub height: usize,
    /// The cells, row after row: the one at `(x, y)` at `x + width * y`.
    pub grid: Vec<Cell>,
}

impl Game {
    /// The cells of the board, row after row.
    pub open spec fn cells_view(&self) -> Seq<Cell> {
        self.grid@
    }

    pub open spec fn wf(&self) -> bool {
        self.cells_view().len() == self.width * self.height
    }

    pub open spec fn in_bounds(&self, x: int, y: int) -> bool {
        0 <= x < self.width && 0 <= y < self.height
    }

    pub open spec fn cell(&self, x: int, y: int) -> Cell {
        self.cells_view()[flat(self.width as int, x, y)]
    }

    /// The cell one step from `(x, y)` toward `d`, where it is on the board.
    pub open spec fn neighbor(&self, x: int, y: int, d: CellOrientation) -> Option<Cell> {
        if self.in_bounds(x + d.dx(), y + d.dy()) {
            Some(self.cell(x + d.dx(), y + d.dy()))
        } else {
            None
        }
    }

    pub open spec fn neighbor_entry(&self, x: int, y: int, d: CellOrientation) -> Seq<
        (CellOrientation, Cell),
    > {
        match self.neighbor(x, y, d) {
            Some(c) => seq![(d, c)],
            None => Seq::empty(),
        }
    }

    /// The neighbors toward the first `n` directions of the cycle, in order.
    pub open spec fn neighbors_upto(&self, x: int, y: int, n: nat) -> Seq<(CellOrientation, Cell)>
        decreases n,
    {
        if n == 0 {
            Seq::empty()
        } else {
            self.neighbors_upto(x, y, (n - 1) as nat) + self.neighbor_entry(
                x,
                y,
                CellOrientation::from_ord((n - 1) as nat),
            )
        }
    }

    /// The constraint that the side of `(x, y)` facing `d` puts on its cell:
    /// a wall forbids a connection, a locked neighbor asks for one exactly
    /// when it connects back, an unlocked neighbor asks nothing.
    pub open spec fn constraint_entry(&self, x: int, y: int, d: CellOrientation) -> Seq<
        (CellOrientation, bool),
    > {
        match self.neighbor(x, y, d) {
            None => seq![(d, false)],
            Some(c) => if c.locked {
                seq![(d, c.connects_to(d.reversed()))]
            } else {
                Seq::empty()
            },
        }
    }

    pub open spec fn constraints_upto(&self, x: int, y: int, n: nat) -> Seq<
        (CellOrientation, bool),
    >
        decreases n,
    {
        if n == 0 {
            Seq::empty()
        } else {
            self.constraints_upto(x, y, (n - 1) as nat) + self.constraint_entry(
                x,
                y,
                CellOrientation::from_ord((n - 1) as nat),
            )
        }
    }

    /// The hard constraints on the cell at `(x, y)`, one per constrained side.
    pub open spec fn constraints(&self, x: int, y: int) -> Seq<(CellOrientation, bool)> {
        self.constraints_upto(x, y, 4)
    }

    /// The position one step from `(x, y)` toward `d`, where `(x, y)` has an
    /// end toward `d` and the cell there is on the board and unlocked.
    pub open spec fn open_end(&self, x: int, y: int, d: CellOrientation) -> Seq<(usize, usize)> {
        match self.neighbor(x, y, d) {
            Some(c) => if !c.locked {
                seq![((x + d.dx()) as usize, (y + d.dy()) as usize)]
            } else {
                Seq::empty()
            },
            None => Seq::empty(),
        }
    }

    pub open spec fn open_ends_upto(
        &self,
        x: int,
        y: int,
        conns: Seq<CellOrientation>,
        n: nat,
    ) -> Seq<(usize, usize)>
        decreases n,
    {
        if n == 0 {
            Seq::empty()
        } else {
            self.open_ends_upto(x, y, conns, (n - 1) as nat) + self.open_end(
                x,
                y,
                conns[n - 1],
            )
        }
    }

    /// The unlocked neighbors that the cell at `(x, y)` connects to, in the
    /// order of its connections.
    pub open spec fn open_ends(&self, x: int, y: int) -> Seq<(usize, usize)> {
        let conns = self.cell(x, y).connections();
        self.open_ends_upto(x, y, conns, conns.len())
    }

    /// Every cell of the board at the same place, the one at `(x, y)`
    /// replaced by `c`.
    pub open spec fn replaced(&self, other: &Game, x: int, y: int, c: Cell) -> bool {
        &&& other.width == self.width
        &&& other.height == self.height
        &&& other.cells_view() == self.cells_view().update(flat(self.width as int, x, y), c)
    }

    /// A board of `width` by `height` blank cells.
    pub fn new(width: usize, height: usize) -> (r: Game)
        requires
            width * height <= usize::MAX,
        ensures
            r.wf(),
            r.width == width,
            r.height == height,
            forall|i: int| 0 <= i < r.cells_view().len() ==> r.cells_view()[i] == blank(),
    {
        let n: usize = width * height;
        let mut grid: Vec<Cell> = Vec::new();
        let mut i: usize = 0;
        while i < n
            invariant
                i <= n,
                grid@.len() == i,
                forall|k: int| 0 <= k < i ==> grid@[k] == blank(),
            decreases n - i,
        {
            grid.push(
                Cell {
                    version: CellVersion::Single,
                    orientation: CellOrientation::North,
                    locked: false,
                    powered: false,
                },
            );
            i = i + 1;
        }
        Game { width, height, grid }
    }

    /// The place of `(x, y)` in the array, or `InvalidCell` off the board.
    fn cell_index(&self, x: usize, y: usize) -> (r: Result<usize, GameError>)
        requires
            self.wf(),
        ensures
            self.in_bounds(x as int, y as int) ==> r is Ok && r->Ok_0 as int == flat(
                self.width as int,
                x as int,
                y as int,
            ),
            !self.in_bounds(x as int, y as int) ==> r == Err::<usize, GameError>(
                GameError::InvalidCell,
            ),
            r matches Ok(i) ==> i < self.cells_view().len(),
    {
        if x >= self.width || y >= self.height {
            Err(GameError::InvalidCell)
        } else {
            let n: usize = self.grid.len();
            proof {
                lemma_flat_bounds(self.width as int, self.height as int, x as int, y as int);
            }
            Ok(x + self.width * y)
        }
    }

    pub fn get_cell(&self, x: usize, y: usize) -> (r: Option<&Cell>)
        requires
            self.wf(),
        ensures
            self.in_bounds(x as int, y as int) ==> r == Some(&self.cell(x as int, y as int)),
            !self.in_bounds(x as int, y as int) ==> r.is_none(),
    {
        match self.cell_index(x, y) {
            Ok(i) => Some(&self.grid[i]),
            Err(_) => None,
        }
    }

    /// Replaces the cell at `(x, y)`, shape, orientation and flags alike.
    pub fn set_cell(&mut self, x: usize, y: usize, cell: Cell) -> (r: Result<(), GameError>)
        requires
            old(self).wf(),
        ensures
            final(self).wf(),
            old(self).in_bounds(x as int, y as int) ==> r is Ok && old(self).replaced(
                final(self),
                x as int,
                y as int,
                cell,
            ),
            !old(self).in_bounds(x as int, y as int) ==> r == Err::<(), GameError>(
                GameError::InvalidCell,
            ) && *final(self) == *old(self),
    {
        match self.cell_index(x, y) {
            Ok(i) => {
                self.grid.set(i, cell);
                Ok(())
            },
            Err(e) => Err(e),
        }
    }

    pub fn get_neighbor_at_direction(&self, x: usize, y: usize, direction: CellOrientation) -> (r:
        Option<&Cell>)
        requires
            self.wf(),
            x < usize::MAX,
            y < usize::MAX,
        ensures
            r matches Some(c) ==> self.neighbor(x as int, y as int, direction) == Some(*c),
            r is None ==> self.neighbor(x as int, y as int, direction) is None,
    {
        match direction.step_from(x, y) {
            Some((nx, ny)) => self.get_cell(nx, ny),
            None => None,
        }
    }

    /// The neighbors of `(x, y)` on the board, with the direction toward
    /// each, in the order North, East, South, West.
    pub fn get_neighbors(&self, x: usize, y: usize) -> (r: Vec<(CellOrientation, Cell)>)
        requires
            self.wf(),
            x < usize::MAX,
            y < usize::MAX,
        ensures
            r@ == self.neighbors_upto(x as int, y as int, 4),
    {
        let mut r: Vec<(CellOrientation, Cell)> = Vec::new();
        let mut i: usize = 0;
        while i < 4
            invariant
                i <= 4,
                self.wf(),
                x < usize::MAX,
                y < usize::MAX,
                r@ == self.neighbors_upto(x as int, y as int, i as nat),
            decreases 4 - i,
        {
            let dir = CellOrientation::from_index(i);
            match self.get_neighbor_at_direction(x, y, dir) {
                Some(c) => {
                    r.push((dir, *c));
                },
                None => {},
            }
            i = i + 1;
        }
        r
    }

    /// The positions of the unlocked neighbors that the cell at `(x, y)`
    /// connects to.
    pub fn get_non_locked_connections(&self, x: usize, y: usize) -> (r: Vec<(usize, usize)>)
        requires
            self.wf(),
            self.in_bounds(x as int, y as int),
        ensures
            r@ == self.open_ends(x as int, y as int),
    {
        let conns = self.get_cell(x, y).unwrap().connects();
        let mut r: Vec<(usize, usize)> = Vec::new();
        let mut i: usize = 0;
        while i < conns.len()
            invariant
                i <= conns@.len(),
                self.wf(),
                self.in_bounds(x as int, y as int),
                conns@ == self.cell(x as int, y as int).connections(),
                r@ == self.open_ends_upto(x as int, y as int, conns@, i as nat),
            decreases conns@.len() - i,
        {
            let dir = conns[i];
            match self.get_neighbor_at_direction(x, y, dir) {
                Some(c) => {
                    if !c.locked {
                        r.push(dir.step_from(x, y).unwrap());
                    }
                },
                None => {},
            }
            i = i + 1;
        }
        r
    }

    /// The hard constraints on the cell at `(x, y)`, in the order North,
    /// East, South, West.
    pub fn get_cell_constraints(&self, x: usize, y: usize) -> (r: Vec<(CellOrientation, bool)>)
        requires
            self.wf(),
            x < usize::MAX,
            y < usize::MAX,
        ensures
            r@ == self.constraints(x as int, y as int),
    {
        let mut r: Vec<(CellOrientation, bool)> = Vec::new();
        let mut i: usize = 0;
        while i < 4
            invariant
                i <= 4,
                self.wf(),
                x < usize::MAX,
                y < usize::MAX,
                r@ == self.constraints_upto(x as int, y as int, i as nat),
            decreases 4 - i,
        {
            let dir = CellOrientation::from_index(i);
            match self.get_neighbor_at_direction(x, y, dir) {
                Some(c) => {
                    if c.locked {
                        r.push((dir, c.connects_toward(dir.reverse())));
                    }
                },
                None => {
                    r.push((dir, false));
                },
            }
            i = i + 1;
        }
        r
    }

    /// Turns the cell at `(x, y)`, unless it is locked.
    pub fn set_cell_orientation(&mut self, x: usize, y: usize, orientation: CellOrientation) -> (r:
        Result<(), GameError>)
        requires
            old(self).wf(),
        ensures
            final(self).wf(),
            !old(self).in_bounds(x as int, y as int) ==> r == Err::<(), GameError>(
                GameError::InvalidCell,
            ) && *final(self) == *old(self),
            old(self).in_bounds(x as int, y as int) && old(self).cell(x as int, y as int).locked
                ==> r == Err::<(), GameError>(GameError::CellIsLocked) && *final(self) == *old(
                self,
            ),
            old(self).in_bounds(x as int, y as int) && !old(self).cell(x as int, y as int).locked
                ==> r is Ok && old(self).replaced(
                final(self),
                x as int,
                y as int,
                Cell { orientation, ..old(self).cell(x as int, y as int) },
            ),
    {
        match self.cell_index(x, y) {
            Ok(i) => {
                let mut c = self.grid[i];
                if c.locked {
                    Err(GameError::CellIsLocked)
                } else {
                    c.orientation = orientation;
                    self.grid.set(i, c);
                    Ok(())
                }
            },
            Err(e) => Err(e),
        }
    }

    /// Sets or clears the lock flag of the cell at `(x, y)`.
    pub fn set_lock(&mut self, x: usize, y: usize, lock: bool) -> (r: Result<(), GameError>)
        requires
            old(self).wf(),
        ensures
            final(self).wf(),
            !old(self).in_bounds(x as int, y as int) ==> r == Err::<(), GameError>(
                GameError::InvalidCell,
            ) && *final(self) == *old(self),
            old(self).in_bounds(x as int, y as int) ==> r is Ok && old(self).replaced(
                final(self),
                x as int,
                y as int,
                Cell { locked: lock, ..old(self).cell(x as int, y as int) },
            ),
    {
        match self.cell_index(x, y) {
            Ok(i) => {
                let mut c = self.grid[i];
                c.locked = lock;
                self.grid.set(i, c);
                Ok(())
            },
            Err(e) => Err(e),
        }
    }

    /// Marks the cell at `(x, y)` as powered.
    pub fn power_cell(&mut self, x: usize, y: usize) -> (r: Result<(), GameError>)
        requires
            old(self).wf(),
        ensures
            final(self).wf(),
            !old(self).in_bounds(x as int, y as int) ==> r == Err::<(), GameError>(
                GameError::InvalidCell,
            ) && *final(self) == *old(self),
            old(self).in_bounds(x as int, y as int) ==> r is Ok && old(self).replaced(
                final(self),
                x as int,
                y as int,
                Cell { powered: true, ..old(self).cell(x as int, y as int) },
            ),
    {
        match self.cell_index(x, y) {
            Ok(i) => {
                let mut c = self.grid[i];
                c.powered = true;
                self.grid.set(i, c);
                Ok(())
            },
            Err(e) => Err(e),
        }
    }
}

impl Game {
    /// Every cell with its position, row after row: `y` outer, `x` inner.
    pub fn cells(&self) -> (r: Vec<(usize, usize, Cell)>)
        requires
            self.wf(),
        ensures
            r@.len() == self.width * self.height,
            forall|k: int|
                0 <= k < r@.len() ==> {
                    let e = #[trigger] r@[k];
                    &&& self.in_bounds(e.0 as int, e.1 as int)
                    &&& k == flat(self.width as int, e.0 as int, e.1 as int)
                    &&& e.2 == self.cell(e.0 as int, e.1 as int)
                },
    {
        let mut r: Vec<(usize, usize, Cell)> = Vec::new();
        let mut y: usize = 0;
        while y < self.height
            invariant
                self.wf(),
                y <= self.height,
                r@.len() == self.width * y,
                forall|k: int|
                    0 <= k < r@.len() ==> {
                        let e = #[trigger] r@[k];
                        &&& self.in_bounds(e.0 as int, e.1 as int)
                        &&& k == flat(self.width as int, e.0 as int, e.1 as int)
                        &&& e.2 == self.cell(e.0 as int, e.1 as int)
                    },
            decreases self.height - y,
        {
            let mut x: usize = 0;
            while x < self.width
                invariant
                    self.wf(),
                    y < self.height,
                    x <= self.width,
                    r@.len() == self.width * y + x,
                    forall|k: int|
                        0 <= k < r@.len() ==> {
                            let e = #[trigger] r@[k];
                            &&& self.in_bounds(e.0 as int, e.1 as int)
                            &&& k == flat(self.width as int, e.0 as int, e.1 as int)
                            &&& e.2 == self.cell(e.0 as int, e.1 as int)
                        },
                decreases self.width - x,
            {
                let c = self.get_cell(x, y).unwrap();
                r.push((x, y, *c));
                x = x + 1;
            }
            proof {
                assert(self.width * y + self.width == self.width * (y + 1)) by (nonlinear_arith);
            }
            y = y + 1;
        }
        r
    }
}

} // verus!
