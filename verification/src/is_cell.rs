use vstd::prelude::*;

use crate::cell::Cell;
use crate::cell_sink::CellSink;

verus! {

/// What can stand for a cell.
pub trait IsCell {
    /// The cell that this value stands for.
    spec fn cell_of(&self) -> Cell;

    fn to_cell(self) -> (c: Cell)
        ensures
            c == self.cell_of(),
    ;
}

impl IsCell for Cell {
    open spec fn cell_of(&self) -> Cell {
        *self
    }

    fn to_cell(self) -> (c: Cell) {
        self
    }
}

impl IsCell for CellSink {
    open spec fn cell_of(&self) -> Cell {
        Cell { node: self.node }
    }

    fn to_cell(self) -> (c: Cell) {
        Cell { node: self.node }
    }
}

impl<'r, CA: Copy + IsCell> IsCell for &'r CA {
    open spec fn cell_of(&self) -> Cell {
        (**self).cell_of()
    }

    fn to_cell(self) -> Cell {
        (*self).to_cell()
    }
}

} // verus!
