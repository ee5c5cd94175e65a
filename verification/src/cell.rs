use vstd::prelude::*;

verus! {

/// One grid unit: a visitation flag and one flag per side.
///
/// A `true` wall flag means that side is closed; `false` means the wall has
/// been carved open. A freshly built cell is unvisited with all four walls
/// closed.
#[derive(Clone, Copy, Debug, PartialEq, Eq, Structural)]
pub struct Cell {
    pub visited: bool,
    pub wall_up: bool,
    pub wall_right: bool,
    pub wall_down: bool,
    pub wall_left: bool,
}

/// The wall flag of `c` on side `d`, with sides numbered
/// 0 = up, 1 = right, 2 = down, 3 = left.
pub open spec fn wall_at(c: Cell, d: int) -> bool {
    if d == 0 {
        c.wall_up
    } else if d == 1 {
        c.wall_right
    } else if d == 2 {
        c.wall_down
    } else {
        c.wall_left
    }
}

/// `c` with the wall on side `d` carved open.
pub open spec fn with_wall_open(c: Cell, d: int) -> Cell {
    if d == 0 {
        Cell { wall_up: false, ..c }
    } else if d == 1 {
        Cell { wall_right: false, ..c }
    } else if d == 2 {
        Cell { wall_down: false, ..c }
    } else {
        Cell { wall_left: false, ..c }
    }
}

/// The four wall flags packed into one mask: bit 0 = up, bit 1 = right,
/// bit 2 = down, bit 3 = left; a set bit means the side is closed.
pub open spec fn mask_of(c: Cell) -> int {
    (if c.wall_up {
        1int
    } else {
        0int
    }) + (if c.wall_right {
        2int
    } else {
        0int
    }) + (if c.wall_down {
        4int
    } else {
        0int
    }) + (if c.wall_left {
        8int
    } else {
        0int
    })
}

impl Cell {
    /// An unvisited cell with all four walls closed.
    pub fn closed() -> (r: Cell)
        ensures
            r == (Cell {
                visited: false,
                wall_up: true,
                wall_right: true,
                wall_down: true,
                wall_left: true,
            }),
    {
        Cell {
            visited: false,
            wall_up: true,
            wall_right: true,
            wall_down: true,
            wall_left: true,
        }
    }

    /// The wall flags as a 4-bit mask, a set bit meaning a closed side.
    pub fn wall_mask(&self) -> (r: u8)
        ensures
            r as int == mask_of(*self),
    {
        let mut m: u8 = 0;
        if self.wall_up {
            m = m + 1;
        }
        if self.wall_right {
            m = m + 2;
        }
        if self.wall_down {
            m = m + 4;
        }
        if self.wall_left {
            m = m + 8;
        }
        m
    }
}

} // verus!
