use vstd::prelude::*;

use crate::state::GameState;
use crate::state::orth_adjacent;

verus! {

/// Orientation of a wall segment. A horizontal wall cuts a vertical step, a
/// vertical wall cuts a horizontal step.
#[derive(Clone, Copy, Debug, PartialEq, Eq, Structural)]
pub enum WallKind {
    Horizontal,
    Vertical,
}

impl GameState {
    /// A wall of the given orientation may still be placed at `(row, col)`:
    /// the anchor is in bounds for that orientation and the slot is free.
    /// This ignores whose turn it is and any pending move.
    pub open spec fn wall_free(self, kind: WallKind, row: int, col: int) -> bool {
        match kind {
            WallKind::Horizontal => !self.wall_h_at(row, col) && row + 1 < self.board_size && 0
                <= row && 0 <= col,
            WallKind::Vertical => !self.wall_v_at(row, col) && col + 1 < self.board_size && 0 <= row
                && 0 <= col,
        }
    }

    /// A wall placement is legal for the current turn: a move has just been
    /// committed, the wall touches the move's destination cell under the
    /// orientation-specific geometry, the slot is free and in bounds.
    pub open spec fn wall_valid(self, kind: WallKind, row: int, col: int) -> bool {
        &&& self.move_path@.len() > 0
        &&& {
            let last = self.move_path@.last();
            let lr = last.0 as int;
            let lc = last.1 as int;
            match kind {
                WallKind::Horizontal => {
                    &&& ((lr == row && lc == col) || (lr == row + 1 && lc == col))
                    &&& !self.wall_h_at(row, col)
                    &&& row + 1 < self.board_size
                },
                WallKind::Vertical => {
                    &&& ((lr == row && lc == col) || (lr == row && lc == col + 1))
                    &&& !self.wall_v_at(row, col)
                    &&& col + 1 < self.board_size
                },
            }
        }
    }

    /// Some in-bounds orthogonal neighbor of `(row, col)` still admits a wall
    /// of either orientation.
    pub open spec fn adjacent_wall_possible(self, row: int, col: int) -> bool {
        exists|ar: int, ac: int|
            #[trigger] orth_adjacent(row, col, ar, ac) && self.in_bounds(ar, ac) && (self.wall_free(
                WallKind::Horizontal,
                ar,
                ac,
            ) || self.wall_free(WallKind::Vertical, ar, ac))
    }

    /// A horizontal wall is recorded at `(row, col)`.
    pub fn wall_h_exists(&self, row: usize, col: usize) -> (r: bool)
        ensures
            r == self.wall_h_at(row as int, col as int),
    {
        let mut i: usize = 0;
        while i < self.walls_h.len()
            invariant
                i <= self.walls_h@.len(),
                forall|j: int|
                    0 <= j < i ==> !((#[trigger] self.walls_h@[j]).0 == row && self.walls_h@[j].1
                        == col),
            decreases self.walls_h@.len() - i,
        {
            let w = self.walls_h[i];
            if w.0 == row && w.1 == col {
                assert(self.walls_h@[i as int].0 == row && self.walls_h@[i as int].1 == col);
                return true;
            }
            i = i + 1;
        }
        false
    }

    /// A vertical wall is recorded at `(row, col)`.
    pub fn wall_v_exists(&self, row: usize, col: usize) -> (r: bool)
        ensures
            r == self.wall_v_at(row as int, col as int),
    {
        let mut i: usize = 0;
        while i < self.walls_v.len()
            invariant
                i <= self.walls_v@.len(),
                forall|j: int|
                    0 <= j < i ==> !((#[trigger] self.walls_v@[j]).0 == row && self.walls_v@[j].1
                        == col),
            decreases self.walls_v@.len() - i,
        {
            let w = self.walls_v[i];
            if w.0 == row && w.1 == col {
                assert(self.walls_v@[i as int].0 == row && self.walls_v@[i as int].1 == col);
                return true;
            }
            i = i + 1;
        }
        false
    }

    /// A wall cuts the edge between cells `a` and `b`; any non-orthogonal
    /// pair counts as blocked.
    pub fn is_blocked(&self, a: (usize, usize), b: (usize, usize)) -> (r: bool)
        ensures
            r == self.blocked(a.0 as int, a.1 as int, b.0 as int, b.1 as int),
    {
        if a.0 == b.0 {
            let min_c = if a.1 <= b.1 {
                a.1
            } else {
                b.1
            };
            self.wall_v_exists(a.0, min_c)
        } else if a.1 == b.1 {
            let min_r = if a.0 <= b.0 {
                a.0
            } else {
                b.0
            };
            self.wall_h_exists(min_r, a.1)
        } else {
            true
        }
    }

    /// Decides `wall_valid`: whether the proposed wall is legal against the
    /// just-committed move.
    pub fn is_valid_wall(&self, kind: WallKind, row: usize, col: usize) -> (r: bool)
        requires
            self.wf(),
        ensures
            r == self.wall_valid(kind, row as int, col as int),
    {
        if self.move_path.len() == 0 {
            return false;
        }
        let last = self.move_path[self.move_path.len() - 1];
        match kind {
            WallKind::Horizontal => {
                if !(row < self.board_size && row + 1 < self.board_size) {
                    return false;
                }
                if self.wall_h_exists(row, col) {
                    return false;
                }
                (last.0 == row && last.1 == col) || (last.0 == row + 1 && last.1 == col)
            },
            WallKind::Vertical => {
                if !(col < self.board_size && col + 1 < self.board_size) {
                    return false;
                }
                if self.wall_v_exists(row, col) {
                    return false;
                }
                (last.0 == row && last.1 == col) || (last.0 == row && last.1 == col + 1)
            },
        }
    }

    /// Decides `wall_free`: whether a wall of the given orientation could be
    /// placed at `(row, col)` on the current wall sets, anywhere on the board.
    pub fn is_valid_wall_anywhere(&self, kind: WallKind, row: usize, col: usize) -> (r: bool)
        ensures
            r == self.wall_free(kind, row as int, col as int),
    {
        match kind {
            WallKind::Horizontal => {
                row < self.board_size && row + 1 < self.board_size && !self.wall_h_exists(row, col)
            },
            WallKind::Vertical => {
                col < self.board_size && col + 1 < self.board_size && !self.wall_v_exists(row, col)
            },
        }
    }

    /// Decides `adjacent_wall_possible`: some in-bounds orthogonal neighbor
    /// of `(row, col)` still admits a wall of either orientation.
    pub fn can_place_adjacent_wall(&self, row: usize, col: usize) -> (r: bool)
        ensures
            r == self.adjacent_wall_possible(row as int, col as int),
    {
        let mut found = false;
        if row > 0 && self.neighbor_admits_wall(row - 1, col) {
            proof {
                assert(orth_adjacent(row as int, col as int, row - 1, col as int));
            }
            found = true;
        }
        if !found && row < usize::MAX && self.neighbor_admits_wall(row + 1, col) {
            proof {
                assert(orth_adjacent(row as int, col as int, row + 1, col as int));
            }
            found = true;
        }
        if !found && col > 0 && self.neighbor_admits_wall(row, col - 1) {
            proof {
                assert(orth_adjacent(row as int, col as int, row as int, col - 1));
            }
            found = true;
        }
        if !found && col < usize::MAX && self.neighbor_admits_wall(row, col + 1) {
            proof {
                assert(orth_adjacent(row as int, col as int, row as int, col + 1));
            }
            found = true;
        }
        found
    }

    /// The single cell `(ar, ac)` is in bounds and admits a wall of either
    /// orientation.
    fn neighbor_admits_wall(&self, ar: usize, ac: usize) -> (r: bool)
        ensures
            r == (self.in_bounds(ar as int, ac as int) && (self.wall_free(
                WallKind::Horizontal,
                ar as int,
                ac as int,
            ) || self.wall_free(WallKind::Vertical, ar as int, ac as int))),
    {
        ar < self.board_size && ac < self.board_size && (self.is_valid_wall_anywhere(
            WallKind::Horizontal,
            ar,
            ac,
        ) || self.is_valid_wall_anywhere(WallKind::Vertical, ar, ac))
    }
}

} // verus!
