use vstd::prelude::*;

use crate::state::GameState;

verus! {

broadcast use vstd::seq_lib::lemma_seq_contains_after_push;

/// `a` precedes `b` in row-major order.
pub open spec fn row_major_lt(a: (usize, usize), b: (usize, usize)) -> bool {
    a.0 < b.0 || (a.0 == b.0 && a.1 < b.1)
}

impl GameState {
    /// At least one in-bounds orthogonal neighbor of `(r, c)` is reachable
    /// across an unblocked edge. The neighbor may be occupied: this only says
    /// the cell is not completely enclosed.
    pub open spec fn has_open_neighbor(self, r: int, c: int) -> bool {
        ||| self.edge_open(r, c, r - 1, c)
        ||| self.edge_open(r, c, r + 1, c)
        ||| self.edge_open(r, c, r, c - 1)
        ||| self.edge_open(r, c, r, c + 1)
    }

    /// `(r, c)` may be visited on a walk from `(sr, sc)` to `(er, ec)`: it is
    /// empty, or it is the destination, or it is the start itself (a walk may
    /// pass back through its origin, never through another occupied cell).
    pub open spec fn step_passable(
        self,
        r: int,
        c: int,
        sr: int,
        sc: int,
        er: int,
        ec: int,
    ) -> bool {
        ||| self.cell(r, c) is None
        ||| (r == er && c == ec)
        ||| (r == sr && c == sc)
    }

    /// `(mr, mc)` serves as the intermediate cell of a two-edge walk from
    /// `(sr, sc)` to `(er, ec)`: both edges are open and the cell may be
    /// visited.
    pub open spec fn mid_ok(
        self,
        sr: int,
        sc: int,
        mr: int,
        mc: int,
        er: int,
        ec: int,
    ) -> bool {
        &&& self.edge_open(sr, sc, mr, mc)
        &&& self.step_passable(mr, mc, sr, sc, er, ec)
        &&& self.edge_open(mr, mc, er, ec)
    }

    /// A walk of one or two unblocked orthogonal edges leads from
    /// `(sr, sc)` to `(er, ec)`, visiting no occupied cell other than the
    /// start and the destination.
    pub open spec fn walk_within_two(self, sr: int, sc: int, er: int, ec: int) -> bool {
        ||| self.edge_open(sr, sc, er, ec)
        ||| exists|mr: int, mc: int| self.mid_ok(sr, sc, mr, mc, er, ec)
    }

    /// The move validator's full verdict on a proposed path.
    ///
    /// A one-coordinate path is the "stay put, still place a wall" move: the
    /// named cell must hold the current player's piece and have at least one
    /// unblocked edge. A two- or three-coordinate path is a real move: every
    /// listed coordinate is on the board, the start holds the current
    /// player's piece, the destination is empty or equals the start, and a
    /// walk of at most two unblocked edges joins them. Any recorded
    /// intermediate coordinate is kept verbatim but does not constrain the
    /// walk. Every other path shape is rejected.
    pub open spec fn move_path_valid(self, path: Seq<(usize, usize)>) -> bool {
        if path.len() == 1 {
            let p = path[0];
            &&& self.in_bounds(p.0 as int, p.1 as int)
            &&& self.cell(p.0 as int, p.1 as int) == Some(self.current_player)
            &&& self.has_open_neighbor(p.0 as int, p.1 as int)
        } else if path.len() == 2 || path.len() == 3 {
            let s = path[0];
            let e = path[path.len() - 1];
            &&& forall|i: int|
                0 <= i < path.len() ==> self.in_bounds(
                    (#[trigger] path[i]).0 as int,
                    path[i].1 as int,
                )
            &&& self.cell(s.0 as int, s.1 as int) == Some(self.current_player)
            &&& (self.cell(e.0 as int, e.1 as int) is None || e == s)
            &&& self.walk_within_two(s.0 as int, s.1 as int, e.0 as int, e.1 as int)
        } else {
            false
        }
    }

    /// The two-coordinate move from `(row, col)` to `(r, c)` is valid.
    pub open spec fn two_step_valid(self, row: usize, col: usize, r: usize, c: usize) -> bool {
        self.move_path_valid(seq![(row, col), (r, c)])
    }

    /// The piece on `(row, col)` belongs to the current player and has some
    /// legal move: either the stay-put move or a two-coordinate move to some
    /// destination.
    pub open spec fn piece_can_move(self, row: usize, col: usize) -> bool {
        &&& self.in_bounds(row as int, col as int)
        &&& self.cell(row as int, col as int) == Some(self.current_player)
        &&& {
            ||| self.move_path_valid(seq![(row, col)])
            ||| exists|r: usize, c: usize| self.two_step_valid(row, col, r, c)
        }
    }

    /// `d` is listed among the legal destinations for the piece on
    /// `(row, col)`: the cell itself when the stay-put move is legal, any
    /// other cell when the two-coordinate move to it is legal.
    pub open spec fn dest_valid(self, row: usize, col: usize, d: (usize, usize)) -> bool {
        if d == (row, col) {
            self.move_path_valid(seq![(row, col)])
        } else {
            self.two_step_valid(row, col, d.0, d.1)
        }
    }

    /// Owner of the piece on cell `(r, c)`, if any.
    pub fn cell_at(&self, r: usize, c: usize) -> (o: Option<usize>)
        requires
            self.wf(),
            self.in_bounds(r as int, c as int),
        ensures
            o == self.cell(r as int, c as int),
    {
        self.board[r][c]
    }

    /// Decides `edge_open` for an arbitrary pair of cells.
    pub fn edge_open_exec(&self, a: (usize, usize), b: (usize, usize)) -> (r: bool)
        requires
            self.wf(),
        ensures
            r == self.edge_open(a.0 as int, a.1 as int, b.0 as int, b.1 as int),
    {
        a.0 < self.board_size && a.1 < self.board_size && b.0 < self.board_size && b.1
            < self.board_size && ((a.0 == b.0 && (a.1 + 1 == b.1 || b.1 + 1 == a.1)) || (a.1 == b.1
            && (a.0 + 1 == b.0 || b.0 + 1 == a.0))) && !self.is_blocked(a, b)
    }

    /// Decides `has_open_neighbor` for an in-bounds cell.
    pub fn cell_has_open_neighbor(&self, r: usize, c: usize) -> (res: bool)
        requires
            self.wf(),
            self.in_bounds(r as int, c as int),
        ensures
            res == self.has_open_neighbor(r as int, c as int),
    {
        let mut found = false;
        if r > 0 && self.edge_open_exec((r, c), (r - 1, c)) {
            found = true;
        }
        if !found && self.edge_open_exec((r, c), (r + 1, c)) {
            found = true;
        }
        if !found && c > 0 && self.edge_open_exec((r, c), (r, c - 1)) {
            found = true;
        }
        if !found && self.edge_open_exec((r, c), (r, c + 1)) {
            found = true;
        }
        found
    }

    /// Decides `mid_ok` for one candidate intermediate cell.
    fn try_mid(&self, sr: usize, sc: usize, mr: usize, mc: usize, er: usize, ec: usize) -> (r:
        bool)
        requires
            self.wf(),
        ensures
            r == self.mid_ok(sr as int, sc as int, mr as int, mc as int, er as int, ec as int),
    {
        self.edge_open_exec((sr, sc), (mr, mc)) && (self.cell_at(mr, mc).is_none() || (mr == er
            && mc == ec) || (mr == sr && mc == sc)) && self.edge_open_exec((mr, mc), (er, ec))
    }

    /// Decides `walk_within_two` between two in-bounds cells.
    pub fn walk_within_two_exec(&self, sr: usize, sc: usize, er: usize, ec: usize) -> (r: bool)
        requires
            self.wf(),
            self.in_bounds(sr as int, sc as int),
            self.in_bounds(er as int, ec as int),
        ensures
            r == self.walk_within_two(sr as int, sc as int, er as int, ec as int),
    {
        if self.edge_open_exec((sr, sc), (er, ec)) {
            return true;
        }
        let mut found = false;
        if sr > 0 && self.try_mid(sr, sc, sr - 1, sc, er, ec) {
            found = true;
        }
        if !found && self.try_mid(sr, sc, sr + 1, sc, er, ec) {
            found = true;
        }
        if !found && sc > 0 && self.try_mid(sr, sc, sr, sc - 1, er, ec) {
            found = true;
        }
        if !found && self.try_mid(sr, sc, sr, sc + 1, er, ec) {
            found = true;
        }
        found
    }

    /// Decides `move_path_valid`: whether the proposed path is a legal move
    /// for the current player.
    pub fn is_valid_move_path(&self, path: &Vec<(usize, usize)>) -> (r: bool)
        requires
            self.wf(),
        ensures
            r == self.move_path_valid(path@),
    {
        if path.len() == 1 {
            let p = path[0];
            if !(p.0 < self.board_size && p.1 < self.board_size) {
                return false;
            }
            let owned = match self.cell_at(p.0, p.1) {
                Some(q) => q == self.current_player,
                None => false,
            };
            owned && self.cell_has_open_neighbor(p.0, p.1)
        } else if path.len() == 2 || path.len() == 3 {
            let mut i: usize = 0;
            while i < path.len()
                invariant
                    i <= path@.len(),
                    forall|j: int|
                        0 <= j < i ==> self.in_bounds(
                            (#[trigger] path@[j]).0 as int,
                            path@[j].1 as int,
                        ),
                decreases path@.len() - i,
            {
                let p = path[i];
                if !(p.0 < self.board_size && p.1 < self.board_size) {
                    return false;
                }
                i = i + 1;
            }
            let s = path[0];
            let e = path[path.len() - 1];
            let owned = match self.cell_at(s.0, s.1) {
                Some(q) => q == self.current_player,
                None => false,
            };
            if !owned {
                return false;
            }
            let end_free = match self.cell_at(e.0, e.1) {
                Some(_) => e.0 == s.0 && e.1 == s.1,
                None => true,
            };
            if !end_free {
                return false;
            }
            self.walk_within_two_exec(s.0, s.1, e.0, e.1)
        } else {
            false
        }
    }

    /// The piece on `(row, col)` belongs to the current player and has some
    /// legal move. Decides `piece_can_move`.
    pub fn has_valid_moves(&self, row: usize, col: usize) -> (r: bool)
        requires
            self.wf(),
        ensures
            r == self.piece_can_move(row, col),
    {
        if !(row < self.board_size && col < self.board_size) {
            return false;
        }
        let owned = match self.cell_at(row, col) {
            Some(q) => q == self.current_player,
            None => false,
        };
        if !owned {
            return false;
        }
        let single: Vec<(usize, usize)> = vec![(row, col)];
        if self.is_valid_move_path(&single) {
            assert(single@ =~= seq![(row, col)]);
            return true;
        }
        assert(single@ =~= seq![(row, col)]);
        let mut r: usize = 0;
        while r < self.board_size
            invariant
                self.wf(),
                r <= self.board_size,
                forall|rr: usize, cc: usize| rr < r ==> !self.two_step_valid(row, col, rr, cc),
            decreases self.board_size - r,
        {
            let mut c: usize = 0;
            while c < self.board_size
                invariant
                    self.wf(),
                    r < self.board_size,
                    c <= self.board_size,
                    forall|rr: usize, cc: usize| rr < r ==> !self.two_step_valid(row, col, rr, cc),
                    forall|cc: usize| cc < c ==> !self.two_step_valid(row, col, r, cc),
                decreases self.board_size - c,
            {
                let pair: Vec<(usize, usize)> = vec![(row, col), (r, c)];
                if self.is_valid_move_path(&pair) {
                    assert(pair@ =~= seq![(row, col), (r, c)]);
                    return true;
                }
                assert(pair@ =~= seq![(row, col), (r, c)]);
                c = c + 1;
            }
            assert forall|cc: usize| cc >= self.board_size implies !self.two_step_valid(
                row,
                col,
                r,
                cc,
            ) by {
                assert(seq![(row, col), (r, cc)][1] == (r, cc));
            }
            r = r + 1;
        }
        assert forall|rr: usize, cc: usize| rr >= self.board_size implies !self.two_step_valid(
            row,
            col,
            rr,
            cc,
        ) by {
            assert(seq![(row, col), (rr, cc)][1] == (rr, cc));
        }
        false
    }

    /// Every legal destination for the piece on `(row, col)`, the stay-put
    /// option included. The result lists each destination once, the stay-put
    /// cell first and the others in row-major order; it is empty when the
    /// cell does not hold the current player's piece.
    pub fn get_valid_moves_for_piece(&self, row: usize, col: usize) -> (moves: Vec<(usize, usize)>)
        requires
            self.wf(),
        ensures
            moves@.no_duplicates(),
            forall|d: (usize, usize)|
                #[trigger] moves@.contains(d) <==> (self.in_bounds(row as int, col as int)
                    && self.cell(row as int, col as int) == Some(self.current_player)
                    && self.dest_valid(row, col, d)),
            moves@.contains((row, col)) ==> moves@[0] == (row, col),
            forall|i: int, j: int|
                0 <= i < j < moves@.len() && moves@[i] != (row, col) && moves@[j] != (row, col)
                    ==> row_major_lt(moves@[i], moves@[j]),
    {
        let mut moves: Vec<(usize, usize)> = Vec::new();
        if !(row < self.board_size && col < self.board_size) {
            return moves;
        }
        let owned = match self.cell_at(row, col) {
            Some(q) => q == self.current_player,
            None => false,
        };
        if !owned {
            return moves;
        }
        let single: Vec<(usize, usize)> = vec![(row, col)];
        if self.is_valid_move_path(&single) {
            moves.push((row, col));
        }
        proof {
            assert(single@ =~= seq![(row, col)]);
        }
        let mut r: usize = 0;
        while r < self.board_size
            invariant
                self.wf(),
                r <= self.board_size,
                self.in_bounds(row as int, col as int),
                self.cell(row as int, col as int) == Some(self.current_player),
                moves@.no_duplicates(),
                forall|d: (usize, usize)|
                    #[trigger] moves@.contains(d) <==> (self.dest_valid(row, col, d) && (d == (
                    row,
                    col,
                ) || d.0 < r)),
                moves@.contains((row, col)) ==> moves@[0] == (row, col),
                forall|i: int, j: int|
                    0 <= i < j < moves@.len() && moves@[i] != (row, col) && moves@[j] != (row, col)
                        ==> row_major_lt(moves@[i], moves@[j]),
            decreases self.board_size - r,
        {
            let mut c: usize = 0;
            while c < self.board_size
                invariant
                    self.wf(),
                    r < self.board_size,
                    c <= self.board_size,
                    self.in_bounds(row as int, col as int),
                    self.cell(row as int, col as int) == Some(self.current_player),
                    moves@.no_duplicates(),
                    forall|d: (usize, usize)|
                        #[trigger] moves@.contains(d) <==> (self.dest_valid(row, col, d) && (d == (
                        row,
                        col,
                    ) || d.0 < r || (d.0 == r && d.1 < c))),
                    moves@.contains((row, col)) ==> moves@[0] == (row, col),
                    forall|i: int, j: int|
                        0 <= i < j < moves@.len() && moves@[i] != (row, col) && moves@[j] != (
                        row,
                        col,
                    ) ==> row_major_lt(moves@[i], moves@[j]),
                decreases self.board_size - c,
            {
                if !(r == row && c == col) {
                    let pair: Vec<(usize, usize)> = vec![(row, col), (r, c)];
                    if self.is_valid_move_path(&pair) {
                        proof {
                            assert(pair@ =~= seq![(row, col), (r, c)]);
                            assert(!moves@.contains((r, c)));
                        }
                        let ghost pre = moves@;
                        moves.push((r, c));
                        proof {
                            assert forall|i: int, j: int|
                                0 <= i < moves@.len() && 0 <= j < moves@.len() && i
                                    != j implies moves@[i] != moves@[j] by {
                                if i == pre.len() && j < pre.len() {
                                    if moves@[j] == (r, c) {
                                        assert(pre[j] == (r, c));
                                        assert(pre.contains((r, c)));
                                    }
                                } else if j == pre.len() && i < pre.len() {
                                    if moves@[i] == (r, c) {
                                        assert(pre[i] == (r, c));
                                        assert(pre.contains((r, c)));
                                    }
                                }
                            }
                            assert(moves@.no_duplicates());
                            assert forall|i: int, j: int|
                                0 <= i < j < moves@.len() && moves@[i] != (row, col) && moves@[j]
                                    != (row, col) implies row_major_lt(moves@[i], moves@[j]) by {
                                if j == pre.len() {
                                    assert(moves@[j] == (r, c));
                                    assert(moves@[i] == pre[i]);
                                    assert(pre.contains(pre[i]));
                                } else {
                                    assert(moves@[i] == pre[i] && moves@[j] == pre[j]);
                                }
                            }
                        }
                    } else {
                        proof {
                            assert(pair@ =~= seq![(row, col), (r, c)]);
                        }
                    }
                }
                c = c + 1;
            }
            r = r + 1;
        }
        proof {
            assert forall|d: (usize, usize)|
                #[trigger] moves@.contains(d) <==> (self.in_bounds(row as int, col as int)
                    && self.cell(row as int, col as int) == Some(self.current_player)
                    && self.dest_valid(row, col, d)) by {
                if self.dest_valid(row, col, d) && d != (row, col) {
                    assert(self.two_step_valid(row, col, d.0, d.1));
                    assert(self.in_bounds(d.0 as int, d.1 as int)) by {
                        assert(seq![(row, col), (d.0, d.1)][1] == (d.0, d.1));
                    }
                }
            }
        }
        moves
    }
}

} // verus!
