use vstd::prelude::*;

verus! {

/// Coarse game stage: `Setup` allows arbitrary board arrangement, `Main` runs
/// the move/wall turn cycle. The transition is one-way, `Setup` to `Main`.
#[derive(Clone, Copy, Debug, PartialEq, Eq, Structural)]
pub enum GamePhase {
    Setup,
    Main,
}

/// Full state of one game session. The host owns a value of this type and
/// issues every command against it; there is no process-wide state.
///
/// `board[r][c]` holds the id of the player whose piece occupies the cell, if
/// any. A horizontal wall at `(r, c)` cuts the edge between cells `(r, c)` and
/// `(r + 1, c)`; a vertical wall at `(r, c)` cuts the edge between `(r, c)`
/// and `(r, c + 1)`. Each wall triple carries the id of the player who placed
/// it.
#[derive(Clone, Debug)]
pub struct GameState {
    pub board: Vec<Vec<Option<usize>>>,
    pub board_size: usize,
    pub current_player: usize,
    pub winner: Option<usize>,
    pub walls_h: Vec<(usize, usize, usize)>,
    pub walls_v: Vec<(usize, usize, usize)>,
    pub phase: GamePhase,
    pub move_path: Vec<(usize, usize)>,
    pub wall_pending: bool,
    pub num_players: usize,
    pub pieces_per_player: usize,
}

impl GameState {
    /// The cell `(r, c)` lies on the board.
    pub open spec fn in_bounds(self, r: int, c: int) -> bool {
        0 <= r < self.board_size && 0 <= c < self.board_size
    }

    /// Owner of the piece on cell `(r, c)`, if any.
    pub open spec fn cell(self, r: int, c: int) -> Option<usize> {
        self.board@[r]@[c]
    }

    /// A horizontal wall is recorded at `(r, c)`, whoever placed it.
    pub open spec fn wall_h_at(self, r: int, c: int) -> bool {
        exists|i: int|
            0 <= i < self.walls_h@.len() && (#[trigger] self.walls_h@[i]).0 == r
                && self.walls_h@[i].1 == c
    }

    /// A vertical wall is recorded at `(r, c)`, whoever placed it.
    pub open spec fn wall_v_at(self, r: int, c: int) -> bool {
        exists|i: int|
            0 <= i < self.walls_v@.len() && (#[trigger] self.walls_v@[i]).0 == r
                && self.walls_v@[i].1 == c
    }

    /// The edge between the orthogonally adjacent cells `(r1, c1)` and
    /// `(r2, c2)` is cut by a wall: a vertical wall at the lower column index
    /// cuts a horizontal step, a horizontal wall at the lower row index cuts a
    /// vertical step. Any non-orthogonal pair counts as blocked.
    pub open spec fn blocked(self, r1: int, c1: int, r2: int, c2: int) -> bool {
        if r1 == r2 {
            self.wall_v_at(r1, if c1 <= c2 { c1 } else { c2 })
        } else if c1 == c2 {
            self.wall_h_at(if r1 <= r2 { r1 } else { r2 }, c1)
        } else {
            true
        }
    }

    /// Both endpoints lie on the board, they are one orthogonal step apart,
    /// and no wall cuts the edge between them.
    pub open spec fn edge_open(self, r1: int, c1: int, r2: int, c2: int) -> bool {
        &&& self.in_bounds(r1, c1)
        &&& self.in_bounds(r2, c2)
        &&& orth_adjacent(r1, c1, r2, c2)
        &&& !self.blocked(r1, c1, r2, c2)
    }

    /// Well-formedness: the board is square with side `board_size`, the player
    /// ids are coherent, and the pending-move bookkeeping is consistent.
    /// Every command preserves this.
    pub open spec fn wf(self) -> bool {
        &&& self.board@.len() == self.board_size
        &&& forall|r: int|
            0 <= r < self.board_size ==> (#[trigger] self.board@[r])@.len() == self.board_size
        &&& 1 <= self.num_players
        &&& self.current_player < self.num_players
        &&& self.move_path@.len() <= 3
        &&& (self.wall_pending <==> self.move_path@.len() > 0)
        &&& forall|i: int|
            0 <= i < self.move_path@.len() ==> self.in_bounds(
                (#[trigger] self.move_path@[i]).0 as int,
                self.move_path@[i].1 as int,
            )
    }

    /// The configuration a fresh session starts from: an empty 7 by 7 board,
    /// two players with two pieces each, setup phase, nothing pending.
    pub open spec fn is_fresh(self) -> bool {
        &&& self.board_size == 7
        &&& self.board@.len() == 7
        &&& forall|r: int|
            0 <= r < 7 ==> (#[trigger] self.board@[r])@.len() == 7 && forall|c: int|
                0 <= c < 7 ==> self.board@[r]@[c] is None
        &&& self.current_player == 0
        &&& self.winner is None
        &&& self.walls_h@.len() == 0
        &&& self.walls_v@.len() == 0
        &&& self.phase == GamePhase::Setup
        &&& self.move_path@.len() == 0
        &&& !self.wall_pending
        &&& self.num_players == 2
        &&& self.pieces_per_player == 2
    }
}

/// `(r1, c1)` and `(r2, c2)` are one orthogonal step apart.
pub open spec fn orth_adjacent(r1: int, c1: int, r2: int, c2: int) -> bool {
    ||| r1 == r2 && (c2 == c1 + 1 || c2 == c1 - 1)
    ||| c1 == c2 && (r2 == r1 + 1 || r2 == r1 - 1)
}

/// A square board of side `n` with every cell empty.
pub fn empty_board(n: usize) -> (b: Vec<Vec<Option<usize>>>)
    ensures
        b@.len() == n,
        forall|r: int| 0 <= r < n ==> (#[trigger] b@[r])@.len() == n,
        forall|r: int, c: int| 0 <= r < n && 0 <= c < n ==> b@[r]@[c] is None,
{
    let mut b: Vec<Vec<Option<usize>>> = Vec::new();
    let mut r: usize = 0;
    while r < n
        invariant
            r <= n,
            b@.len() == r,
            forall|i: int| 0 <= i < r ==> (#[trigger] b@[i])@.len() == n,
            forall|i: int, c: int| 0 <= i < r && 0 <= c < n ==> b@[i]@[c] is None,
        decreases n - r,
    {
        let mut row: Vec<Option<usize>> = Vec::new();
        let mut c: usize = 0;
        while c < n
            invariant
                c <= n,
                row@.len() == c,
                forall|j: int| 0 <= j < c ==> row@[j] is None,
            decreases n - c,
        {
            row.push(None);
            c = c + 1;
        }
        b.push(row);
        r = r + 1;
    }
    b
}

impl Default for GameState {
    /// The fresh session configuration.
    fn default() -> (s: Self)
        ensures
            s.wf(),
            s.is_fresh(),
    {
        GameState {
            board: empty_board(7),
            board_size: 7,
            current_player: 0,
            winner: None,
            walls_h: Vec::new(),
            walls_v: Vec::new(),
            phase: GamePhase::Setup,
            move_path: Vec::new(),
            wall_pending: false,
            num_players: 2,
            pieces_per_player: 2,
        }
    }
}

} // verus!
