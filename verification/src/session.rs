use vstd::prelude::*;

use crate::state::GamePhase;
use crate::state::GameState;
use crate::state::empty_board;
use crate::walls::WallKind;

verus! {

/// `b` is a square board of side `n`.
pub open spec fn board_square(b: Vec<Vec<Option<usize>>>, n: int) -> bool {
    b@.len() == n && forall|r: int| 0 <= r < n ==> (#[trigger] b@[r])@.len() == n
}

/// Decides `board_square`.
fn board_matches_size(b: &Vec<Vec<Option<usize>>>, n: usize) -> (r: bool)
    ensures
        r == board_square(*b, n as int),
{
    if b.len() != n {
        return false;
    }
    let mut i: usize = 0;
    while i < n
        invariant
            i <= n,
            b@.len() == n,
            forall|j: int| 0 <= j < i ==> (#[trigger] b@[j])@.len() == n,
        decreases n - i,
    {
        if b[i].len() != n {
            return false;
        }
        i = i + 1;
    }
    true
}

impl GameState {
    /// A game-affecting move command is admissible: nobody has won yet, the
    /// main phase has started and no wall placement is owed.
    pub open spec fn move_allowed(self) -> bool {
        self.winner is None && self.phase == GamePhase::Main && !self.wall_pending
    }

    /// The current snapshot; every field of it is the live state.
    pub fn get_game_state(&self) -> (s: &GameState)
        ensures
            s == self,
    {
        self
    }

    /// Reconfigures the session: a changed board side resets board, walls,
    /// pending move and winner and forces the setup phase; a given board is
    /// adopted exactly when its dimensions match the (new) side; the player
    /// configuration is adopted as given. A player configuration that cannot
    /// satisfy `current_player < num_players` is rejected outright, with
    /// nothing changed.
    pub fn set_board_and_player(
        &mut self,
        new_board: Vec<Vec<Option<usize>>>,
        current_player: usize,
        num_players: usize,
        pieces_per_player: usize,
        board_size: usize,
    ) -> (accepted: bool)
        requires
            old(self).wf(),
        ensures
            final(self).wf(),
            accepted == (1 <= num_players && current_player < num_players),
            !accepted ==> *final(self) == *old(self),
            accepted ==> ({
                let resized = board_size != old(self).board_size;
                let adopted = board_square(new_board, board_size as int);
                &&& final(self).board_size == board_size
                &&& final(self).current_player == current_player
                &&& final(self).num_players == num_players
                &&& final(self).pieces_per_player == pieces_per_player
                &&& (resized ==> final(self).walls_h@.len() == 0 && final(self).walls_v@.len() == 0
                    && final(self).move_path@.len() == 0 && final(self).winner is None
                    && final(self).phase == GamePhase::Setup && !final(self).wall_pending)
                &&& (!resized ==> final(self).walls_h@ == old(self).walls_h@ && final(self).walls_v@
                    == old(self).walls_v@ && final(self).move_path@ == old(self).move_path@
                    && final(self).winner == old(self).winner
                    && final(self).phase == old(self).phase
                    && final(self).wall_pending == old(self).wall_pending)
                &&& (adopted ==> final(self).board == new_board)
                &&& (!adopted && resized ==> forall|r: int, c: int|
                    0 <= r < board_size && 0 <= c < board_size ==> final(self).cell(r, c) is None)
                &&& (!adopted && !resized ==> final(self).board == old(self).board)
            }),
    {
        if num_players == 0 || current_player >= num_players {
            return false;
        }
        if self.board_size != board_size {
            self.board_size = board_size;
            self.board = empty_board(board_size);
            self.walls_h = Vec::new();
            self.walls_v = Vec::new();
            self.move_path = Vec::new();
            self.winner = None;
            self.phase = GamePhase::Setup;
            self.wall_pending = false;
        }
        if board_matches_size(&new_board, self.board_size) {
            self.board = new_board;
        }
        self.current_player = current_player;
        self.num_players = num_players;
        self.pieces_per_player = pieces_per_player;
        true
    }

    /// Replaces the board exactly when the given board's dimensions match
    /// the current side; otherwise nothing changes.
    pub fn set_board(&mut self, new_board: Vec<Vec<Option<usize>>>)
        requires
            old(self).wf(),
        ensures
            final(self).wf(),
            board_square(new_board, old(self).board_size as int) ==> *final(self) == (GameState {
                board: new_board,
                ..*old(self)
            }),
            !board_square(new_board, old(self).board_size as int) ==> *final(self) == *old(self),
    {
        if board_matches_size(&new_board, self.board_size) {
            self.board = new_board;
        }
    }

    /// Starts the main phase; the transition is one-way.
    pub fn start_main_phase(&mut self)
        requires
            old(self).wf(),
        ensures
            final(self).wf(),
            *final(self) == (GameState { phase: GamePhase::Main, ..*old(self) }),
    {
        self.phase = GamePhase::Main;
    }

    /// Rotates the turn to the next player, unconditionally: a pending wall
    /// placement does not gate this command.
    pub fn next_player(&mut self)
        requires
            old(self).wf(),
        ensures
            final(self).wf(),
            final(self).current_player == (old(self).current_player + 1) % (
            old(self).num_players as int),
            final(self).board == old(self).board,
            final(self).board_size == old(self).board_size,
            final(self).winner == old(self).winner,
            final(self).walls_h == old(self).walls_h,
            final(self).walls_v == old(self).walls_v,
            final(self).phase == old(self).phase,
            final(self).move_path == old(self).move_path,
            final(self).wall_pending == old(self).wall_pending,
            final(self).num_players == old(self).num_players,
            final(self).pieces_per_player == old(self).pieces_per_player,
    {
        self.current_player = (self.current_player + 1) % self.num_players;
    }

    /// Restores the full defaults.
    pub fn reset_game(&mut self)
        ensures
            final(self).wf(),
            final(self).is_fresh(),
    {
        *self = GameState::default();
    }

    /// Applies a move command. The path is validated as `move_path_valid`
    /// says; an inadmissible or invalid command changes nothing. On success
    /// the piece leaves the start cell and occupies the destination (unless
    /// the move returns to its start), the path is recorded, a wall placement
    /// falls due, and the terminal condition is re-evaluated.
    pub fn move_piece(&mut self, path: Vec<(usize, usize)>) -> (accepted: bool)
        requires
            old(self).wf(),
        ensures
            final(self).wf(),
            accepted == (old(self).move_allowed() && old(self).move_path_valid(path@)),
            !accepted ==> *final(self) == *old(self),
            accepted ==> ({
                let s = path@[0];
                let e = path@[path@.len() - 1];
                &&& final(self).board_size == old(self).board_size
                &&& final(self).current_player == old(self).current_player
                &&& final(self).num_players == old(self).num_players
                &&& final(self).pieces_per_player == old(self).pieces_per_player
                &&& final(self).phase == old(self).phase
                &&& final(self).walls_h == old(self).walls_h
                &&& final(self).walls_v == old(self).walls_v
                &&& final(self).move_path@ == path@
                &&& final(self).wall_pending
                &&& (forall|rr: int, cc: int|
                    old(self).in_bounds(rr, cc) ==> final(self).cell(rr, cc) == (if (e != s && rr
                        == e.0 && cc == e.1) {
                        Some(old(self).current_player)
                    } else if (e != s && rr == s.0 && cc == s.1) {
                        None
                    } else {
                        old(self).cell(rr, cc)
                    }))
                &&& final(self).winner == (if final(self).isolated() {
                    Some(0usize)
                } else {
                    None
                })
            }),
    {
        if self.winner.is_some() {
            return false;
        }
        match self.phase {
            GamePhase::Main => {},
            GamePhase::Setup => {
                return false;
            },
        }
        if self.wall_pending {
            return false;
        }
        if !self.is_valid_move_path(&path) {
            return false;
        }
        let s = path[0];
        let e = path[path.len() - 1];
        if !(s.0 == e.0 && s.1 == e.1) {
            self.board[s.0][s.1] = None;
            self.board[e.0][e.1] = Some(self.current_player);
        }
        self.move_path = path;
        self.wall_pending = true;
        let iso = self.all_pieces_isolated();
        let ghost mid = *self;
        if iso {
            // the reference rules credit the terminal position to the first
            // player, whichever player brought it about; the host decides
            // what to make of the attribution
            self.winner = Some(0);
        }
        proof {
            GameState::lemma_isolated_same_terrain(mid, *self);
        }
        true
    }

    /// Applies a wall command. The placement is validated as `wall_valid`
    /// says; an inadmissible or invalid command changes nothing. On success
    /// the wall is recorded for the current player, the pending move is
    /// discharged, the turn rotates, and the terminal condition is
    /// re-evaluated.
    pub fn place_wall(&mut self, kind: WallKind, row: usize, col: usize) -> (accepted: bool)
        requires
            old(self).wf(),
        ensures
            final(self).wf(),
            accepted == (old(self).winner is None && old(self).wall_pending
                && old(self).wall_valid(kind, row as int, col as int)),
            !accepted ==> *final(self) == *old(self),
            accepted ==> ({
                &&& final(self).board == old(self).board
                &&& final(self).board_size == old(self).board_size
                &&& final(self).num_players == old(self).num_players
                &&& final(self).pieces_per_player == old(self).pieces_per_player
                &&& final(self).phase == old(self).phase
                &&& (kind == WallKind::Horizontal ==> final(self).walls_h@
                    == old(self).walls_h@.push((row, col, old(self).current_player))
                    && final(self).walls_v@ == old(self).walls_v@)
                &&& (kind == WallKind::Vertical ==> final(self).walls_v@
                    == old(self).walls_v@.push((row, col, old(self).current_player))
                    && final(self).walls_h@ == old(self).walls_h@)
                &&& final(self).move_path@.len() == 0
                &&& !final(self).wall_pending
                &&& final(self).current_player == (old(self).current_player + 1) % (
                old(self).num_players as int)
                &&& final(self).winner == (if final(self).isolated() {
                    Some(0usize)
                } else {
                    None
                })
            }),
    {
        if self.winner.is_some() {
            return false;
        }
        if !self.wall_pending {
            return false;
        }
        if !self.is_valid_wall(kind, row, col) {
            return false;
        }
        let player = self.current_player;
        match kind {
            WallKind::Horizontal => self.walls_h.push((row, col, player)),
            WallKind::Vertical => self.walls_v.push((row, col, player)),
        }
        self.current_player = (self.current_player + 1) % self.num_players;
        self.wall_pending = false;
        self.move_path = Vec::new();
        let iso = self.all_pieces_isolated();
        let ghost mid = *self;
        if iso {
            // the reference rules credit the terminal position to the first
            // player, whichever player brought it about; the host decides
            // what to make of the attribution
            self.winner = Some(0);
        }
        proof {
            GameState::lemma_isolated_same_terrain(mid, *self);
        }
        true
    }
}

} // verus!
