use wallgame::GamePhase;
use wallgame::GameState;
use wallgame::walls::WallKind;

fn empty_board(n: usize) -> Vec<Vec<Option<usize>>> {
    vec![vec![None; n]; n]
}

fn game_on(board: Vec<Vec<Option<usize>>>, current_player: usize, num_players: usize) -> GameState {
    let n = board.len();
    GameState {
        board,
        board_size: n,
        current_player,
        winner: None,
        walls_h: vec![],
        walls_v: vec![],
        phase: GamePhase::Main,
        move_path: vec![],
        wall_pending: false,
        num_players,
        pieces_per_player: 2,
    }
}

#[test]
fn default_session_is_fresh() {
    let g = GameState::default();
    assert_eq!(g.board_size, 7);
    assert_eq!(g.board.len(), 7);
    assert!(g.board.iter().all(|row| row.len() == 7));
    assert!(g.board.iter().all(|row| row.iter().all(|c| c.is_none())));
    assert_eq!(g.current_player, 0);
    assert_eq!(g.winner, None);
    assert!(g.walls_h.is_empty());
    assert!(g.walls_v.is_empty());
    assert_eq!(g.phase, GamePhase::Setup);
    assert!(g.move_path.is_empty());
    assert!(!g.wall_pending);
    assert_eq!(g.num_players, 2);
    assert_eq!(g.pieces_per_player, 2);
}

#[test]
fn configure_matching_board_is_preserved() {
    let mut g = GameState::default();
    let mut board = empty_board(7);
    board[2][3] = Some(0);
    board[5][5] = Some(1);
    let accepted = g.set_board_and_player(board.clone(), 1, 2, 2, 7);
    assert!(accepted);
    assert_eq!(g.board, board);
    assert_eq!(g.current_player, 1);
    assert_eq!(g.num_players, 2);
    assert_eq!(g.pieces_per_player, 2);
    assert_eq!(g.board_size, 7);
}

#[test]
fn configure_mismatched_board_leaves_board_unchanged() {
    let mut g = GameState::default();
    let before = g.board.clone();
    let wrong = empty_board(5);
    let accepted = g.set_board_and_player(wrong, 0, 2, 2, 7);
    assert!(accepted);
    assert_eq!(g.board, before);
}

#[test]
fn configure_size_change_resets_session() {
    let mut g = GameState::default();
    g.phase = GamePhase::Main;
    g.walls_h.push((0, 0, 0));
    g.move_path.push((0, 0));
    g.wall_pending = true;
    let mut board = empty_board(5);
    board[0][0] = Some(0);
    let accepted = g.set_board_and_player(board.clone(), 0, 2, 2, 5);
    assert!(accepted);
    assert_eq!(g.board_size, 5);
    assert_eq!(g.board, board);
    assert!(g.walls_h.is_empty());
    assert!(g.walls_v.is_empty());
    assert!(g.move_path.is_empty());
    assert!(!g.wall_pending);
    assert_eq!(g.phase, GamePhase::Setup);
    assert_eq!(g.winner, None);
}

#[test]
fn configure_rejects_empty_player_set() {
    let mut g = GameState::default();
    let accepted = g.set_board_and_player(empty_board(7), 0, 0, 2, 7);
    assert!(!accepted);
    assert_eq!(g.num_players, 2);
    assert_eq!(g.board_size, 7);
}

#[test]
fn configure_rejects_current_player_out_of_range() {
    let mut g = GameState::default();
    let accepted = g.set_board_and_player(empty_board(7), 3, 2, 2, 7);
    assert!(!accepted);
    assert_eq!(g.current_player, 0);
}

#[test]
fn set_board_replaces_only_matching_dimensions() {
    let mut g = GameState::default();
    let mut board = empty_board(7);
    board[1][1] = Some(1);
    g.set_board(board.clone());
    assert_eq!(g.board, board);
    let wrong = empty_board(6);
    g.set_board(wrong);
    assert_eq!(g.board, board);
}

#[test]
fn start_main_phase_switches_phase() {
    let mut g = GameState::default();
    assert_eq!(g.phase, GamePhase::Setup);
    g.start_main_phase();
    assert_eq!(g.phase, GamePhase::Main);
}

#[test]
fn enclosed_piece_cannot_pass() {
    let mut board = empty_board(2);
    board[0][0] = Some(0);
    let mut g = game_on(board, 0, 2);
    g.walls_v.push((0, 0, 1));
    g.walls_h.push((0, 0, 1));
    let accepted = g.move_piece(vec![(0, 0)]);
    assert!(!accepted);
    assert!(!g.wall_pending);
    assert!(g.move_path.is_empty());
}

#[test]
fn open_piece_may_pass() {
    let mut board = empty_board(2);
    board[0][0] = Some(0);
    let mut g = game_on(board, 0, 2);
    g.walls_v.push((0, 0, 1));
    let accepted = g.move_piece(vec![(0, 0)]);
    assert!(accepted);
    assert!(g.wall_pending);
    assert_eq!(g.move_path, vec![(0, 0)]);
    assert_eq!(g.board[0][0], Some(0));
}

#[test]
fn move_onto_third_players_piece_is_rejected() {
    let mut board = empty_board(3);
    board[0][0] = Some(0);
    board[0][2] = Some(2);
    let mut g = game_on(board, 0, 3);
    assert!(!g.move_piece(vec![(0, 0), (0, 2)]));
    assert!(!g.move_piece(vec![(0, 0), (0, 1), (0, 2)]));
    assert_eq!(g.board[0][0], Some(0));
    assert_eq!(g.board[0][2], Some(2));
    assert!(!g.wall_pending);
}

#[test]
fn return_to_start_is_accepted_with_open_neighbor() {
    let mut board = empty_board(3);
    board[0][0] = Some(0);
    let mut g = game_on(board, 0, 2);
    let accepted = g.move_piece(vec![(0, 0), (0, 0)]);
    assert!(accepted);
    assert_eq!(g.board[0][0], Some(0));
    assert!(g.wall_pending);
    assert_eq!(g.move_path, vec![(0, 0), (0, 0)]);
}

#[test]
fn move_blocked_by_wall_is_rejected() {
    let mut board = empty_board(2);
    board[0][0] = Some(0);
    let mut g = game_on(board, 0, 2);
    g.walls_v.push((0, 0, 1));
    assert!(!g.move_piece(vec![(0, 0), (0, 1)]));
    assert_eq!(g.board[0][1], None);
}

#[test]
fn two_step_move_around_a_corner() {
    let mut board = empty_board(3);
    board[0][0] = Some(0);
    let mut g = game_on(board, 0, 2);
    let accepted = g.move_piece(vec![(0, 0), (1, 0), (1, 1)]);
    assert!(accepted);
    assert_eq!(g.board[0][0], None);
    assert_eq!(g.board[1][1], Some(0));
    assert_eq!(g.move_path, vec![(0, 0), (1, 0), (1, 1)]);
}

#[test]
fn malformed_paths_are_rejected() {
    let mut board = empty_board(3);
    board[0][0] = Some(0);
    let mut g = game_on(board, 0, 2);
    assert!(!g.move_piece(vec![]));
    assert!(!g.move_piece(vec![(0, 0), (0, 1), (0, 2), (0, 1)]));
    assert!(!g.move_piece(vec![(0, 0), (9, 9)]));
    // every recorded coordinate must lie on the board, the intermediate too
    assert!(!g.move_piece(vec![(0, 0), (9, 9), (0, 1)]));
    assert!(!g.wall_pending);
}

#[test]
fn move_needs_main_phase_and_no_pending_wall() {
    let mut board = empty_board(3);
    board[0][0] = Some(0);
    let mut setup = game_on(board.clone(), 0, 2);
    setup.phase = GamePhase::Setup;
    assert!(!setup.move_piece(vec![(0, 0), (0, 1)]));
    let mut g = game_on(board, 0, 2);
    assert!(g.move_piece(vec![(0, 0), (0, 1)]));
    assert!(!g.move_piece(vec![(0, 1), (0, 2)]));
    assert_eq!(g.board[0][1], Some(0));
}

#[test]
fn accepted_move_then_wall_rotates_turn() {
    let mut board = empty_board(3);
    board[0][0] = Some(0);
    board[2][2] = Some(1);
    let mut g = game_on(board, 0, 2);
    let moved = g.move_piece(vec![(0, 0), (0, 1)]);
    assert!(moved);
    assert!(g.wall_pending);
    assert!(!g.move_path.is_empty());
    assert_eq!(g.current_player, 0);
    let walled = g.place_wall(WallKind::Vertical, 0, 1);
    assert!(walled);
    assert!(!g.wall_pending);
    assert!(g.move_path.is_empty());
    assert_eq!(g.current_player, 1);
}

#[test]
fn reference_scenario_on_a_three_board() {
    let mut board = empty_board(3);
    board[0][0] = Some(0);
    board[2][2] = Some(1);
    let mut g = game_on(board, 0, 2);
    let moved = g.move_piece(vec![(0, 0), (0, 1)]);
    assert!(moved);
    assert_eq!(g.board[0][0], None);
    assert_eq!(g.board[0][1], Some(0));
    assert!(g.wall_pending);
    assert_eq!(g.move_path, vec![(0, 0), (0, 1)]);
    assert_eq!(g.winner, None);
    let walled = g.place_wall(WallKind::Vertical, 0, 1);
    assert!(walled);
    assert_eq!(g.walls_v, vec![(0, 1, 0)]);
    assert_eq!(g.current_player, 1);
    assert!(!g.wall_pending);
    assert_eq!(g.winner, None);
}

#[test]
fn wall_not_adjacent_to_destination_is_always_rejected() {
    let mut board = empty_board(3);
    board[0][0] = Some(0);
    board[2][2] = Some(1);
    let mut g = game_on(board, 0, 2);
    assert!(g.move_piece(vec![(0, 0), (0, 1)]));
    // destination is (0, 1): the only legal anchors are H(0,1), V(0,1), V(0,0)
    for row in 0..3usize {
        for col in 0..3usize {
            let h_legal = (row, col) == (0, 1);
            let v_legal = (row, col) == (0, 1) || (row, col) == (0, 0);
            assert_eq!(g.is_valid_wall(WallKind::Horizontal, row, col), h_legal);
            assert_eq!(g.is_valid_wall(WallKind::Vertical, row, col), v_legal);
            if !h_legal {
                let before_len = g.walls_h.len();
                assert!(!g.place_wall(WallKind::Horizontal, row, col));
                assert_eq!(g.walls_h.len(), before_len);
                assert!(g.wall_pending);
            }
        }
    }
}

#[test]
fn wall_needs_pending_move() {
    let mut board = empty_board(3);
    board[0][0] = Some(0);
    let mut g = game_on(board, 0, 2);
    assert!(!g.place_wall(WallKind::Horizontal, 0, 0));
    assert!(g.walls_h.is_empty());
    assert_eq!(g.current_player, 0);
}

#[test]
fn duplicate_wall_is_rejected() {
    let mut board = empty_board(3);
    board[1][1] = Some(0);
    board[0][0] = Some(1);
    let mut g = game_on(board, 0, 2);
    g.walls_h.push((1, 1, 1));
    assert!(g.move_piece(vec![(1, 1)]));
    assert!(!g.place_wall(WallKind::Horizontal, 1, 1));
    assert_eq!(g.walls_h.len(), 1);
}

#[test]
fn wall_out_of_bounds_is_rejected() {
    let mut board = empty_board(2);
    board[1][1] = Some(0);
    board[0][0] = Some(1);
    let mut g = game_on(board, 0, 2);
    assert!(g.move_piece(vec![(1, 1)]));
    // horizontal anchors need row < 1, vertical anchors need col < 1
    assert!(!g.place_wall(WallKind::Horizontal, 1, 1));
    assert!(!g.place_wall(WallKind::Vertical, 1, 1));
    assert!(g.place_wall(WallKind::Vertical, 1, 0));
    assert_eq!(g.walls_v, vec![(1, 0, 0)]);
}

#[test]
fn next_player_wraps_around() {
    let mut g = GameState::default();
    g.next_player();
    assert_eq!(g.current_player, 1);
    g.next_player();
    assert_eq!(g.current_player, 0);
}

#[test]
fn reset_restores_defaults() {
    let mut g = GameState::default();
    g.start_main_phase();
    g.set_board_and_player(empty_board(4), 1, 3, 1, 4);
    g.reset_game();
    assert_eq!(g.board_size, 7);
    assert_eq!(g.num_players, 2);
    assert_eq!(g.pieces_per_player, 2);
    assert_eq!(g.current_player, 0);
    assert_eq!(g.phase, GamePhase::Setup);
    assert!(g.board.iter().all(|row| row.iter().all(|c| c.is_none())));
}

#[test]
fn empty_board_is_isolated() {
    let g = game_on(empty_board(3), 0, 2);
    assert!(g.all_pieces_isolated());
}

#[test]
fn separated_players_are_isolated() {
    let mut board = empty_board(2);
    board[0][0] = Some(0);
    board[1][1] = Some(1);
    let mut g = game_on(board, 0, 2);
    g.walls_h.push((0, 0, 0));
    g.walls_h.push((0, 1, 1));
    assert!(g.all_pieces_isolated());
}

#[test]
fn mutually_reachable_players_are_not_isolated() {
    let mut board = empty_board(2);
    board[0][0] = Some(0);
    board[1][1] = Some(1);
    let g = game_on(board, 0, 2);
    assert!(!g.all_pieces_isolated());
}

#[test]
fn isolating_wall_ends_the_game() {
    let mut board = empty_board(2);
    board[0][0] = Some(0);
    board[1][1] = Some(1);
    let mut g = game_on(board, 0, 2);
    g.walls_h.push((0, 0, 0));
    assert!(g.move_piece(vec![(0, 0), (0, 1)]));
    assert_eq!(g.winner, None);
    assert!(g.place_wall(WallKind::Horizontal, 0, 1));
    assert_eq!(g.winner, Some(0));
    // the session is now frozen for game-affecting commands
    assert!(!g.move_piece(vec![(1, 1), (1, 0)]));
    assert_eq!(g.board[1][1], Some(1));
}

#[test]
fn region_scores_on_a_split_board() {
    let mut board = empty_board(4);
    board[0][0] = Some(0);
    board[3][3] = Some(1);
    let mut g = game_on(board, 0, 2);
    for c in 0..4usize {
        g.walls_h.push((1, c, 0));
    }
    let scores = g.get_region_scores();
    assert_eq!(scores, vec![8, 8]);
}

#[test]
fn region_scores_ignore_empty_and_mixed_regions() {
    let mut board = empty_board(3);
    board[0][0] = Some(0);
    board[0][2] = Some(1);
    let g = game_on(board, 0, 2);
    // one open region holding both players: nobody scores
    assert_eq!(g.get_region_scores(), vec![0, 0]);
    let h = game_on(empty_board(3), 0, 2);
    assert_eq!(h.get_region_scores(), vec![0, 0]);
}

#[test]
fn valid_moves_for_piece_lists_every_destination() {
    let mut board = empty_board(3);
    board[0][0] = Some(0);
    board[2][2] = Some(1);
    let g = game_on(board, 0, 2);
    let moves = g.get_valid_moves_for_piece(0, 0);
    // the stay-put option leads, the true moves follow in row-major order
    assert_eq!(moves, vec![(0, 0), (0, 1), (0, 2), (1, 0), (1, 1), (2, 0)]);
    assert!(g.get_valid_moves_for_piece(2, 2).is_empty());
    assert!(g.get_valid_moves_for_piece(1, 1).is_empty());
}

#[test]
fn has_valid_moves_follows_ownership_and_mobility() {
    let mut board = empty_board(2);
    board[0][0] = Some(0);
    board[1][1] = Some(1);
    let mut g = game_on(board, 0, 2);
    assert!(g.has_valid_moves(0, 0));
    assert!(!g.has_valid_moves(1, 1));
    g.walls_v.push((0, 0, 1));
    g.walls_h.push((0, 0, 1));
    // fully enclosed: neither the pass move nor any two-step move remains
    assert!(!g.has_valid_moves(0, 0));
}

#[test]
fn can_place_adjacent_wall_probes_neighbors() {
    let g = game_on(empty_board(3), 0, 2);
    assert!(g.can_place_adjacent_wall(1, 1));
    let tiny = game_on(empty_board(1), 0, 2);
    assert!(!tiny.can_place_adjacent_wall(0, 0));
}

#[test]
fn snapshot_reflects_the_live_state() {
    let mut g = GameState::default();
    g.start_main_phase();
    let snap = g.get_game_state();
    assert_eq!(snap.phase, GamePhase::Main);
    assert_eq!(snap.board_size, 7);
}
