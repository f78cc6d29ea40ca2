//! Rules engine for a two-phase territory board game: players occupy a square
//! grid, move a piece up to two steps per turn, then must erect a wall segment
//! adjacent to their final position; the game ends when walls partition the
//! board into regions each holding at most one player's pieces.

pub mod laws;
pub mod moves;
pub mod regions;
pub mod session;
pub mod state;
pub mod walls;

pub use state::GamePhase;
pub use state::GameState;
pub use walls::WallKind;
