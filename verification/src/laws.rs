use vstd::prelude::*;

use crate::state::GameState;
use crate::walls::WallKind;

verus! {

/// A one-coordinate "stay put" move is rejected whenever the piece has no
/// unblocked neighbor, whatever else the board holds.
pub proof fn lemma_enclosed_piece_pass_rejected(s: GameState, p: (usize, usize))
    requires
        !s.has_open_neighbor(p.0 as int, p.1 as int),
    ensures
        !s.move_path_valid(seq![p]),
{
    assert(seq![p][0] == p);
}

/// A two-coordinate move ending on a cell occupied by anyone, when that cell
/// is not the start, is rejected — also when the occupant belongs to a third
/// player.
pub proof fn lemma_move_onto_piece_rejected(s: GameState, a: (usize, usize), b: (usize, usize))
    requires
        b != a,
        s.cell(b.0 as int, b.1 as int) is Some,
    ensures
        !s.move_path_valid(seq![a, b]),
{
    assert(seq![a, b][0] == a && seq![a, b][1] == b);
}

/// A return-to-start move is accepted whenever the current player's piece
/// has at least one empty neighbor across an unblocked edge.
pub proof fn lemma_return_to_start_accepted(s: GameState, a: (usize, usize), m: (int, int))
    requires
        s.cell(a.0 as int, a.1 as int) == Some(s.current_player),
        s.edge_open(a.0 as int, a.1 as int, m.0, m.1),
        s.cell(m.0, m.1) is None,
    ensures
        s.move_path_valid(seq![a, a]),
{
    let q = seq![a, a];
    assert(q[0] == a && q[1] == a);
    assert(s.mid_ok(a.0 as int, a.1 as int, m.0, m.1, a.0 as int, a.1 as int));
    assert forall|i: int| 0 <= i < q.len() implies s.in_bounds(
        (#[trigger] q[i]).0 as int,
        q[i].1 as int,
    ) by {
        assert(q[i] == a);
    }
}

/// A wall whose geometry does not touch the last move's destination is
/// rejected, for every orientation and coordinate pair.
pub proof fn lemma_nonadjacent_wall_rejected(s: GameState, kind: WallKind, row: int, col: int)
    requires
        s.move_path@.len() > 0,
        ({
            let d = s.move_path@.last();
            match kind {
                WallKind::Horizontal => !((d.0 == row && d.1 == col) || (d.0 == row + 1 && d.1
                    == col)),
                WallKind::Vertical => !((d.0 == row && d.1 == col) || (d.0 == row && d.1 == col
                    + 1)),
            }
        }),
    ensures
        !s.wall_valid(kind, row, col),
{
}

/// A board with no pieces at all is isolated.
pub proof fn lemma_empty_board_isolated(s: GameState)
    requires
        forall|r: int, c: int| s.in_bounds(r, c) ==> #[trigger] s.cell(r, c) is None,
    ensures
        s.isolated(),
{
    assert forall|a: (int, int), b: (int, int)|
        s.piece_at(a) && s.piece_at(b) && #[trigger] s.connected(a, b) implies s.cell(a.0, a.1)
        == s.cell(b.0, b.1) by {
        assert(s.cell(a.0, a.1) is None);
    }
}

/// Two mutually reachable pieces of different players defeat isolation.
pub proof fn lemma_mixed_region_not_isolated(s: GameState, a: (int, int), b: (int, int))
    requires
        s.piece_at(a),
        s.piece_at(b),
        s.connected(a, b),
        s.cell(a.0, a.1) != s.cell(b.0, b.1),
    ensures
        !s.isolated(),
{
    if s.isolated() {
        assert(s.cell(a.0, a.1) == s.cell(b.0, b.1));
    }
}

} // verus!
