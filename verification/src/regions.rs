use vstd::prelude::*;

use crate::state::GameState;

verus! {

/// The integer coordinates of a board cell given as machine integers.
pub open spec fn cell_id(p: (usize, usize)) -> (int, int) {
    (p.0 as int, p.1 as int)
}

/// The set of cells that a list of coordinates covers.
pub open spec fn seq_cells(s: Seq<(usize, usize)>) -> Set<(int, int)> {
    Set::new(|x: (int, int)| exists|i: int| 0 <= i < s.len() && cell_id(#[trigger] s[i]) == x)
}

impl GameState {
    /// `p` is a walk along unblocked orthogonal edges from `a` to `b`.
    pub open spec fn path_connects(self, p: Seq<(int, int)>, a: (int, int), b: (int, int)) -> bool {
        &&& p.len() >= 1
        &&& p[0] == a
        &&& p.last() == b
        &&& self.in_bounds(a.0, a.1)
        &&& forall|i: int|
            0 <= i < p.len() - 1 ==> self.edge_open(
                (#[trigger] p[i]).0,
                p[i].1,
                p[i + 1].0,
                p[i + 1].1,
            )
    }

    /// `b` is reachable from `a` along unblocked orthogonal edges. Both cells
    /// lie on the board; every cell is reachable from itself.
    pub open spec fn connected(self, a: (int, int), b: (int, int)) -> bool {
        exists|p: Seq<(int, int)>| self.path_connects(p, a, b)
    }

    /// The region of `a`: every cell reachable from it.
    pub open spec fn component(self, a: (int, int)) -> Set<(int, int)> {
        Set::new(|x: (int, int)| self.connected(a, x))
    }

    /// An in-bounds cell holding some player's piece.
    pub open spec fn piece_at(self, x: (int, int)) -> bool {
        self.in_bounds(x.0, x.1) && self.cell(x.0, x.1) is Some
    }

    /// The terminal condition: no two pieces of different players remain
    /// mutually reachable. An empty board and a board whose every region
    /// holds pieces of at most one player both qualify.
    pub open spec fn isolated(self) -> bool {
        forall|a: (int, int), b: (int, int)|
            self.piece_at(a) && self.piece_at(b) && #[trigger] self.connected(a, b)
                ==> self.cell(a.0, a.1) == self.cell(b.0, b.1)
    }

    /// `m` is closed under unblocked orthogonal edges: no open edge leads
    /// from a cell of `m` to a cell outside it.
    pub open spec fn set_closed(self, m: Set<(int, int)>) -> bool {
        forall|xr: int, xc: int, yr: int, yc: int|
            m.contains((xr, xc)) && #[trigger] self.edge_open(xr, xc, yr, yc) ==> m.contains(
                (yr, yc),
            )
    }

    /// Reachability is reflexive on the board.
    pub proof fn lemma_connected_refl(self, a: (int, int))
        requires
            self.in_bounds(a.0, a.1),
        ensures
            self.connected(a, a),
    {
        let p: Seq<(int, int)> = seq![a];
        assert(self.path_connects(p, a, a));
    }

    /// Reachability extends across one more open edge.
    pub proof fn lemma_connected_step(self, a: (int, int), b: (int, int), y: (int, int))
        requires
            self.connected(a, b),
            self.edge_open(b.0, b.1, y.0, y.1),
        ensures
            self.connected(a, y),
    {
        let p = choose|p: Seq<(int, int)>| self.path_connects(p, a, b);
        let q = p.push(y);
        assert forall|i: int| 0 <= i < q.len() - 1 implies self.edge_open(
            (#[trigger] q[i]).0,
            q[i].1,
            q[i + 1].0,
            q[i + 1].1,
        ) by {
            if i < p.len() - 1 {
                assert(q[i] == p[i] && q[i + 1] == p[i + 1]);
            } else {
                assert(q[i] == b && q[i + 1] == y);
            }
        }
        assert(self.path_connects(q, a, y));
    }

    /// Transitivity, by induction on an explicit second walk.
    proof fn lemma_trans_on_path(self, a: (int, int), b: (int, int), c: (int, int), p: Seq<
        (int, int),
    >)
        requires
            self.connected(a, b),
            self.path_connects(p, b, c),
        ensures
            self.connected(a, c),
        decreases p.len(),
    {
        if p.len() == 1 {
            assert(b == c);
        } else {
            let q = p.drop_last();
            let c2 = p[p.len() - 2];
            assert(self.path_connects(q, b, c2));
            self.lemma_trans_on_path(a, b, c2, q);
            assert(self.edge_open(c2.0, c2.1, c.0, c.1));
            self.lemma_connected_step(a, c2, c);
        }
    }

    /// Reachability is transitive.
    pub proof fn lemma_connected_trans(self, a: (int, int), b: (int, int), c: (int, int))
        requires
            self.connected(a, b),
            self.connected(b, c),
        ensures
            self.connected(a, c),
    {
        let p = choose|p: Seq<(int, int)>| self.path_connects(p, b, c);
        self.lemma_trans_on_path(a, b, c, p);
    }

    /// Symmetry, by induction on an explicit walk: the walk is retraced.
    proof fn lemma_sym_on_path(self, a: (int, int), b: (int, int), p: Seq<(int, int)>)
        requires
            self.path_connects(p, a, b),
        ensures
            self.connected(b, a),
        decreases p.len(),
    {
        if p.len() == 1 {
            assert(a == b);
            self.lemma_connected_refl(a);
        } else {
            let q = p.drop_last();
            let b2 = p[p.len() - 2];
            assert(self.path_connects(q, a, b2));
            self.lemma_sym_on_path(a, b2, q);
            assert(self.edge_open(b2.0, b2.1, b.0, b.1));
            assert(self.edge_open(b.0, b.1, b2.0, b2.1));
            let r: Seq<(int, int)> = seq![b, b2];
            assert(self.path_connects(r, b, b2));
            self.lemma_connected_trans(b, b2, a);
        }
    }

    /// Reachability is symmetric.
    pub proof fn lemma_connected_sym(self, a: (int, int), b: (int, int))
        requires
            self.connected(a, b),
        ensures
            self.connected(b, a),
    {
        let p = choose|p: Seq<(int, int)>| self.path_connects(p, a, b);
        self.lemma_sym_on_path(a, b, p);
    }

    /// A set closed under open edges contains everything reachable from any
    /// of its cells; by induction on an explicit walk.
    proof fn lemma_closed_reaches_on_path(
        self,
        m: Set<(int, int)>,
        a: (int, int),
        b: (int, int),
        p: Seq<(int, int)>,
    )
        requires
            self.set_closed(m),
            m.contains(a),
            self.path_connects(p, a, b),
        ensures
            m.contains(b),
        decreases p.len(),
    {
        if p.len() == 1 {
            assert(a == b);
        } else {
            let q = p.drop_last();
            let b2 = p[p.len() - 2];
            assert(self.path_connects(q, a, b2));
            self.lemma_closed_reaches_on_path(m, a, b2, q);
            assert(self.edge_open(b2.0, b2.1, b.0, b.1));
        }
    }

    /// A set closed under open edges contains everything reachable from any
    /// of its cells.
    pub proof fn lemma_closed_reaches(self, m: Set<(int, int)>, a: (int, int), b: (int, int))
        requires
            self.set_closed(m),
            m.contains(a),
            self.connected(a, b),
        ensures
            m.contains(b),
    {
        let p = choose|p: Seq<(int, int)>| self.path_connects(p, a, b);
        self.lemma_closed_reaches_on_path(m, a, b, p);
    }

    /// All cells of the board.
    pub open spec fn grid(self) -> Set<(int, int)> {
        Set::new(|x: (int, int)| self.in_bounds(x.0, x.1))
    }

    /// The board has exactly `board_size * board_size` cells.
    pub proof fn lemma_grid_len(self)
        ensures
            self.grid().finite(),
            self.grid().len() == self.board_size * self.board_size,
    {
        lemma_rows_len(self.board_size as int, self.board_size as int);
        assert(self.grid() =~= rows_cells(self.board_size as int, self.board_size as int));
    }

    /// The visited matrix mirrors the board's shape.
    pub open spec fn vis_wf(self, v: Vec<Vec<bool>>) -> bool {
        v@.len() == self.board_size && forall|r: int|
            0 <= r < self.board_size ==> (#[trigger] v@[r])@.len() == self.board_size
    }

    /// The set of cells the matrix marks visited.
    pub open spec fn vis_set(self, v: Vec<Vec<bool>>) -> Set<(int, int)> {
        Set::new(|x: (int, int)| self.in_bounds(x.0, x.1) && v@[x.0]@[x.1])
    }

    /// Every open edge out of `x` leads into `m`.
    pub open spec fn cell_expanded(self, m: Set<(int, int)>, x: (int, int)) -> bool {
        forall|yr: int, yc: int| #[trigger] self.edge_open(x.0, x.1, yr, yc) ==> m.contains(
            (yr, yc),
        )
    }
}

impl GameState {
    /// One step of the flood fill: when an unblocked edge leads from `x` to
    /// the yet-unvisited cell `y`, marks `y` and appends it to the frontier.
    fn try_visit(
        &self,
        visited: &mut Vec<Vec<bool>>,
        queue: &mut Vec<(usize, usize)>,
        x: (usize, usize),
        y: (usize, usize),
        Ghost(seed): Ghost<(int, int)>,
        Ghost(base): Ghost<Set<(int, int)>>,
    )
        requires
            self.wf(),
            self.vis_wf(*old(visited)),
            self.vis_set(*old(visited)).finite(),
            self.vis_set(*old(visited)) == base + seq_cells(old(queue)@),
            old(queue)@.no_duplicates(),
            forall|i: int|
                0 <= i < old(queue)@.len() ==> self.in_bounds(
                    cell_id(#[trigger] old(queue)@[i]).0,
                    cell_id(old(queue)@[i]).1,
                ),
            forall|i: int|
                0 <= i < old(queue)@.len() ==> self.connected(
                    seed,
                    cell_id(#[trigger] old(queue)@[i]),
                ),
            forall|i: int|
                0 <= i < old(queue)@.len() ==> !base.contains(cell_id(#[trigger] old(queue)@[i])),
            self.connected(seed, cell_id(x)),
        ensures
            self.vis_wf(*final(visited)),
            self.vis_set(*final(visited)).finite(),
            final(queue)@.len() >= old(queue)@.len(),
            forall|i: int| 0 <= i < old(queue)@.len() ==> final(queue)@[i] == old(queue)@[i],
            self.vis_set(*final(visited)) == base + seq_cells(final(queue)@),
            final(queue)@.no_duplicates(),
            forall|i: int|
                0 <= i < final(queue)@.len() ==> self.in_bounds(
                    cell_id(#[trigger] final(queue)@[i]).0,
                    cell_id(final(queue)@[i]).1,
                ),
            forall|i: int|
                0 <= i < final(queue)@.len() ==> self.connected(
                    seed,
                    cell_id(#[trigger] final(queue)@[i]),
                ),
            forall|i: int|
                0 <= i < final(queue)@.len() ==> !base.contains(
                    cell_id(#[trigger] final(queue)@[i]),
                ),
            self.edge_open(cell_id(x).0, cell_id(x).1, cell_id(y).0, cell_id(y).1)
                ==> self.vis_set(*final(visited)).contains(cell_id(y)),
            forall|z: (int, int)|
                self.vis_set(*old(visited)).contains(z) ==> self.vis_set(
                    *final(visited),
                ).contains(z),
            self.vis_set(*final(visited)).len() + old(queue)@.len() == self.vis_set(
                *old(visited),
            ).len() + final(queue)@.len(),
    {
        if !self.edge_open_exec(x, y) {
            return ;
        }
        if visited[y.0][y.1] {
            return ;
        }
        let ghost yv = cell_id(y);
        let ghost vis0 = self.vis_set(*visited);
        let ghost q0 = queue@;
        proof {
            assert(!vis0.contains(yv));
        }
        visited[y.0][y.1] = true;
        queue.push(y);
        proof {
            assert(self.vis_set(*visited) =~= vis0.insert(yv));
            assert(!q0.contains(y)) by {
                if q0.contains(y) {
                    let i = choose|i: int| 0 <= i < q0.len() && q0[i] == y;
                    assert(cell_id(q0[i]) == yv);
                    assert(seq_cells(q0).contains(yv));
                }
            }
            lemma_push_no_dup(q0, y);
            assert forall|z: (int, int)| #[trigger]
                seq_cells(queue@).contains(z) <==> seq_cells(q0).insert(yv).contains(z) by {
                if seq_cells(queue@).contains(z) {
                    let i = choose|i: int| 0 <= i < queue@.len() && cell_id(queue@[i]) == z;
                    if i < q0.len() {
                        assert(cell_id(q0[i]) == z);
                    } else {
                        assert(queue@[i] == y);
                    }
                }
                if seq_cells(q0).contains(z) {
                    let i = choose|i: int| 0 <= i < q0.len() && cell_id(q0[i]) == z;
                    assert(cell_id(queue@[i]) == z);
                }
                if z == yv {
                    assert(cell_id(queue@[queue@.len() - 1]) == z);
                }
            }
            assert(seq_cells(queue@) =~= seq_cells(q0).insert(yv));
            assert(self.vis_set(*visited) =~= base + seq_cells(queue@));
            self.lemma_connected_step(seed, cell_id(x), yv);
            assert(!base.contains(yv)) by {
                if base.contains(yv) {
                    assert(vis0.contains(yv));
                }
            }
            assert(self.vis_set(*visited).len() == vis0.len() + 1);
            assert(self.vis_set(*visited).contains(yv));
        }
    }

    /// Collects the whole region of the unvisited seed cell `(sr, sc)`,
    /// marking every cell of it visited. The returned list covers exactly the
    /// seed's region, each cell once; visited cells form a union of whole
    /// regions before and after.
    pub fn flood_region(&self, visited: &mut Vec<Vec<bool>>, sr: usize, sc: usize) -> (region: Vec<
        (usize, usize),
    >)
        requires
            self.wf(),
            self.vis_wf(*old(visited)),
            self.in_bounds(sr as int, sc as int),
            !self.vis_set(*old(visited)).contains((sr as int, sc as int)),
            self.set_closed(self.vis_set(*old(visited))),
        ensures
            self.vis_wf(*final(visited)),
            self.set_closed(self.vis_set(*final(visited))),
            region@.no_duplicates(),
            region@.len() >= 1,
            forall|i: int|
                0 <= i < region@.len() ==> self.in_bounds(
                    cell_id(#[trigger] region@[i]).0,
                    cell_id(region@[i]).1,
                ),
            seq_cells(region@) == self.component((sr as int, sc as int)),
            self.vis_set(*final(visited)) == self.vis_set(*old(visited)) + self.component(
                (sr as int, sc as int),
            ),
            self.vis_set(*old(visited)).disjoint(self.component((sr as int, sc as int))),
            forall|z: (int, int)|
                self.vis_set(*old(visited)).contains(z) ==> self.vis_set(
                    *final(visited),
                ).contains(z),
    {
        let ghost seed = (sr as int, sc as int);
        let ghost base = self.vis_set(*old(visited));
        proof {
            self.lemma_grid_len();
            assert(base.subset_of(self.grid()));
            vstd::set_lib::lemma_len_subset(base, self.grid());
            self.lemma_connected_refl(seed);
        }
        let mut queue: Vec<(usize, usize)> = Vec::new();
        queue.push((sr, sc));
        visited[sr][sc] = true;
        proof {
            assert forall|z: (int, int)| #[trigger]
                seq_cells(queue@).contains(z) <==> z == seed by {
                if seq_cells(queue@).contains(z) {
                    let i = choose|i: int| 0 <= i < queue@.len() && cell_id(queue@[i]) == z;
                    assert(queue@[i] == (sr, sc));
                }
                if z == seed {
                    assert(cell_id(queue@[0]) == z);
                }
            }
            assert(self.vis_set(*visited) =~= base + seq_cells(queue@));
            assert(self.vis_set(*visited) =~= base.insert(seed));
        }
        let mut qi: usize = 0;
        while qi < queue.len()
            invariant
                self.wf(),
                self.vis_wf(*visited),
                self.vis_set(*visited).finite(),
                self.vis_set(*visited).subset_of(self.grid()),
                self.grid().finite(),
                qi <= queue@.len(),
                queue@.len() >= 1,
                queue@[0] == (sr, sc),
                seed == (sr as int, sc as int),
                self.in_bounds(seed.0, seed.1),
                base == self.vis_set(*old(visited)),
                self.set_closed(base),
                !base.contains(seed),
                self.vis_set(*visited) == base + seq_cells(queue@),
                queue@.no_duplicates(),
                forall|i: int|
                    0 <= i < queue@.len() ==> self.in_bounds(
                        cell_id(#[trigger] queue@[i]).0,
                        cell_id(queue@[i]).1,
                    ),
                forall|i: int|
                    0 <= i < queue@.len() ==> self.connected(seed, cell_id(#[trigger] queue@[i])),
                forall|i: int|
                    0 <= i < queue@.len() ==> !base.contains(cell_id(#[trigger] queue@[i])),
                forall|i: int|
                    0 <= i < qi ==> self.cell_expanded(
                        self.vis_set(*visited),
                        cell_id(#[trigger] queue@[i]),
                    ),
            decreases 2 * (self.grid().len() - self.vis_set(*visited).len()) + (queue@.len() - qi),
        {
            let ghost vis_before = self.vis_set(*visited);
            let ghost q_before = queue@;
            let x = queue[qi];
            if x.0 > 0 {
                self.try_visit(visited, &mut queue, x, (x.0 - 1, x.1), Ghost(seed), Ghost(base));
            }
            self.try_visit(visited, &mut queue, x, (x.0 + 1, x.1), Ghost(seed), Ghost(base));
            if x.1 > 0 {
                self.try_visit(visited, &mut queue, x, (x.0, x.1 - 1), Ghost(seed), Ghost(base));
            }
            self.try_visit(visited, &mut queue, x, (x.0, x.1 + 1), Ghost(seed), Ghost(base));
            proof {
                let vis = self.vis_set(*visited);
                assert(self.cell_expanded(vis, cell_id(x))) by {
                    assert forall|yr: int, yc: int| #[trigger]
                        self.edge_open(
                            cell_id(x).0,
                            cell_id(x).1,
                            yr,
                            yc,
                        ) implies vis.contains((yr, yc)) by {
                        if yr == cell_id(x).0 - 1 && yc == cell_id(x).1 {
                            assert(x.0 > 0);
                            assert(cell_id(((x.0 - 1) as usize, x.1)) == (yr, yc));
                        } else if yr == cell_id(x).0 + 1 && yc == cell_id(x).1 {
                            assert(cell_id(((x.0 + 1) as usize, x.1)) == (yr, yc));
                        } else if yr == cell_id(x).0 && yc == cell_id(x).1 - 1 {
                            assert(x.1 > 0);
                            assert(cell_id((x.0, (x.1 - 1) as usize)) == (yr, yc));
                        } else {
                            assert(yr == cell_id(x).0 && yc == cell_id(x).1 + 1);
                            assert(cell_id((x.0, (x.1 + 1) as usize)) == (yr, yc));
                        }
                    }
                }
                assert forall|i: int| 0 <= i < qi + 1 implies self.cell_expanded(
                    vis,
                    cell_id(#[trigger] queue@[i]),
                ) by {
                    if i < qi {
                        assert(self.cell_expanded(vis_before, cell_id(q_before[i])));
                        assert(queue@[i] == q_before[i]);
                        assert forall|yr: int, yc: int| #[trigger]
                            self.edge_open(
                                cell_id(queue@[i]).0,
                                cell_id(queue@[i]).1,
                                yr,
                                yc,
                            ) implies vis.contains((yr, yc)) by {
                            assert(vis_before.contains((yr, yc)));
                        }
                    } else {
                        assert(queue@[i] == x);
                    }
                }
                vstd::set_lib::lemma_len_subset(vis, self.grid());
            }
            qi = qi + 1;
        }
        proof {
            let vis = self.vis_set(*visited);
            assert(self.set_closed(vis)) by {
                assert forall|xr: int, xc: int, yr: int, yc: int|
                    vis.contains((xr, xc)) && #[trigger] self.edge_open(
                        xr,
                        xc,
                        yr,
                        yc,
                    ) implies vis.contains((yr, yc)) by {
                    if base.contains((xr, xc)) {
                        assert(base.contains((yr, yc)));
                    } else {
                        assert(seq_cells(queue@).contains((xr, xc)));
                        let i = choose|i: int|
                            0 <= i < queue@.len() && cell_id(queue@[i]) == (xr, xc);
                        assert(self.cell_expanded(vis, cell_id(queue@[i])));
                    }
                }
            }
            assert forall|z: (int, int)| #[trigger]
                seq_cells(queue@).contains(z) <==> self.component(seed).contains(z) by {
                if seq_cells(queue@).contains(z) {
                    let i = choose|i: int| 0 <= i < queue@.len() && cell_id(queue@[i]) == z;
                    assert(self.connected(seed, z));
                }
                if self.component(seed).contains(z) {
                    assert(cell_id(queue@[0]) == seed);
                    assert(seq_cells(queue@).contains(seed));
                    assert(vis.contains(seed));
                    self.lemma_closed_reaches(vis, seed, z);
                    if base.contains(z) {
                        self.lemma_connected_sym(seed, z);
                        self.lemma_closed_reaches(base, z, seed);
                        assert(false);
                    }
                    assert(seq_cells(queue@).contains(z));
                }
            }
            assert(seq_cells(queue@) =~= self.component(seed));
            assert(vis =~= base + self.component(seed));
            assert(base.disjoint(self.component(seed))) by {
                assert forall|z: (int, int)|
                    base.contains(z) implies !self.component(seed).contains(z) by {
                    if self.component(seed).contains(z) {
                        assert(seq_cells(queue@).contains(z));
                        let i = choose|i: int| 0 <= i < queue@.len() && cell_id(queue@[i]) == z;
                        assert(!base.contains(cell_id(queue@[i])));
                    }
                }
            }
        }
        queue
    }
}

impl GameState {
    /// No two pieces of different players inside `m` are mutually reachable.
    pub open spec fn region_uniform(self, m: Set<(int, int)>) -> bool {
        forall|a: (int, int), b: (int, int)|
            m.contains(a) && self.piece_at(a) && self.piece_at(b) && #[trigger] self.connected(
                a,
                b,
            ) ==> self.cell(a.0, a.1) == self.cell(b.0, b.1)
    }

    /// Decides `isolated`: flood-fills every region and reports whether some
    /// region still holds pieces of two different players.
    pub fn all_pieces_isolated(&self) -> (res: bool)
        requires
            self.wf(),
        ensures
            res == self.isolated(),
    {
        let n = self.board_size;
        let mut visited = false_grid(n);
        proof {
            assert(self.vis_set(visited) =~= Set::<(int, int)>::empty());
        }
        let mut r: usize = 0;
        while r < n
            invariant
                self.wf(),
                n == self.board_size,
                self.vis_wf(visited),
                self.set_closed(self.vis_set(visited)),
                self.region_uniform(self.vis_set(visited)),
                r <= n,
                forall|rr: int, cc: int|
                    0 <= rr < r && 0 <= cc < n ==> self.vis_set(visited).contains((rr, cc)),
            decreases n - r,
        {
            let mut c: usize = 0;
            while c < n
                invariant
                    self.wf(),
                    n == self.board_size,
                    self.vis_wf(visited),
                    self.set_closed(self.vis_set(visited)),
                    self.region_uniform(self.vis_set(visited)),
                    r < n,
                    c <= n,
                    forall|rr: int, cc: int|
                        0 <= rr < r && 0 <= cc < n ==> self.vis_set(visited).contains((rr, cc)),
                    forall|cc: int|
                        0 <= cc < c ==> self.vis_set(visited).contains((r as int, cc)),
                decreases n - c,
            {
                if !visited[r][c] {
                    let ghost vis0 = self.vis_set(visited);
                    let ghost seed = (r as int, c as int);
                    let region = self.flood_region(&mut visited, r, c);
                    let ghost comp = self.component(seed);
                    let mut owner: Option<usize> = None;
                    let mut multiple = false;
                    let ghost mut fw: (int, int) = (0, 0);
                    let ghost mut ga: (int, int) = (0, 0);
                    let ghost mut gb: (int, int) = (0, 0);
                    let mut k: usize = 0;
                    while k < region.len()
                        invariant
                            self.wf(),
                            k <= region@.len(),
                            seq_cells(region@) == comp,
                            forall|i: int|
                                0 <= i < region@.len() ==> self.in_bounds(
                                    cell_id(#[trigger] region@[i]).0,
                                    cell_id(region@[i]).1,
                                ),
                            owner is None ==> !multiple && forall|i: int|
                                0 <= i < k ==> self.cell(
                                    cell_id(#[trigger] region@[i]).0,
                                    cell_id(region@[i]).1,
                                ) is None,
                            owner matches Some(p) ==> comp.contains(fw) && self.cell(fw.0, fw.1)
                                == Some(p),
                            !multiple ==> (owner matches Some(p) ==> forall|i: int|
                                0 <= i < k ==> (self.cell(
                                    cell_id(#[trigger] region@[i]).0,
                                    cell_id(region@[i]).1,
                                ) is None || self.cell(
                                    cell_id(region@[i]).0,
                                    cell_id(region@[i]).1,
                                ) == Some(p))),
                            multiple ==> comp.contains(ga) && comp.contains(gb) && self.cell(
                                ga.0,
                                ga.1,
                            ) is Some && self.cell(gb.0, gb.1) is Some && self.cell(ga.0, ga.1)
                                != self.cell(gb.0, gb.1),
                        decreases region@.len() - k,
                    {
                        let cell = region[k];
                        match self.cell_at(cell.0, cell.1) {
                            Some(p) => {
                                match owner {
                                    None => {
                                        owner = Some(p);
                                        proof {
                                            fw = cell_id(cell);
                                        }
                                    },
                                    Some(q) => {
                                        if q != p && !multiple {
                                            multiple = true;
                                            proof {
                                                ga = fw;
                                                gb = cell_id(cell);
                                            }
                                        }
                                    },
                                }
                            },
                            None => {},
                        }
                        k = k + 1;
                    }
                    if multiple {
                        proof {
                            self.lemma_connected_sym(seed, ga);
                            self.lemma_connected_trans(ga, seed, gb);
                            let i = choose|i: int|
                                0 <= i < region@.len() && cell_id(region@[i]) == ga;
                            let j = choose|j: int|
                                0 <= j < region@.len() && cell_id(region@[j]) == gb;
                            assert(self.piece_at(ga) && self.piece_at(gb));
                            assert(!self.isolated()) by {
                                if self.isolated() {
                                    assert(self.cell(ga.0, ga.1) == self.cell(gb.0, gb.1));
                                }
                            }
                        }
                        return false;
                    }
                    proof {
                        let vis = self.vis_set(visited);
                        assert(self.region_uniform(vis)) by {
                            assert forall|a: (int, int), b: (int, int)|
                                vis.contains(a) && self.piece_at(a) && self.piece_at(b)
                                    && #[trigger] self.connected(a, b) implies self.cell(a.0, a.1)
                                == self.cell(b.0, b.1) by {
                                if vis0.contains(a) {
                                    self.lemma_closed_reaches(vis0, a, b);
                                } else {
                                    assert(comp.contains(a));
                                    self.lemma_connected_trans(seed, a, b);
                                    assert(comp.contains(b));
                                    let i = choose|i: int|
                                        0 <= i < region@.len() && cell_id(region@[i]) == a;
                                    let j = choose|j: int|
                                        0 <= j < region@.len() && cell_id(region@[j]) == b;
                                    assert(owner matches Some(p) ==> self.cell(a.0, a.1) == Some(
                                        p,
                                    ) && self.cell(b.0, b.1) == Some(p));
                                }
                            }
                        }
                        self.lemma_connected_refl(seed);
                        assert(comp.contains(seed));
                    }
                } else {
                    proof {
                        assert(self.vis_set(visited).contains((r as int, c as int)));
                    }
                }
                c = c + 1;
            }
            r = r + 1;
        }
        proof {
            assert(self.isolated()) by {
                assert forall|a: (int, int), b: (int, int)|
                    self.piece_at(a) && self.piece_at(b) && #[trigger] self.connected(
                        a,
                        b,
                    ) implies self.cell(a.0, a.1) == self.cell(b.0, b.1) by {
                    assert(self.vis_set(visited).contains(a));
                }
            }
        }
        true
    }
}

impl GameState {
    /// The cell `x` is scored for player `p`: its region holds at least one
    /// piece, and every piece in it belongs to `p`.
    pub open spec fn region_scored_for(self, x: (int, int), p: usize) -> bool {
        &&& self.in_bounds(x.0, x.1)
        &&& exists|y: (int, int)| #[trigger] self.connected(x, y) && self.cell(y.0, y.1) == Some(p)
        &&& forall|y: (int, int)|
            #[trigger] self.connected(x, y) && self.cell(y.0, y.1) is Some ==> self.cell(y.0, y.1)
                == Some(p)
    }

    /// All cells scored for player `p`.
    pub open spec fn score_set(self, p: usize) -> Set<(int, int)> {
        Set::new(|x: (int, int)| self.region_scored_for(x, p))
    }

    /// Every piece on the board carries a player id below `num_players`.
    pub open spec fn owners_in_range(self) -> bool {
        forall|rr: int, cc: int|
            0 <= rr < self.board_size && 0 <= cc < self.board_size ==> (#[trigger] self.cell(
                rr,
                cc,
            ) matches Some(p) ==> p < self.num_players)
    }

    /// Counts, for each player, the cells of the regions that hold pieces of
    /// that player alone. Regions with no piece, or with pieces of two or
    /// more players, score for nobody.
    pub fn get_region_scores(&self) -> (scores: Vec<usize>)
        requires
            self.wf(),
            self.board_size * self.board_size <= usize::MAX,
            self.owners_in_range(),
        ensures
            scores@.len() == self.num_players,
            forall|p: usize|
                p < self.num_players ==> scores@[p as int] == self.score_set(p).len(),
    {
        let n = self.board_size;
        let mut scores = zero_counts(self.num_players);
        let mut visited = false_grid(n);
        proof {
            self.lemma_grid_len();
            assert(self.vis_set(visited) =~= Set::<(int, int)>::empty());
            assert forall|p: usize| p < self.num_players implies scores@[p as int]
                == self.score_set(p).intersect(self.vis_set(visited)).len() by {
                assert(self.score_set(p).intersect(self.vis_set(visited)) =~= Set::<
                    (int, int),
                >::empty());
            }
        }
        let mut r: usize = 0;
        while r < n
            invariant
                self.wf(),
                self.owners_in_range(),
                n == self.board_size,
                self.board_size * self.board_size <= usize::MAX,
                self.vis_wf(visited),
                self.set_closed(self.vis_set(visited)),
                self.vis_set(visited).finite(),
                scores@.len() == self.num_players,
                forall|p: usize|
                    p < self.num_players ==> scores@[p as int] == self.score_set(p).intersect(
                        self.vis_set(visited),
                    ).len(),
                r <= n,
                forall|rr: int, cc: int|
                    0 <= rr < r && 0 <= cc < n ==> self.vis_set(visited).contains((rr, cc)),
            decreases n - r,
        {
            let mut c: usize = 0;
            while c < n
                invariant
                    self.wf(),
                    self.owners_in_range(),
                    n == self.board_size,
                    self.board_size * self.board_size <= usize::MAX,
                    self.vis_wf(visited),
                    self.set_closed(self.vis_set(visited)),
                    self.vis_set(visited).finite(),
                    scores@.len() == self.num_players,
                    forall|p: usize|
                        p < self.num_players ==> scores@[p as int] == self.score_set(p).intersect(
                            self.vis_set(visited),
                        ).len(),
                    r < n,
                    c <= n,
                    forall|rr: int, cc: int|
                        0 <= rr < r && 0 <= cc < n ==> self.vis_set(visited).contains((rr, cc)),
                    forall|cc: int|
                        0 <= cc < c ==> self.vis_set(visited).contains((r as int, cc)),
                decreases n - c,
            {
                if !visited[r][c] {
                    let ghost vis0 = self.vis_set(visited);
                    let ghost seed = (r as int, c as int);
                    let region = self.flood_region(&mut visited, r, c);
                    let ghost comp = self.component(seed);
                    proof {
                        self.lemma_connected_refl(seed);
                    }
                    let mut owner: Option<usize> = None;
                    let mut multiple = false;
                    let ghost mut fw: (int, int) = (0, 0);
                    let ghost mut ga: (int, int) = (0, 0);
                    let ghost mut gb: (int, int) = (0, 0);
                    let mut k: usize = 0;
                    while k < region.len()
                        invariant
                            self.wf(),
                            k <= region@.len(),
                            seq_cells(region@) == comp,
                            forall|i: int|
                                0 <= i < region@.len() ==> self.in_bounds(
                                    cell_id(#[trigger] region@[i]).0,
                                    cell_id(region@[i]).1,
                                ),
                            owner is None ==> !multiple && forall|i: int|
                                0 <= i < k ==> self.cell(
                                    cell_id(#[trigger] region@[i]).0,
                                    cell_id(region@[i]).1,
                                ) is None,
                            owner matches Some(p) ==> comp.contains(fw) && self.cell(fw.0, fw.1)
                                == Some(p),
                            !multiple ==> (owner matches Some(p) ==> forall|i: int|
                                0 <= i < k ==> (self.cell(
                                    cell_id(#[trigger] region@[i]).0,
                                    cell_id(region@[i]).1,
                                ) is None || self.cell(
                                    cell_id(region@[i]).0,
                                    cell_id(region@[i]).1,
                                ) == Some(p))),
                            multiple ==> comp.contains(ga) && comp.contains(gb) && self.cell(
                                ga.0,
                                ga.1,
                            ) is Some && self.cell(gb.0, gb.1) is Some && self.cell(ga.0, ga.1)
                                != self.cell(gb.0, gb.1),
                        decreases region@.len() - k,
                    {
                        let cell = region[k];
                        match self.cell_at(cell.0, cell.1) {
                            Some(p) => {
                                match owner {
                                    None => {
                                        owner = Some(p);
                                        proof {
                                            fw = cell_id(cell);
                                        }
                                    },
                                    Some(q) => {
                                        if q != p && !multiple {
                                            multiple = true;
                                            proof {
                                                ga = fw;
                                                gb = cell_id(cell);
                                            }
                                        }
                                    },
                                }
                            },
                            None => {},
                        }
                        k = k + 1;
                    }
                    let sole = if multiple {
                        None
                    } else {
                        owner
                    };
                    proof {
                        lemma_seq_cells_len(region@);
                        self.lemma_grid_len();
                        assert(comp.subset_of(self.grid()));
                    }
                    if let Some(p) = sole {
                        proof {
                            // the whole region is scored for its sole owner
                            assert forall|x: (int, int)| comp.contains(x) implies #[trigger] self.score_set(p).contains(x) by {
                                let i = choose|i: int|
                                    0 <= i < region@.len() && cell_id(region@[i]) == x;
                                self.lemma_connected_sym(seed, x);
                                self.lemma_connected_trans(x, seed, fw);
                                assert(self.connected(x, fw) && self.cell(fw.0, fw.1) == Some(p));
                                assert forall|y: (int, int)|
                                    #[trigger] self.connected(x, y) && self.cell(y.0, y.1)
                                        is Some implies self.cell(y.0, y.1) == Some(p) by {
                                    self.lemma_connected_trans(seed, x, y);
                                    assert(comp.contains(y));
                                    let j = choose|j: int|
                                        0 <= j < region@.len() && cell_id(region@[j]) == y;
                                }
                            }
                            // and for nobody else
                            assert forall|q: usize, x: (int, int)|
                                q != p && #[trigger] self.score_set(q).contains(x) implies !comp.contains(x) by {
                                if comp.contains(x) {
                                    self.lemma_connected_sym(seed, x);
                                    self.lemma_connected_trans(x, seed, fw);
                                    assert(self.cell(fw.0, fw.1) == Some(q));
                                }
                            }
                            assert(self.cell(fw.0, fw.1) == Some(p));
                            assert(self.in_bounds(fw.0, fw.1)) by {
                                let i = choose|i: int|
                                    0 <= i < region@.len() && cell_id(region@[i]) == fw;
                            }
                            assert(p < self.num_players);
                            let a = self.score_set(p).intersect(vis0);
                            let vis = self.vis_set(visited);
                            assert(a.finite());
                            assert(a.disjoint(comp));
                            vstd::set_lib::lemma_set_disjoint_lens(a, comp);
                            assert(self.score_set(p).intersect(vis) =~= a + comp);
                            vstd::set_lib::lemma_len_subset(
                                self.score_set(p).intersect(vis),
                                self.grid(),
                            );
                        }
                        let cur = scores[p];
                        let add = region.len();
                        scores[p] = cur + add;
                        proof {
                            assert forall|q: usize| q < self.num_players implies scores@[q as int]
                                == self.score_set(q).intersect(self.vis_set(visited)).len() by {
                                if q != p {
                                    assert(self.score_set(q).intersect(self.vis_set(visited)) =~= self.score_set(q).intersect(vis0));
                                }
                            }
                        }
                    } else {
                        proof {
                            // a region with no piece or mixed pieces is scored for nobody
                            assert forall|q: usize, x: (int, int)| #[trigger]
                                self.score_set(q).contains(x) implies !comp.contains(x) by {
                                if comp.contains(x) {
                                    self.lemma_connected_sym(seed, x);
                                    if multiple {
                                        self.lemma_connected_trans(x, seed, ga);
                                        self.lemma_connected_trans(x, seed, gb);
                                        assert(self.cell(ga.0, ga.1) == Some(q));
                                        assert(self.cell(gb.0, gb.1) == Some(q));
                                    } else {
                                        let y = choose|y: (int, int)| #[trigger]
                                            self.connected(x, y) && self.cell(y.0, y.1) == Some(q);
                                        self.lemma_connected_trans(seed, x, y);
                                        assert(comp.contains(y));
                                        let j = choose|j: int|
                                            0 <= j < region@.len() && cell_id(region@[j]) == y;
                                    }
                                }
                            }
                            assert forall|q: usize| q < self.num_players implies scores@[q as int]
                                == self.score_set(q).intersect(self.vis_set(visited)).len() by {
                                assert(self.score_set(q).intersect(self.vis_set(visited)) =~= self.score_set(q).intersect(vis0));
                            }
                        }
                    }
                }
                c = c + 1;
            }
            r = r + 1;
        }
        proof {
            assert forall|p: usize| p < self.num_players implies scores@[p as int]
                == self.score_set(p).len() by {
                assert(self.score_set(p).intersect(self.vis_set(visited)) =~= self.score_set(p))
                    by {
                    assert forall|x: (int, int)| #[trigger]
                        self.score_set(p).contains(x) implies self.vis_set(visited).contains(
                        x,
                    ) by {
                        assert(self.in_bounds(x.0, x.1));
                    }
                }
            }
        }
        scores
    }
}

impl GameState {
    /// Whether the board is isolated depends only on the terrain: the cell
    /// owners, the board side and the wall sets. The turn bookkeeping plays
    /// no part.
    pub proof fn lemma_isolated_same_terrain(s1: GameState, s2: GameState)
        requires
            s1.board_size == s2.board_size,
            s1.board@ == s2.board@,
            s1.walls_h@ == s2.walls_h@,
            s1.walls_v@ == s2.walls_v@,
        ensures
            s1.isolated() == s2.isolated(),
    {
        assert forall|a: (int, int), b: (int, int)| #[trigger]
            s1.connected(a, b) == s2.connected(a, b) by {
            if s1.connected(a, b) {
                let p = choose|p: Seq<(int, int)>| s1.path_connects(p, a, b);
                assert(s2.path_connects(p, a, b)) by {
                    assert forall|i: int| 0 <= i < p.len() - 1 implies s2.edge_open(
                        (#[trigger] p[i]).0,
                        p[i].1,
                        p[i + 1].0,
                        p[i + 1].1,
                    ) by {
                        assert(s1.edge_open(p[i].0, p[i].1, p[i + 1].0, p[i + 1].1));
                    }
                }
            }
            if s2.connected(a, b) {
                let p = choose|p: Seq<(int, int)>| s2.path_connects(p, a, b);
                assert(s1.path_connects(p, a, b)) by {
                    assert forall|i: int| 0 <= i < p.len() - 1 implies s1.edge_open(
                        (#[trigger] p[i]).0,
                        p[i].1,
                        p[i + 1].0,
                        p[i + 1].1,
                    ) by {
                        assert(s2.edge_open(p[i].0, p[i].1, p[i + 1].0, p[i + 1].1));
                    }
                }
            }
        }
        assert(s1.isolated() == s2.isolated()) by {
            if s1.isolated() {
                assert forall|a: (int, int), b: (int, int)|
                    s2.piece_at(a) && s2.piece_at(b) && #[trigger] s2.connected(a, b) implies
                    s2.cell(a.0, a.1) == s2.cell(b.0, b.1) by {
                    assert(s1.connected(a, b));
                }
            }
            if s2.isolated() {
                assert forall|a: (int, int), b: (int, int)|
                    s1.piece_at(a) && s1.piece_at(b) && #[trigger] s1.connected(a, b) implies
                    s1.cell(a.0, a.1) == s1.cell(b.0, b.1) by {
                    assert(s2.connected(a, b));
                }
            }
        }
    }
}

/// A list of `n` counters, all zero.
fn zero_counts(n: usize) -> (v: Vec<usize>)
    ensures
        v@.len() == n,
        forall|i: int| 0 <= i < n ==> v@[i] == 0,
{
    let mut v: Vec<usize> = Vec::new();
    let mut i: usize = 0;
    while i < n
        invariant
            i <= n,
            v@.len() == i,
            forall|j: int| 0 <= j < i ==> v@[j] == 0,
        decreases n - i,
    {
        v.push(0);
        i = i + 1;
    }
    v
}

/// A square matrix of side `n` with every flag clear.
fn false_grid(n: usize) -> (v: Vec<Vec<bool>>)
    ensures
        v@.len() == n,
        forall|r: int| 0 <= r < n ==> (#[trigger] v@[r])@.len() == n,
        forall|r: int, c: int| 0 <= r < n && 0 <= c < n ==> !v@[r]@[c],
{
    let mut v: Vec<Vec<bool>> = Vec::new();
    let mut r: usize = 0;
    while r < n
        invariant
            r <= n,
            v@.len() == r,
            forall|i: int| 0 <= i < r ==> (#[trigger] v@[i])@.len() == n,
            forall|i: int, c: int| 0 <= i < r && 0 <= c < n ==> !v@[i]@[c],
        decreases n - r,
    {
        let mut row: Vec<bool> = Vec::new();
        let mut c: usize = 0;
        while c < n
            invariant
                c <= n,
                row@.len() == c,
                forall|j: int| 0 <= j < c ==> !row@[j],
            decreases n - c,
        {
            row.push(false);
            c = c + 1;
        }
        v.push(row);
        r = r + 1;
    }
    v
}

/// Cells of the rows `[0, r)` of an `n`-column board.
pub open spec fn rows_cells(r: int, n: int) -> Set<(int, int)> {
    Set::new(|x: (int, int)| 0 <= x.0 < r && 0 <= x.1 < n)
}

/// Cells of the single row `r` of an `n`-column board.
pub open spec fn one_row_cells(r: int, n: int) -> Set<(int, int)> {
    Set::new(|x: (int, int)| x.0 == r && 0 <= x.1 < n)
}

/// One row holds `n` cells.
pub proof fn lemma_one_row_len(r: int, n: int)
    requires
        0 <= n,
    ensures
        one_row_cells(r, n).finite(),
        one_row_cells(r, n).len() == n,
    decreases n,
{
    if n == 0 {
        assert(one_row_cells(r, 0) =~= Set::<(int, int)>::empty());
    } else {
        lemma_one_row_len(r, n - 1);
        assert(one_row_cells(r, n) =~= one_row_cells(r, n - 1).insert((r, n - 1)));
    }
}

/// `r` rows of `n` cells hold `r * n` cells.
pub proof fn lemma_rows_len(r: int, n: int)
    requires
        0 <= r,
        0 <= n,
    ensures
        rows_cells(r, n).finite(),
        rows_cells(r, n).len() == r * n,
    decreases r,
{
    if r == 0 {
        assert(rows_cells(0, n) =~= Set::<(int, int)>::empty());
    } else {
        lemma_rows_len(r - 1, n);
        lemma_one_row_len(r - 1, n);
        assert(rows_cells(r, n) =~= rows_cells(r - 1, n) + one_row_cells(r - 1, n));
        assert(rows_cells(r - 1, n).disjoint(one_row_cells(r - 1, n)));
        vstd::set_lib::lemma_set_disjoint_lens(rows_cells(r - 1, n), one_row_cells(r - 1, n));
        assert((r - 1) * n + n == r * n) by (nonlinear_arith);
    }
}

/// Appending a fresh element keeps a sequence duplicate-free.
pub proof fn lemma_push_no_dup<T>(s: Seq<T>, x: T)
    requires
        s.no_duplicates(),
        !s.contains(x),
    ensures
        s.push(x).no_duplicates(),
{
    let t = s.push(x);
    assert forall|i: int, j: int|
        0 <= i < t.len() && 0 <= j < t.len() && i != j implies t[i] != t[j] by {
        if i < s.len() && j < s.len() {
            assert(t[i] == s[i] && t[j] == s[j]);
        } else if j == s.len() {
            assert(t[j] == x && t[i] == s[i]);
            if s[i] == x {
                assert(s.contains(x));
            }
        } else {
            assert(t[i] == x && t[j] == s[j]);
            if s[j] == x {
                assert(s.contains(x));
            }
        }
    }
}

/// A duplicate-free list of coordinates covers exactly as many cells as it
/// has entries.
pub proof fn lemma_seq_cells_len(s: Seq<(usize, usize)>)
    requires
        s.no_duplicates(),
    ensures
        seq_cells(s).finite(),
        seq_cells(s).len() == s.len(),
    decreases s.len(),
{
    if s.len() == 0 {
        assert(seq_cells(s) =~= Set::<(int, int)>::empty());
    } else {
        let q = s.drop_last();
        let last = s.last();
        assert(q.no_duplicates());
        lemma_seq_cells_len(q);
        assert(!seq_cells(q).contains(cell_id(last))) by {
            if seq_cells(q).contains(cell_id(last)) {
                let i = choose|i: int| 0 <= i < q.len() && cell_id(q[i]) == cell_id(last);
                assert(s[i] == s[s.len() - 1]);
            }
        }
        assert forall|z: (int, int)| #[trigger]
            seq_cells(s).contains(z) <==> seq_cells(q).insert(cell_id(last)).contains(z) by {
            if seq_cells(s).contains(z) {
                let i = choose|i: int| 0 <= i < s.len() && cell_id(s[i]) == z;
                if i < q.len() {
                    assert(cell_id(q[i]) == z);
                } else {
                    assert(z == cell_id(last));
                }
            }
            if seq_cells(q).contains(z) {
                let i = choose|i: int| 0 <= i < q.len() && cell_id(q[i]) == z;
                assert(cell_id(s[i]) == z);
            }
            if z == cell_id(last) {
                assert(cell_id(s[s.len() - 1]) == z);
            }
        }
        assert(seq_cells(s) =~= seq_cells(q).insert(cell_id(last)));
    }
}

} // verus!
