//! The executable grid: squares with four wall flags, mirrored wall
//! mutation, and the whole-grid reachability check.

use crate::model::{
    lemma_all_open_connected, lemma_cell_index_bounds, lemma_index_to_pos,
    lemma_pos_index_roundtrip, lemma_reach_step, lemma_with_wall_wf, opposite, step_x, step_z,
    GridModel,
};
use vstd::prelude::*;

verus! {

/// How many entries of `s` are set.
spec fn count_true(s: Seq<bool>) -> int
    decreases s.len(),
{
    if s.len() == 0 {
        0
    } else {
        count_true(s.drop_last()) + if s.last() {
            1int
        } else {
            0int
        }
    }
}

proof fn lemma_count_true_le_len(s: Seq<bool>)
    ensures
        0 <= count_true(s) <= s.len(),
    decreases s.len(),
{
    if s.len() > 0 {
        lemma_count_true_le_len(s.drop_last());
    }
}

proof fn lemma_count_true_none(s: Seq<bool>)
    requires
        forall|k: int| 0 <= k < s.len() ==> !(#[trigger] s[k]),
    ensures
        count_true(s) == 0,
    decreases s.len(),
{
    if s.len() > 0 {
        lemma_count_true_none(s.drop_last());
    }
}

proof fn lemma_count_true_update(s: Seq<bool>, i: int)
    requires
        0 <= i < s.len(),
        !s[i],
    ensures
        count_true(s.update(i, true)) == count_true(s) + 1,
    decreases s.len(),
{
    let t = s.update(i, true);
    if i == s.len() - 1 {
        assert(t.drop_last() =~= s.drop_last());
    } else {
        assert(t.drop_last() =~= s.drop_last().update(i, true));
        assert(t.last() == s.last());
        lemma_count_true_update(s.drop_last(), i);
    }
}

proof fn lemma_count_true_full(s: Seq<bool>)
    requires
        count_true(s) == s.len(),
    ensures
        forall|k: int| 0 <= k < s.len() ==> s[k],
    decreases s.len(),
{
    if s.len() > 0 {
        lemma_count_true_le_len(s.drop_last());
        assert(s.last());
        lemma_count_true_full(s.drop_last());
        assert forall|k: int| 0 <= k < s.len() implies s[k] by {
            if k < s.len() - 1 {
                assert(s.drop_last()[k]);
            }
        }
    }
}

proof fn lemma_count_true_all(s: Seq<bool>)
    requires
        forall|k: int| 0 <= k < s.len() ==> s[k],
    ensures
        count_true(s) == s.len(),
    decreases s.len(),
{
    if s.len() > 0 {
        assert forall|k: int| 0 <= k < s.drop_last().len() implies s.drop_last()[k] by {
            assert(s[k]);
        }
        lemma_count_true_all(s.drop_last());
        assert(s.last());
    }
}

/// Cell `(x, z)` is marked in the visit array `vs`.
spec fn marked(m: GridModel, vs: Seq<bool>, x: int, z: int) -> bool {
    vs[x * m.depth + z]
}

/// Every open neighbor of `(x, z)` is marked in `vs`.
spec fn dir_closed(m: GridModel, vs: Seq<bool>, x: int, z: int) -> bool {
    forall|d: int|
        0 <= d < 4 && m.has_neighbor(x, z, d) && !m.wall(x, z, d) ==> marked(
            m,
            vs,
            step_x(x, d),
            step_z(z, d),
        )
}

/// Cell `(x, z)` occurs in the work stack `st`.
spec fn on_stack(st: Seq<(usize, usize)>, x: int, z: int) -> bool {
    exists|k: int| 0 <= k < st.len() && (#[trigger] st[k]).0 as int == x && st[k].1 as int == z
}

/// Every marked cell other than `(x, z)` is either still on the work stack
/// or already closed in every direction.  `(x, z)` is the cell whose
/// neighbors are being processed.
spec fn closed_except(m: GridModel, vs: Seq<bool>, st: Seq<(usize, usize)>, x: int, z: int) -> bool {
    forall|a: int, b: int|
        m.valid_pos(a, b) && #[trigger] marked(m, vs, a, b) && !(a == x && b == z) ==> on_stack(
            st,
            a,
            b,
        ) || dir_closed(m, vs, a, b)
}

/// A cell on the stack stays on it when the stack only grew at the top.
proof fn lemma_on_stack_prefix(st1: Seq<(usize, usize)>, st2: Seq<(usize, usize)>, a: int, b: int)
    requires
        on_stack(st1, a, b),
        st1.len() <= st2.len(),
        forall|k: int| 0 <= k < st1.len() ==> st2[k] == st1[k],
    ensures
        on_stack(st2, a, b),
{
    let k = choose|k: int|
        0 <= k < st1.len() && (#[trigger] st1[k]).0 as int == a && st1[k].1 as int == b;
    assert(st2[k] == st1[k]);
}

/// Popping the top cell of the stack keeps every other marked cell covered:
/// it is still on the remaining stack, or it was already closed.
proof fn lemma_pop_closed(m: GridModel, vs0: Seq<bool>, st0: Seq<(usize, usize)>, xi: int, zi: int)
    requires
        st0.len() >= 1,
        st0.last().0 as int == xi,
        st0.last().1 as int == zi,
        forall|a: int, b: int|
            m.valid_pos(a, b) && #[trigger] marked(m, vs0, a, b) ==> on_stack(st0, a, b)
                || dir_closed(m, vs0, a, b),
    ensures
        closed_except(m, vs0, st0.drop_last(), xi, zi),
{
    let st1 = st0.drop_last();
    assert forall|a: int, b: int|
        m.valid_pos(a, b) && #[trigger] marked(m, vs0, a, b) && !(a == xi && b
        == zi) implies on_stack(st1, a, b) || dir_closed(m, vs0, a, b) by {
        if on_stack(st0, a, b) {
            let k = choose|k: int|
                0 <= k < st0.len() && (#[trigger] st0[k]).0 as int == a && st0[k].1 as int == b;
            assert(k < st0.len() - 1);
            assert(st1[k] == st0[k]);
            assert(on_stack(st1, a, b));
        }
    }
}

/// After the four directional visits of the popped cell, the marked set is
/// again fully covered: the popped cell is closed in every direction, and
/// every other marked cell is on the stack or closed.
proof fn lemma_merge_closure(
    m: GridModel,
    vs_a: Seq<bool>,
    vs_b: Seq<bool>,
    vs_c: Seq<bool>,
    vs: Seq<bool>,
    st: Seq<(usize, usize)>,
    xi: int,
    zi: int,
)
    requires
        m.wf(),
        m.valid_pos(xi, zi),
        forall|a: int, b: int|
            m.valid_pos(a, b) && #[trigger] marked(m, vs_a, a, b) ==> marked(m, vs_b, a, b),
        forall|a: int, b: int|
            m.valid_pos(a, b) && #[trigger] marked(m, vs_b, a, b) ==> marked(m, vs_c, a, b),
        forall|a: int, b: int|
            m.valid_pos(a, b) && #[trigger] marked(m, vs_c, a, b) ==> marked(m, vs, a, b),
        m.has_neighbor(xi, zi, 0) && !m.wall(xi, zi, 0) ==> marked(
            m,
            vs_a,
            step_x(xi, 0),
            step_z(zi, 0),
        ),
        m.has_neighbor(xi, zi, 1) && !m.wall(xi, zi, 1) ==> marked(
            m,
            vs_b,
            step_x(xi, 1),
            step_z(zi, 1),
        ),
        m.has_neighbor(xi, zi, 2) && !m.wall(xi, zi, 2) ==> marked(
            m,
            vs_c,
            step_x(xi, 2),
            step_z(zi, 2),
        ),
        m.has_neighbor(xi, zi, 3) && !m.wall(xi, zi, 3) ==> marked(
            m,
            vs,
            step_x(xi, 3),
            step_z(zi, 3),
        ),
        closed_except(m, vs, st, xi, zi),
    ensures
        forall|a: int, b: int|
            m.valid_pos(a, b) && #[trigger] marked(m, vs, a, b) ==> on_stack(st, a, b)
                || dir_closed(m, vs, a, b),
{
    assert(dir_closed(m, vs, xi, zi)) by {
        assert forall|d: int|
            0 <= d < 4 && m.has_neighbor(xi, zi, d) && !m.wall(xi, zi, d) implies marked(
            m,
            vs,
            step_x(xi, d),
            step_z(zi, d),
        ) by {
            if d == 0 {
                assert(marked(m, vs_b, step_x(xi, 0), step_z(zi, 0)));
                assert(marked(m, vs_c, step_x(xi, 0), step_z(zi, 0)));
            } else if d == 1 {
                assert(marked(m, vs_c, step_x(xi, 1), step_z(zi, 1)));
            }
        }
    }
    assert forall|a: int, b: int|
        m.valid_pos(a, b) && #[trigger] marked(m, vs, a, b) implies on_stack(st, a, b)
        || dir_closed(m, vs, a, b) by {
        if a == xi && b == zi {
            assert(dir_closed(m, vs, a, b));
        }
    }
}

/// If the origin is marked and the marked set is closed under open steps,
/// then every open path from the origin ends in a marked cell.
proof fn lemma_path_visits(m: GridModel, vs: Seq<bool>, p: Seq<(int, int)>)
    requires
        m.wf(),
        marked(m, vs, 0, 0),
        forall|x: int, z: int|
            m.valid_pos(x, z) && #[trigger] marked(m, vs, x, z) ==> dir_closed(m, vs, x, z),
        m.is_path(p),
    ensures
        marked(m, vs, p.last().0, p.last().1),
    decreases p.len(),
{
    if p.len() == 1 {
        assert(p.last() == (0int, 0int));
    } else {
        let q = p.drop_last();
        assert forall|i: int|
            0 <= i < q.len() - 1 implies m.open_step(
            (#[trigger] q[i]).0,
            q[i].1,
            q[i + 1].0,
            q[i + 1].1,
        ) by {
            assert(q[i] == p[i]);
            assert(q[i + 1] == p[i + 1]);
            assert(m.open_step(p[i].0, p[i].1, p[i + 1].0, p[i + 1].1));
        }
        assert(m.is_path(q));
        lemma_path_visits(m, vs, q);
        let a = p[p.len() - 2];
        let b = p[p.len() - 1];
        assert(q.last() == a);
        assert(m.open_step(a.0, a.1, b.0, b.1));
        assert(dir_closed(m, vs, a.0, a.1));
        if b.0 == a.0 + 1 && b.1 == a.1 && !m.wall(a.0, a.1, 0) {
            assert(marked(m, vs, step_x(a.0, 0), step_z(a.1, 0)));
        } else if b.0 == a.0 && b.1 == a.1 + 1 && !m.wall(a.0, a.1, 1) {
            assert(marked(m, vs, step_x(a.0, 1), step_z(a.1, 1)));
        } else if b.0 == a.0 - 1 && b.1 == a.1 && !m.wall(a.0, a.1, 2) {
            assert(marked(m, vs, step_x(a.0, 2), step_z(a.1, 2)));
        } else {
            assert(marked(m, vs, step_x(a.0, 3), step_z(a.1, 3)));
        }
    }
}

/// One grid cell: its coordinates and its four directional wall flags.
#[derive(Clone, Copy)]
pub struct Square {
    wall_xp: bool,
    wall_zp: bool,
    wall_xn: bool,
    wall_zn: bool,
    x: usize,
    z: usize,
}

impl Square {
    /// The wall flag in direction `d`.
    pub closed spec fn spec_wall(self, d: int) -> bool {
        if d == 0 {
            self.wall_xp
        } else if d == 1 {
            self.wall_zp
        } else if d == 2 {
            self.wall_xn
        } else {
            self.wall_zn
        }
    }

    /// The x coordinate of the square.
    pub closed spec fn spec_x(self) -> int {
        self.x as int
    }

    /// The z coordinate of the square.
    pub closed spec fn spec_z(self) -> int {
        self.z as int
    }

    /// A square at `(x, z)` with the given wall flags, indexed by direction.
    pub fn new_walls(x: usize, z: usize, walls: [bool; 4]) -> (sq: Square)
        ensures
            sq.spec_x() == x,
            sq.spec_z() == z,
            forall|d: int| 0 <= d < 4 ==> #[trigger] sq.spec_wall(d) == walls@[d],
    {
        Square { wall_xp: walls[0], wall_zp: walls[1], wall_xn: walls[2], wall_zn: walls[3], x, z }
    }

    /// A square at `(x, z)` with all four walls open.
    pub fn new(x: usize, z: usize) -> (sq: Square)
        ensures
            sq.spec_x() == x,
            sq.spec_z() == z,
            forall|d: int| 0 <= d < 4 ==> !(#[trigger] sq.spec_wall(d)),
    {
        Square { wall_xp: false, wall_zp: false, wall_xn: false, wall_zn: false, x, z }
    }

    /// Reads the wall flag in direction `index`.
    pub fn has_wall(&self, index: usize) -> (r: bool)
        requires
            index < 4,
        ensures
            r == self.spec_wall(index as int),
    {
        if index == 0 {
            self.wall_xp
        } else if index == 1 {
            self.wall_zp
        } else if index == 2 {
            self.wall_xn
        } else {
            self.wall_zn
        }
    }

    /// Sets the wall flag in direction `index` to `new_value`, leaving the
    /// other flags and the coordinates unchanged.
    pub fn set_wall(&mut self, index: usize, new_value: bool)
        requires
            index < 4,
        ensures
            final(self).spec_x() == old(self).spec_x(),
            final(self).spec_z() == old(self).spec_z(),
            forall|d: int|
                0 <= d < 4 ==> #[trigger] final(self).spec_wall(d) == if d == index {
                    new_value
                } else {
                    old(self).spec_wall(d)
                },
    {
        if index == 0 {
            self.wall_xp = new_value;
        } else if index == 1 {
            self.wall_zp = new_value;
        } else if index == 2 {
            self.wall_xn = new_value;
        } else {
            self.wall_zn = new_value;
        }
    }

    /// The x coordinate of the square.
    pub fn x(&self) -> (r: usize)
        ensures
            r == self.spec_x(),
    {
        self.x
    }

    /// The z coordinate of the square.
    pub fn z(&self) -> (r: usize)
        ensures
            r == self.spec_z(),
    {
        self.z
    }
}

/// The complete rectangular array of squares, stored row-major: the square
/// at `(x, z)` lives at index `x * depth + z`.
pub struct Grid {
    squares: Vec<Square>,
    width: usize,
    depth: usize,
}

impl View for Grid {
    type V = GridModel;

    closed spec fn view(&self) -> GridModel {
        GridModel {
            width: self.width as int,
            depth: self.depth as int,
            walls: Map::new(
                |t: (int, int, int)|
                    0 <= t.0 < self.width as int && 0 <= t.1 < self.depth as int && 0 <= t.2 < 4,
                |t: (int, int, int)| self.squares@[t.0 * (self.depth as int) + t.1].spec_wall(t.2),
            ),
        }
    }
}

impl Grid {
    /// Well-formedness: positive dimensions, one square per cell in
    /// row-major order with matching coordinates, and mirrored walls.
    pub closed spec fn inv(self) -> bool {
        &&& self.width >= 1
        &&& self.depth >= 1
        &&& self.squares@.len() == self.width * self.depth
        &&& forall|k: int|
            0 <= k < self.squares@.len() ==> (#[trigger] self.squares@[k]).spec_x() == k / (
            self.depth as int) && self.squares@[k].spec_z() == k % (self.depth as int)
        &&& self@.mirrored()
    }

    /// A well-formed grid has a well-formed model.
    pub proof fn lemma_inv_wf(self)
        requires
            self.inv(),
        ensures
            self@.wf(),
    {
        assert forall|x: int, z: int, d: int| #[trigger]
            self@.walls.dom().contains((x, z, d)) <==> self@.valid_triple(x, z, d) by {}
    }

    /// The row-major index of `(x, z)`, in range for the square array.
    fn index_of(&self, x: usize, z: usize) -> (i: usize)
        requires
            self.inv(),
            x < self@.width,
            z < self@.depth,
        ensures
            i == x * self@.depth + z,
            i < self.squares@.len(),
    {
        let total = self.squares.len();
        proof {
            lemma_cell_index_bounds(self.width as int, self.depth as int, x as int, z as int);
        }
        x * self.depth + z
    }

    /// The number of cells along the x axis.
    pub fn width(&self) -> (r: usize)
        requires
            self.inv(),
        ensures
            r == self@.width,
            r >= 1,
    {
        self.width
    }

    /// The number of cells along the z axis.
    pub fn depth(&self) -> (r: usize)
        requires
            self.inv(),
        ensures
            r == self@.depth,
            r >= 1,
    {
        self.depth
    }

    /// A grid of `x` by `z` cells with every wall open.  Such a grid is
    /// trivially connected.
    pub fn new(x: usize, z: usize) -> (g: Grid)
        requires
            1 <= x,
            1 <= z,
            x * z <= usize::MAX,
        ensures
            g.inv(),
            g@.wf(),
            g@.width == x,
            g@.depth == z,
            forall|a: int, b: int, c: int|
                g@.valid_triple(a, b, c) ==> !(#[trigger] g@.wall(a, b, c)),
            g@.connected(),
    {
        let n = x * z;
        let mut squares: Vec<Square> = Vec::new();
        let mut i: usize = 0;
        while i < n
            invariant
                i <= n,
                n == x * z,
                1 <= z,
                squares@.len() == i,
                forall|k: int|
                    0 <= k < i ==> (#[trigger] squares@[k]).spec_x() == k / (z as int)
                        && squares@[k].spec_z() == k % (z as int),
                forall|k: int, d: int|
                    0 <= k < i && 0 <= d < 4 ==> !(#[trigger] squares@[k].spec_wall(d)),
            decreases n - i,
        {
            let xi = i / z;
            let zi = i % z;
            squares.push(Square::new(xi, zi));
            i = i + 1;
        }
        let g = Grid { squares, width: x, depth: z };
        proof {
            assert forall|a: int, b: int, c: int|
                g@.valid_triple(a, b, c) implies !(#[trigger] g@.wall(a, b, c)) by {
                lemma_cell_index_bounds(x as int, z as int, a, b);
            }
            assert(g.inv());
            g.lemma_inv_wf();
            lemma_all_open_connected(g@);
        }
        g
    }

    /// Visits the neighbor of `(x, z)` in direction `d` during the
    /// reachability traversal: when that neighbor exists, the wall toward it
    /// is open, and it is not yet marked, it is marked, counted, and pushed
    /// onto the work stack.
    fn visit_neighbor(
        &self,
        visited: &mut Vec<bool>,
        stack: &mut Vec<(usize, usize)>,
        count: &mut usize,
        x: usize,
        z: usize,
        d: usize,
    )
        requires
            self.inv(),
            self@.valid_triple(x as int, z as int, d as int),
            self@.reachable(x as int, z as int),
            old(visited)@.len() == self@.width * self@.depth,
            *old(count) == count_true(old(visited)@),
            forall|k: int|
                0 <= k < old(stack)@.len() ==> self@.valid_pos(
                    (#[trigger] old(stack)@[k]).0 as int,
                    old(stack)@[k].1 as int,
                ) && marked(self@, old(visited)@, old(stack)@[k].0 as int, old(stack)@[k].1 as int),
            forall|a: int, b: int|
                self@.valid_pos(a, b) && #[trigger] marked(self@, old(visited)@, a, b)
                    ==> self@.reachable(a, b),
            closed_except(self@, old(visited)@, old(stack)@, x as int, z as int),
        ensures
            final(visited)@.len() == old(visited)@.len(),
            *final(count) == count_true(final(visited)@),
            *old(count) <= *final(count) <= old(visited)@.len(),
            forall|a: int, b: int|
                self@.valid_pos(a, b) && #[trigger] marked(self@, old(visited)@, a, b) ==> marked(
                    self@,
                    final(visited)@,
                    a,
                    b,
                ),
            old(stack)@.len() <= final(stack)@.len(),
            final(stack)@.len() > old(stack)@.len() ==> *final(count) > *old(count),
            forall|k: int|
                0 <= k < final(stack)@.len() ==> self@.valid_pos(
                    (#[trigger] final(stack)@[k]).0 as int,
                    final(stack)@[k].1 as int,
                ) && marked(
                    self@,
                    final(visited)@,
                    final(stack)@[k].0 as int,
                    final(stack)@[k].1 as int,
                ),
            forall|a: int, b: int|
                self@.valid_pos(a, b) && #[trigger] marked(self@, final(visited)@, a, b)
                    ==> self@.reachable(a, b),
            closed_except(self@, final(visited)@, final(stack)@, x as int, z as int),
            self@.has_neighbor(x as int, z as int, d as int) && !self@.wall(
                x as int,
                z as int,
                d as int,
            ) ==> marked(
                self@,
                final(visited)@,
                step_x(x as int, d as int),
                step_z(z as int, d as int),
            ),
    {
        let ghost m = self@;
        let ghost dep = m.depth;
        let ghost xi = x as int;
        let ghost zi = z as int;
        let ghost di = d as int;
        proof {
            self.lemma_inv_wf();
            lemma_count_true_le_len(visited@);
        }
        let n_cells = visited.len();
        proof {
            // the counter stays at or below the cell count, so the
            // increment below cannot overflow
            assert(*count <= n_cells);
        }
        let nopt: Option<(usize, usize)> = if d == 0 {
            if x + 1 < self.width() {
                Some((x + 1, z))
            } else {
                None
            }
        } else if d == 1 {
            if z + 1 < self.depth() {
                Some((x, z + 1))
            } else {
                None
            }
        } else if d == 2 {
            if x > 0 {
                Some((x - 1, z))
            } else {
                None
            }
        } else {
            if z > 0 {
                Some((x, z - 1))
            } else {
                None
            }
        };
        proof {
            assert(m.has_neighbor(xi, zi, di) <==> nopt is Some);
        }
        match nopt {
            None => {},
            Some((nx, nz)) => {
                proof {
                    assert(nx as int == step_x(xi, di) && nz as int == step_z(zi, di));
                    lemma_cell_index_bounds(m.width, dep, nx as int, nz as int);
                    lemma_pos_index_roundtrip(dep, nx as int, nz as int);
                }
                if !self.get_wall(x, z, d) {
                    let ni = self.index_of(nx, nz);
                    if !visited[ni] {
                        proof {
                            lemma_count_true_update(visited@, ni as int);
                            lemma_count_true_le_len(visited@.update(ni as int, true));
                            assert(m.open_step(xi, zi, nx as int, nz as int));
                            lemma_reach_step(m, xi, zi, nx as int, nz as int);
                        }
                        let ghost vs0 = visited@;
                        let ghost st0 = stack@;
                        visited.set(ni, true);
                        *count = *count + 1;
                        stack.push((nx, nz));
                        proof {
                            assert(marked(m, visited@, nx as int, nz as int));
                            assert(stack@[stack@.len() - 1] == (nx, nz));
                            assert(on_stack(stack@, nx as int, nz as int));
                            assert forall|a: int, b: int|
                                m.valid_pos(a, b) && #[trigger] marked(m, visited@, a, b)
                                    && !marked(m, vs0, a, b) implies a == nx as int && b
                                == nz as int by {
                                lemma_cell_index_bounds(m.width, dep, a, b);
                                lemma_pos_index_roundtrip(dep, a, b);
                                assert(visited@ == vs0.update(ni as int, true));
                                assert(a * dep + b == ni as int);
                            }
                            assert forall|a: int, b: int|
                                m.valid_pos(a, b) && #[trigger] marked(m, visited@, a, b)
                                    implies m.reachable(a, b) by {
                                if !marked(m, vs0, a, b) {
                                    assert(a == nx as int && b == nz as int);
                                }
                            }
                            assert forall|a: int, b: int|
                                m.valid_pos(a, b) && #[trigger] marked(m, vs0, a, b)
                                    implies marked(m, visited@, a, b) by {
                                lemma_cell_index_bounds(m.width, dep, a, b);
                            }
                            assert forall|k: int|
                                0 <= k < stack@.len() implies m.valid_pos(
                                (#[trigger] stack@[k]).0 as int,
                                stack@[k].1 as int,
                            ) && marked(
                                m,
                                visited@,
                                stack@[k].0 as int,
                                stack@[k].1 as int,
                            ) by {
                                if k < st0.len() {
                                    assert(stack@[k] == st0[k]);
                                    lemma_cell_index_bounds(
                                        m.width,
                                        dep,
                                        st0[k].0 as int,
                                        st0[k].1 as int,
                                    );
                                    assert(marked(m, vs0, st0[k].0 as int, st0[k].1 as int));
                                } else {
                                    assert(stack@[k] == (nx, nz));
                                }
                            }
                            assert(closed_except(m, visited@, stack@, xi, zi)) by {
                                assert forall|a: int, b: int|
                                    m.valid_pos(a, b) && #[trigger] marked(m, visited@, a, b) && !(
                                    a == xi && b == zi) implies on_stack(stack@, a, b)
                                    || dir_closed(m, visited@, a, b) by {
                                    if !marked(m, vs0, a, b) {
                                        assert(a == nx as int && b == nz as int);
                                        assert(on_stack(stack@, a, b));
                                    } else if on_stack(st0, a, b) {
                                        lemma_on_stack_prefix(st0, stack@, a, b);
                                    } else {
                                        assert(dir_closed(m, vs0, a, b));
                                        assert forall|dd: int|
                                            0 <= dd < 4 && m.has_neighbor(a, b, dd) && !m.wall(
                                                a,
                                                b,
                                                dd,
                                            ) implies marked(
                                            m,
                                            visited@,
                                            step_x(a, dd),
                                            step_z(b, dd),
                                        ) by {
                                            lemma_cell_index_bounds(
                                                m.width,
                                                dep,
                                                step_x(a, dd),
                                                step_z(b, dd),
                                            );
                                            assert(marked(m, vs0, step_x(a, dd), step_z(b, dd)));
                                        }
                                    }
                                }
                            }
                        }
                    }
                }
            },
        }
        proof {
            if m.has_neighbor(xi, zi, di) {
                lemma_cell_index_bounds(m.width, dep, step_x(xi, di), step_z(zi, di));
                lemma_pos_index_roundtrip(dep, step_x(xi, di), step_z(zi, di));
            }
            if visited@ == old(visited)@ && stack@ == old(stack)@ {
                assert forall|k: int|
                    0 <= k < stack@.len() implies m.valid_pos(
                    (#[trigger] stack@[k]).0 as int,
                    stack@[k].1 as int,
                ) && marked(m, visited@, stack@[k].0 as int, stack@[k].1 as int) by {
                    assert(stack@[k] == old(stack)@[k]);
                    assert(marked(m, old(visited)@, stack@[k].0 as int, stack@[k].1 as int));
                }
                assert forall|a: int, b: int|
                    m.valid_pos(a, b) && #[trigger] marked(m, visited@, a, b)
                        implies m.reachable(a, b) by {
                    assert(marked(m, old(visited)@, a, b));
                }
                assert(closed_except(m, visited@, stack@, xi, zi)) by {
                    assert forall|a: int, b: int|
                        m.valid_pos(a, b) && #[trigger] marked(m, visited@, a, b) && !(a == xi && b
                        == zi) implies on_stack(stack@, a, b) || dir_closed(m, visited@, a, b) by {
                        assert(marked(m, old(visited)@, a, b));
                    }
                }
            }
        }
    }

    /// Whole-grid reachability check: reports whether every cell of the
    /// grid is reachable from the origin cell `(0, 0)` through open walls.
    /// The traversal order does not matter; only the set of visited cells
    /// does.
    #[verifier::rlimit(100)]
    pub fn is_valid(&self) -> (r: bool)
        requires
            self.inv(),
        ensures
            r == self@.connected(),
    {
        proof {
            self.lemma_inv_wf();
        }
        let ghost m = self@;
        let ghost dep = m.depth;
        let n = self.squares.len();
        let mut visited: Vec<bool> = Vec::new();
        let mut i: usize = 0;
        while i < n
            invariant
                i <= n,
                visited@.len() == i,
                forall|k: int| 0 <= k < i ==> !(#[trigger] visited@[k]),
            decreases n - i,
        {
            visited.push(false);
            i = i + 1;
        }
        proof {
            lemma_cell_index_bounds(m.width, dep, 0, 0);
            lemma_count_true_none(visited@);
            lemma_count_true_update(visited@, 0);
        }
        let origin = self.index_of(0, 0);
        visited.set(origin, true);
        let mut count: usize = 1;
        let mut stack: Vec<(usize, usize)> = Vec::new();
        stack.push((0, 0));
        proof {
            let p0: Seq<(int, int)> = seq![(0int, 0int)];
            assert(m.is_path(p0));
            assert(p0.last() == (0int, 0int));
            assert(m.reachable(0, 0));
            assert forall|a: int, b: int|
                m.valid_pos(a, b) && #[trigger] marked(m, visited@, a, b) implies m.reachable(
                a,
                b,
            ) by {
                lemma_cell_index_bounds(m.width, dep, a, b);
                lemma_pos_index_roundtrip(dep, a, b);
                lemma_pos_index_roundtrip(dep, 0, 0);
                assert(a * dep + b == 0 ==> a == 0 && b == 0);
            }
            assert(stack@[0] == (0usize, 0usize));
            assert(on_stack(stack@, 0, 0));
            assert forall|a: int, b: int|
                m.valid_pos(a, b) && #[trigger] marked(m, visited@, a, b) implies on_stack(
                stack@,
                a,
                b,
            ) || dir_closed(m, visited@, a, b) by {
                lemma_cell_index_bounds(m.width, dep, a, b);
                lemma_pos_index_roundtrip(dep, a, b);
                lemma_pos_index_roundtrip(dep, 0, 0);
                assert(a * dep + b == 0 ==> a == 0 && b == 0);
            }
        }
        while stack.len() > 0
            invariant
                self.inv(),
                m == self@,
                m.wf(),
                dep == m.depth,
                n == self.squares@.len(),
                n == m.width * m.depth,
                visited@.len() == n,
                count == count_true(visited@),
                count <= n,
                marked(m, visited@, 0, 0),
                forall|k: int|
                    0 <= k < stack@.len() ==> m.valid_pos(
                        (#[trigger] stack@[k]).0 as int,
                        stack@[k].1 as int,
                    ) && marked(m, visited@, stack@[k].0 as int, stack@[k].1 as int),
                forall|a: int, b: int|
                    m.valid_pos(a, b) && #[trigger] marked(m, visited@, a, b) ==> m.reachable(
                        a,
                        b,
                    ),
                forall|a: int, b: int|
                    m.valid_pos(a, b) && #[trigger] marked(m, visited@, a, b) ==> on_stack(
                        stack@,
                        a,
                        b,
                    ) || dir_closed(m, visited@, a, b),
            decreases n - count, stack@.len(),
        {
            let ghost vs0 = visited@;
            let ghost st0 = stack@;
            let top = stack.pop().unwrap();
            let x: usize = top.0;
            let z: usize = top.1;
            let ghost xi = x as int;
            let ghost zi = z as int;
            let ghost st1 = stack@;
            proof {
                assert(st0[st0.len() - 1] == top);
                assert(marked(m, vs0, xi, zi));
                assert(m.reachable(xi, zi));
                assert(st1 == st0.drop_last());
                lemma_pop_closed(m, vs0, st0, xi, zi);
            }
            self.visit_neighbor(&mut visited, &mut stack, &mut count, x, z, 0);
            let ghost vs_a = visited@;
            self.visit_neighbor(&mut visited, &mut stack, &mut count, x, z, 1);
            let ghost vs_b = visited@;
            self.visit_neighbor(&mut visited, &mut stack, &mut count, x, z, 2);
            let ghost vs_c = visited@;
            self.visit_neighbor(&mut visited, &mut stack, &mut count, x, z, 3);
            proof {
                assert(marked(m, vs_a, 0, 0));
                assert(marked(m, vs_b, 0, 0));
                assert(marked(m, vs_c, 0, 0));
                assert(marked(m, visited@, 0, 0));
                lemma_merge_closure(m, vs_a, vs_b, vs_c, visited@, stack@, xi, zi);
            }
        }
        proof {
            if count == n {
                lemma_count_true_full(visited@);
                assert forall|a: int, b: int|
                    m.valid_pos(a, b) implies #[trigger] m.reachable(a, b) by {
                    lemma_cell_index_bounds(m.width, dep, a, b);
                    assert(marked(m, visited@, a, b));
                }
                assert(m.connected());
            } else {
                if m.connected() {
                    assert forall|x: int, z: int|
                        m.valid_pos(x, z) && #[trigger] marked(m, visited@, x, z) implies
                    dir_closed(m, visited@, x, z) by {
                        assert(!on_stack(stack@, x, z));
                    }
                    assert forall|k: int| 0 <= k < visited@.len() implies #[trigger] visited@[k] by {
                        lemma_index_to_pos(m.width, m.depth, k);
                        let a = k / dep;
                        let b = k % dep;
                        assert(m.reachable(a, b));
                        let p = choose|p: Seq<(int, int)>| m.is_path(p) && p.last() == (a, b);
                        lemma_path_visits(m, visited@, p);
                        assert(marked(m, visited@, a, b));
                    }
                    lemma_count_true_all(visited@);
                    assert(false);
                }
            }
        }
        count == n
    }

    /// Sets the wall flag of cell `(x, z)` in direction `index` to
    /// `has_wall`, and mirrors the write onto the opposite flag of the
    /// neighbor in that direction whenever that neighbor exists.  This dual
    /// write is the only way wall state changes, and it keeps the mirror
    /// invariant intact after every call.
    pub fn set_wall(&mut self, x: usize, z: usize, index: usize, has_wall: bool)
        requires
            old(self).inv(),
            x < old(self)@.width,
            z < old(self)@.depth,
            index < 4,
        ensures
            final(self).inv(),
            final(self)@ == old(self)@.with_wall(x as int, z as int, index as int, has_wall),
            final(self)@.wf(),
            final(self)@.mirrored(),
    {
        proof {
            self.lemma_inv_wf();
        }
        let i = self.index_of(x, z);
        let neighbor: Option<(usize, usize)> = if index == 0 && x + 1 < self.width {
            Some((self.index_of(x + 1, z), 2))
        } else if index == 1 && z + 1 < self.depth {
            Some((self.index_of(x, z + 1), 3))
        } else if index == 2 && x > 0 {
            Some((self.index_of(x - 1, z), 0))
        } else if index == 3 && z > 0 {
            Some((self.index_of(x, z - 1), 1))
        } else {
            None
        };
        let mut sq = self.squares[i];
        sq.set_wall(index, has_wall);
        self.squares.set(i, sq);
        match neighbor {
            Some((j, od)) => {
                let mut nb = self.squares[j];
                nb.set_wall(od, has_wall);
                self.squares.set(j, nb);
            },
            None => {},
        }
        proof {
            let m0 = old(self)@;
            let dep = self.depth as int;
            let xi = x as int;
            let zi = z as int;
            let di = index as int;
            let target = m0.with_wall(xi, zi, di, has_wall);
            let nx = step_x(xi, di);
            let nz = step_z(zi, di);
            lemma_with_wall_wf(m0, xi, zi, di, has_wall);
            assert(m0.has_neighbor(xi, zi, di) <==> neighbor is Some);
            assert(self@.walls.dom() =~= target.walls.dom()) by {
                assert(m0.walls.dom().contains((xi, zi, di)));
                if m0.has_neighbor(xi, zi, di) {
                    assert(m0.walls.dom().contains((nx, nz, opposite(di))));
                }
            }
            assert forall|t: (int, int, int)| #[trigger]
                self@.walls.dom().contains(t) implies self@.walls[t] == target.walls[t] by {
                let a = t.0;
                let b = t.1;
                let c = t.2;
                lemma_cell_index_bounds(self.width as int, dep, a, b);
                lemma_pos_index_roundtrip(dep, a, b);
                lemma_pos_index_roundtrip(dep, xi, zi);
                if m0.has_neighbor(xi, zi, di) {
                    lemma_pos_index_roundtrip(dep, nx, nz);
                }
                assert(self@.walls[t] == self.squares@[a * dep + b].spec_wall(c));
            }
            assert(self@.walls =~= target.walls);
            assert(self@ =~= target);
            assert(self.inv()) by {
                assert forall|k: int|
                    0 <= k < self.squares@.len() implies (#[trigger] self.squares@[k]).spec_x()
                    == k / dep && self.squares@[k].spec_z() == k % dep by {
                    assert(old(self).squares@[k].spec_x() == k / dep);
                }
            }
        }
    }

    /// Reads the wall flag of cell `(x, z)` in direction `index`.
    pub fn get_wall(&self, x: usize, z: usize, index: usize) -> (r: bool)
        requires
            self.inv(),
            x < self@.width,
            z < self@.depth,
            index < 4,
        ensures
            r == self@.wall(x as int, z as int, index as int),
    {
        let i = self.index_of(x, z);
        self.squares[i].has_wall(index)
    }

    /// Seals the outer perimeter: sets the wall flag toward the grid
    /// exterior for every border cell (direction 3 at `z = 0`, direction 1
    /// at `z = depth - 1`, direction 2 at `x = 0`, direction 0 at
    /// `x = width - 1`).  Walls between cells are untouched, so
    /// connectivity is preserved; openings must be cleared afterwards by
    /// explicit `set_wall` calls.
    pub fn set_border_walls(&mut self)
        requires
            old(self).inv(),
        ensures
            final(self).inv(),
            final(self)@.wf(),
            final(self)@.width == old(self)@.width,
            final(self)@.depth == old(self)@.depth,
            forall|a: int, b: int, c: int|
                old(self)@.valid_triple(a, b, c) ==> final(self)@.wall(a, b, c) == (!old(
                    self,
                )@.has_neighbor(a, b, c) || old(self)@.wall(a, b, c)),
            old(self)@.connected() ==> final(self)@.connected(),
    {
        let ghost m0 = self@;
        let w = self.width();
        let dth = self.depth();
        let mut x: usize = 0;
        while x < w
            invariant
                self.inv(),
                x <= w,
                w == m0.width,
                dth == m0.depth,
                self@.width == m0.width,
                self@.depth == m0.depth,
                forall|a: int, b: int, c: int|
                    m0.valid_triple(a, b, c) ==> #[trigger] self@.wall(a, b, c) == (if c == 3 && b
                        == 0 && a < x {
                        true
                    } else if c == 1 && b == m0.depth - 1 && a < x {
                        true
                    } else {
                        m0.wall(a, b, c)
                    }),
            decreases w - x,
        {
            let ghost mp = self@;
            self.set_wall(x, 0, 3, true);
            let ghost mq = self@;
            self.set_wall(x, dth - 1, 1, true);
            proof {
                assert(!mp.has_neighbor(x as int, 0, 3));
                assert(!mq.has_neighbor(x as int, dth as int - 1, 1));
                assert forall|a: int, b: int, c: int|
                    m0.valid_triple(a, b, c) implies #[trigger] self@.wall(a, b, c) == (if c == 3
                    && b == 0 && a < x + 1 {
                    true
                } else if c == 1 && b == m0.depth - 1 && a < x + 1 {
                    true
                } else {
                    m0.wall(a, b, c)
                }) by {
                    assert(mq == mp.with_wall(x as int, 0, 3, true));
                    assert(self@ == mq.with_wall(x as int, dth as int - 1, 1, true));
                    assert(mq.wall(a, b, c) == if a == x as int && b == 0 && c == 3 {
                        true
                    } else {
                        mp.wall(a, b, c)
                    });
                    assert(self@.wall(a, b, c) == if a == x as int && b == dth as int - 1 && c
                        == 1 {
                        true
                    } else {
                        mq.wall(a, b, c)
                    });
                    assert(mp.wall(a, b, c) == (if c == 3 && b == 0 && a < x {
                        true
                    } else if c == 1 && b == m0.depth - 1 && a < x {
                        true
                    } else {
                        m0.wall(a, b, c)
                    }));
                }
            }
            x = x + 1;
        }
        let mut z: usize = 0;
        while z < dth
            invariant
                self.inv(),
                z <= dth,
                w == m0.width,
                dth == m0.depth,
                self@.width == m0.width,
                self@.depth == m0.depth,
                forall|a: int, b: int, c: int|
                    m0.valid_triple(a, b, c) ==> #[trigger] self@.wall(a, b, c) == (if c == 3 && b
                        == 0 {
                        true
                    } else if c == 1 && b == m0.depth - 1 {
                        true
                    } else if c == 2 && a == 0 && b < z {
                        true
                    } else if c == 0 && a == m0.width - 1 && b < z {
                        true
                    } else {
                        m0.wall(a, b, c)
                    }),
            decreases dth - z,
        {
            let ghost mp = self@;
            self.set_wall(0, z, 2, true);
            let ghost mq = self@;
            self.set_wall(w - 1, z, 0, true);
            proof {
                assert(!mp.has_neighbor(0, z as int, 2));
                assert(!mq.has_neighbor(w as int - 1, z as int, 0));
                assert forall|a: int, b: int, c: int|
                    m0.valid_triple(a, b, c) implies #[trigger] self@.wall(a, b, c) == (if c == 3
                    && b == 0 {
                    true
                } else if c == 1 && b == m0.depth - 1 {
                    true
                } else if c == 2 && a == 0 && b < z + 1 {
                    true
                } else if c == 0 && a == m0.width - 1 && b < z + 1 {
                    true
                } else {
                    m0.wall(a, b, c)
                }) by {
                    assert(mq == mp.with_wall(0, z as int, 2, true));
                    assert(self@ == mq.with_wall(w as int - 1, z as int, 0, true));
                    assert(mq.wall(a, b, c) == if a == 0 && b == z as int && c == 2 {
                        true
                    } else {
                        mp.wall(a, b, c)
                    });
                    assert(self@.wall(a, b, c) == if a == w as int - 1 && b == z as int && c
                        == 0 {
                        true
                    } else {
                        mq.wall(a, b, c)
                    });
                    assert(mp.wall(a, b, c) == (if c == 3 && b == 0 {
                        true
                    } else if c == 1 && b == m0.depth - 1 {
                        true
                    } else if c == 2 && a == 0 && b < z {
                        true
                    } else if c == 0 && a == m0.width - 1 && b < z {
                        true
                    } else {
                        m0.wall(a, b, c)
                    }));
                }
            }
            z = z + 1;
        }
        proof {
            assert forall|a: int, b: int, c: int|
                m0.valid_triple(a, b, c) implies #[trigger] self@.wall(a, b, c) == (
            !m0.has_neighbor(a, b, c) || m0.wall(a, b, c)) by {}
            assert forall|a: int, b: int, c: int|
                m0.valid_triple(a, b, c) && m0.has_neighbor(a, b, c) implies #[trigger] m0.wall(
                a,
                b,
                c,
            ) == self@.wall(a, b, c) by {}
            crate::model::lemma_interior_reach(m0, self@);
        }
    }

    /// Returns a copy of the square at `(x, z)`: its coordinates are
    /// `(x, z)` and its wall flags are the grid's wall flags there.
    pub fn get_square(&self, x: usize, z: usize) -> (sq: Square)
        requires
            self.inv(),
            x < self@.width,
            z < self@.depth,
        ensures
            sq.spec_x() == x,
            sq.spec_z() == z,
            forall|d: int|
                0 <= d < 4 ==> #[trigger] sq.spec_wall(d) == self@.wall(x as int, z as int, d),
    {
        let i = self.index_of(x, z);
        proof {
            lemma_pos_index_roundtrip(self.depth as int, x as int, z as int);
        }
        self.squares[i]
    }
}

} // verus!

