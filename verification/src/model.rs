//! Mathematical model of a maze grid.
//!
//! A grid is modeled by its dimensions and a map from `(x, z, direction)`
//! triples to wall flags.  Directions are `0` (toward `+x`), `1` (toward
//! `+z`), `2` (toward `-x`) and `3` (toward `-z`).  Two adjacent cells are
//! connected when the wall flag between them is `false`; the grid is
//! connected when every cell is reachable from the origin cell `(0, 0)`
//! along open walls.

use vstd::arithmetic::div_mod::{
    lemma_fundamental_div_mod, lemma_fundamental_div_mod_converse, lemma_mod_bound,
};
use vstd::arithmetic::mul::lemma_mul_inequality;
use vstd::prelude::*;

verus! {

/// The direction opposite to `d`.
pub open spec fn opposite(d: int) -> int {
    if d == 0 {
        2
    } else if d == 1 {
        3
    } else if d == 2 {
        0
    } else {
        1
    }
}

/// The x coordinate of the neighbor in direction `d`.
pub open spec fn step_x(x: int, d: int) -> int {
    if d == 0 {
        x + 1
    } else if d == 2 {
        x - 1
    } else {
        x
    }
}

/// The z coordinate of the neighbor in direction `d`.
pub open spec fn step_z(z: int, d: int) -> int {
    if d == 1 {
        z + 1
    } else if d == 3 {
        z - 1
    } else {
        z
    }
}

/// A grid as a mathematical value: dimensions and one wall flag per cell
/// and direction.
#[verifier::ext_equal]
pub struct GridModel {
    pub width: int,
    pub depth: int,
    pub walls: Map<(int, int, int), bool>,
}

impl GridModel {
    /// `(x, z)` lies inside the grid.
    pub open spec fn valid_pos(self, x: int, z: int) -> bool {
        0 <= x < self.width && 0 <= z < self.depth
    }

    /// `(x, z)` lies inside the grid and `d` is a direction.
    pub open spec fn valid_triple(self, x: int, z: int, d: int) -> bool {
        self.valid_pos(x, z) && 0 <= d < 4
    }

    /// The wall flag of cell `(x, z)` in direction `d`.
    pub open spec fn wall(self, x: int, z: int, d: int) -> bool {
        self.walls[(x, z, d)]
    }

    /// The neighbor of `(x, z)` in direction `d` exists inside the grid.
    pub open spec fn has_neighbor(self, x: int, z: int, d: int) -> bool {
        self.valid_pos(step_x(x, d), step_z(z, d))
    }

    /// The wall map is defined exactly on the valid triples.
    pub open spec fn dom_ok(self) -> bool {
        forall|x: int, z: int, d: int|
            #[trigger] self.walls.dom().contains((x, z, d)) <==> self.valid_triple(x, z, d)
    }

    /// Every wall flag agrees with the opposite flag of the neighbor it
    /// faces, whenever that neighbor exists.
    pub open spec fn mirrored(self) -> bool {
        forall|x: int, z: int, d: int|
            #![trigger self.wall(x, z, d)]
            self.valid_triple(x, z, d) && self.has_neighbor(x, z, d) ==> self.wall(x, z, d)
                == self.wall(step_x(x, d), step_z(z, d), opposite(d))
    }

    /// Well-formedness: positive dimensions, a wall flag for exactly the
    /// valid triples, and mirrored walls.
    pub open spec fn wf(self) -> bool {
        &&& self.width >= 1
        &&& self.depth >= 1
        &&& self.dom_ok()
        &&& self.mirrored()
    }

    /// One move through an open wall from `(x1, z1)` to the adjacent cell
    /// `(x2, z2)`.
    pub open spec fn open_step(self, x1: int, z1: int, x2: int, z2: int) -> bool {
        &&& self.valid_pos(x1, z1)
        &&& self.valid_pos(x2, z2)
        &&& {
            ||| (x2 == x1 + 1 && z2 == z1 && !self.wall(x1, z1, 0))
            ||| (x2 == x1 && z2 == z1 + 1 && !self.wall(x1, z1, 1))
            ||| (x2 == x1 - 1 && z2 == z1 && !self.wall(x1, z1, 2))
            ||| (x2 == x1 && z2 == z1 - 1 && !self.wall(x1, z1, 3))
        }
    }

    /// `p` is a walk that starts at the origin and only moves through open
    /// walls.
    pub open spec fn is_path(self, p: Seq<(int, int)>) -> bool {
        &&& p.len() >= 1
        &&& p[0] == (0int, 0int)
        &&& forall|i: int|
            0 <= i < p.len() - 1 ==> self.open_step(
                (#[trigger] p[i]).0,
                p[i].1,
                p[i + 1].0,
                p[i + 1].1,
            )
    }

    /// Cell `(x, z)` can be reached from the origin along open walls.
    pub open spec fn reachable(self, x: int, z: int) -> bool {
        exists|p: Seq<(int, int)>| self.is_path(p) && p.last() == (x, z)
    }

    /// Every cell of the grid is reachable from the origin.
    pub open spec fn connected(self) -> bool {
        forall|x: int, z: int| self.valid_pos(x, z) ==> #[trigger] self.reachable(x, z)
    }

    /// The grid after setting the wall flag at `(x, z, d)` to `v`, together
    /// with the mirrored flag of the neighbor in direction `d` when that
    /// neighbor exists.
    pub open spec fn with_wall(self, x: int, z: int, d: int, v: bool) -> GridModel {
        let written = self.walls.insert((x, z, d), v);
        let both = if self.has_neighbor(x, z, d) {
            written.insert((step_x(x, d), step_z(z, d), opposite(d)), v)
        } else {
            written
        };
        GridModel { walls: both, ..self }
    }

    /// The grid after flipping the wall flag at `(x, z, d)`.
    pub open spec fn toggled(self, x: int, z: int, d: int) -> GridModel {
        self.with_wall(x, z, d, !self.wall(x, z, d))
    }

    /// One generator trial: flip the wall at `(x, z, d)`, keep the flip if
    /// the grid stays connected, and revert it otherwise.
    pub open spec fn after_trial(self, x: int, z: int, d: int) -> GridModel {
        if self.toggled(x, z, d).connected() {
            self.toggled(x, z, d)
        } else {
            self
        }
    }

    /// The grid after running one trial per entry of `moves`, in order.
    pub open spec fn after_trials(self, moves: Seq<(int, int, int)>) -> GridModel
        decreases moves.len(),
    {
        if moves.len() == 0 {
            self
        } else {
            self.after_trial(moves[0].0, moves[0].1, moves[0].2).after_trials(
                moves.subrange(1, moves.len() as int),
            )
        }
    }
}

/// Cells are stored row-major: cell `(x, z)` lives at index `x * depth + z`,
/// which stays inside `0 .. width * depth`.
pub proof fn lemma_cell_index_bounds(w: int, d: int, x: int, z: int)
    requires
        0 <= x < w,
        0 <= z < d,
    ensures
        0 <= x * d + z,
        x * d + z < w * d,
{
    assert(0 <= x * d + z && x * d + z < w * d) by (nonlinear_arith)
        requires
            0 <= x < w,
            0 <= z < d,
    {}
}

/// Dividing the row-major index of cell `(x, z)` by the depth recovers the
/// coordinates.
pub proof fn lemma_pos_index_roundtrip(d: int, x: int, z: int)
    requires
        1 <= d,
        0 <= x,
        0 <= z < d,
    ensures
        (x * d + z) / d == x,
        (x * d + z) % d == z,
{
    lemma_fundamental_div_mod_converse(x * d + z, d, x, z);
}

/// Every index below `width * depth` is the row-major index of a cell.
pub proof fn lemma_index_to_pos(w: int, d: int, i: int)
    requires
        1 <= w,
        1 <= d,
        0 <= i < w * d,
    ensures
        0 <= i / d < w,
        0 <= i % d < d,
        (i / d) * d + (i % d) == i,
{
    lemma_fundamental_div_mod(i, d);
    lemma_mod_bound(i, d);
    assert(d * (i / d) == (i / d) * d) by (nonlinear_arith);
    if i / d >= w {
        lemma_mul_inequality(w, i / d, d);
        assert(false);
    }
    if i / d < 0 {
        lemma_mul_inequality(i / d, -1, d);
        assert(-1 * d == -d) by (nonlinear_arith);
        assert(false);
    }
}

/// Reachability extends along one open step.
pub proof fn lemma_reach_step(m: GridModel, x1: int, z1: int, x2: int, z2: int)
    requires
        m.reachable(x1, z1),
        m.open_step(x1, z1, x2, z2),
    ensures
        m.reachable(x2, z2),
{
    let p = choose|p: Seq<(int, int)>| m.is_path(p) && p.last() == (x1, z1);
    let q = p.push((x2, z2));
    assert forall|i: int|
        0 <= i < q.len() - 1 implies m.open_step(
        (#[trigger] q[i]).0,
        q[i].1,
        q[i + 1].0,
        q[i + 1].1,
    ) by {
        if i < p.len() - 1 {
            assert(q[i] == p[i]);
            assert(q[i + 1] == p[i + 1]);
        } else {
            assert(q[i] == p[i]);
            assert(p[i] == p.last());
            assert(q[i + 1] == (x2, z2));
        }
    }
    assert(m.is_path(q));
    assert(q.last() == (x2, z2));
}

proof fn lemma_all_open_reach(m: GridModel, x: int, z: int)
    requires
        m.wf(),
        forall|a: int, b: int, c: int| m.valid_triple(a, b, c) ==> !(#[trigger] m.wall(a, b, c)),
        m.valid_pos(x, z),
    ensures
        m.reachable(x, z),
    decreases x + z,
{
    if x > 0 {
        lemma_all_open_reach(m, x - 1, z);
        assert(!m.wall(x - 1, z, 0));
        lemma_reach_step(m, x - 1, z, x, z);
    } else if z > 0 {
        lemma_all_open_reach(m, x, z - 1);
        assert(!m.wall(x, z - 1, 1));
        lemma_reach_step(m, x, z - 1, x, z);
    } else {
        let p: Seq<(int, int)> = seq![(0int, 0int)];
        assert(m.is_path(p));
        assert(p.last() == (0int, 0int));
    }
}

/// Writing a wall pair keeps the model well-formed: both sides of the
/// touched edge receive the same flag, so the mirror invariant survives.
pub proof fn lemma_with_wall_wf(m: GridModel, x: int, z: int, d: int, v: bool)
    requires
        m.wf(),
        m.valid_triple(x, z, d),
    ensures
        m.with_wall(x, z, d, v).wf(),
{
    let r = m.with_wall(x, z, d, v);
    let nx = step_x(x, d);
    let nz = step_z(z, d);
    assert forall|a: int, b: int, c: int|
        (#[trigger] r.walls.dom().contains((a, b, c))) <==> r.valid_triple(a, b, c) by {
        assert(m.walls.dom().contains((x, z, d)));
        if m.has_neighbor(x, z, d) {
            assert(m.walls.dom().contains((nx, nz, opposite(d))));
        }
    }
    assert forall|a: int, b: int, c: int|
        r.valid_triple(a, b, c) && r.has_neighbor(a, b, c) implies #[trigger] r.wall(a, b, c)
        == r.wall(step_x(a, c), step_z(b, c), opposite(c)) by {
        let pa = step_x(a, c);
        let pb = step_z(b, c);
        let pc = opposite(c);
        assert(step_x(pa, pc) == a && step_z(pb, pc) == b && opposite(pc) == c);
        if a == x && b == z && c == d {
            assert(m.has_neighbor(x, z, d));
            assert(r.wall(a, b, c) == v);
            assert(r.wall(pa, pb, pc) == v);
        } else if m.has_neighbor(x, z, d) && a == nx && b == nz && c == opposite(d) {
            assert(pa == x && pb == z && pc == d);
            assert(r.wall(a, b, c) == v);
            assert(r.wall(pa, pb, pc) == v);
        } else {
            assert(r.wall(a, b, c) == m.wall(a, b, c));
            if pa == x && pb == z && pc == d {
                assert(a == nx && b == nz && c == opposite(d));
                assert(m.has_neighbor(x, z, d));
                assert(false);
            }
            if m.has_neighbor(x, z, d) && pa == nx && pb == nz && pc == opposite(d) {
                assert(a == x && b == z && c == d);
                assert(false);
            }
            assert(r.wall(pa, pb, pc) == m.wall(pa, pb, pc));
            assert(m.wall(a, b, c) == m.wall(pa, pb, pc));
        }
    }
}

/// Setting a wall and then writing back its previous value restores the
/// grid exactly: the mirrored flag written alongside also returns to its
/// old value, because it agreed with the written one.
pub proof fn lemma_with_wall_revert(m: GridModel, x: int, z: int, d: int, v: bool)
    requires
        m.wf(),
        m.valid_triple(x, z, d),
    ensures
        m.with_wall(x, z, d, v).with_wall(x, z, d, m.wall(x, z, d)) == m,
{
    let r = m.with_wall(x, z, d, v).with_wall(x, z, d, m.wall(x, z, d));
    if m.has_neighbor(x, z, d) {
        assert(m.wall(x, z, d) == m.wall(step_x(x, d), step_z(z, d), opposite(d)));
    }
    assert(r.walls =~= m.walls) by {
        assert(m.walls.dom().contains((x, z, d)));
        if m.has_neighbor(x, z, d) {
            assert(m.walls.dom().contains((step_x(x, d), step_z(z, d), opposite(d))));
        }
    }
    assert(r =~= m);
}

/// Writing the same wall value twice is the same as writing it once: a
/// repeated identical write leaves the grid unchanged.
pub proof fn lemma_with_wall_idempotent(m: GridModel, x: int, z: int, d: int, v: bool)
    ensures
        m.with_wall(x, z, d, v).with_wall(x, z, d, v) == m.with_wall(x, z, d, v),
{
    let once = m.with_wall(x, z, d, v);
    assert(once.with_wall(x, z, d, v).walls =~= once.walls);
    assert(once.with_wall(x, z, d, v) =~= once);
}

/// One generator trial preserves well-formedness, the dimensions, and
/// connectivity: a flip that breaks connectivity is reverted.
pub proof fn lemma_after_trial(m: GridModel, x: int, z: int, d: int)
    requires
        m.wf(),
        m.valid_triple(x, z, d),
    ensures
        m.after_trial(x, z, d).wf(),
        m.after_trial(x, z, d).width == m.width,
        m.after_trial(x, z, d).depth == m.depth,
        m.connected() ==> m.after_trial(x, z, d).connected(),
{
    lemma_with_wall_wf(m, x, z, d, !m.wall(x, z, d));
}

/// Running the trials of `s` and then one more trial `mv` is the same as
/// running the trials of `s.push(mv)`.
pub proof fn lemma_after_trials_snoc(m: GridModel, s: Seq<(int, int, int)>, mv: (int, int, int))
    ensures
        m.after_trials(s.push(mv)) == m.after_trials(s).after_trial(mv.0, mv.1, mv.2),
    decreases s.len(),
{
    let full = s.push(mv);
    if s.len() == 0 {
        reveal_with_fuel(GridModel::after_trials, 2);
        assert(full[0] == mv);
        assert(full.subrange(1, full.len() as int) =~= Seq::<(int, int, int)>::empty());
    } else {
        assert(full[0] == s[0]);
        assert(full.subrange(1, full.len() as int) =~= s.subrange(1, s.len() as int).push(mv));
        lemma_after_trials_snoc(
            m.after_trial(s[0].0, s[0].1, s[0].2),
            s.subrange(1, s.len() as int),
            mv,
        );
    }
}

/// Determinism of the generator core: from equal wall configurations, the
/// same sequence of proposed flips produces equal wall configurations.
pub proof fn lemma_trials_deterministic(
    m1: GridModel,
    m2: GridModel,
    moves: Seq<(int, int, int)>,
)
    requires
        m1 == m2,
    ensures
        m1.after_trials(moves) == m2.after_trials(moves),
{
}

proof fn lemma_interior_reach_one(m1: GridModel, m2: GridModel)
    requires
        m1.width == m2.width,
        m1.depth == m2.depth,
        forall|x: int, z: int, d: int|
            m1.valid_triple(x, z, d) && m1.has_neighbor(x, z, d) ==> #[trigger] m1.wall(x, z, d)
                == m2.wall(x, z, d),
    ensures
        forall|x: int, z: int| #[trigger] m1.reachable(x, z) ==> m2.reachable(x, z),
{
    assert forall|x: int, z: int| #[trigger] m1.reachable(x, z) implies m2.reachable(x, z) by {
        let p = choose|p: Seq<(int, int)>| m1.is_path(p) && p.last() == (x, z);
        assert forall|i: int|
            0 <= i < p.len() - 1 implies m2.open_step(
            (#[trigger] p[i]).0,
            p[i].1,
            p[i + 1].0,
            p[i + 1].1,
        ) by {
            let a = p[i];
            let b = p[i + 1];
            assert(m1.open_step(a.0, a.1, b.0, b.1));
            if b.0 == a.0 + 1 && b.1 == a.1 && !m1.wall(a.0, a.1, 0) {
                assert(m1.wall(a.0, a.1, 0) == m2.wall(a.0, a.1, 0));
            } else if b.0 == a.0 && b.1 == a.1 + 1 && !m1.wall(a.0, a.1, 1) {
                assert(m1.wall(a.0, a.1, 1) == m2.wall(a.0, a.1, 1));
            } else if b.0 == a.0 - 1 && b.1 == a.1 && !m1.wall(a.0, a.1, 2) {
                assert(m1.wall(a.0, a.1, 2) == m2.wall(a.0, a.1, 2));
            } else {
                assert(m1.wall(a.0, a.1, 3) == m2.wall(a.0, a.1, 3));
            }
        }
        assert(m2.is_path(p));
        assert(m2.reachable(x, z));
    }
}

/// Reachability depends only on the walls between pairs of cells that both
/// exist: walls that face the grid exterior do not affect it.
pub proof fn lemma_interior_reach(m1: GridModel, m2: GridModel)
    requires
        m1.width == m2.width,
        m1.depth == m2.depth,
        forall|x: int, z: int, d: int|
            m1.valid_triple(x, z, d) && m1.has_neighbor(x, z, d) ==> #[trigger] m1.wall(x, z, d)
                == m2.wall(x, z, d),
    ensures
        forall|x: int, z: int| #[trigger] m1.reachable(x, z) <==> m2.reachable(x, z),
        m1.connected() <==> m2.connected(),
{
    lemma_interior_reach_one(m1, m2);
    assert forall|x: int, z: int, d: int|
        m2.valid_triple(x, z, d) && m2.has_neighbor(x, z, d) implies #[trigger] m2.wall(x, z, d)
        == m1.wall(x, z, d) by {
        assert(m1.wall(x, z, d) == m2.wall(x, z, d));
    }
    lemma_interior_reach_one(m2, m1);
    if m1.connected() {
        assert forall|x: int, z: int| m2.valid_pos(x, z) implies #[trigger] m2.reachable(x, z) by {
            assert(m1.reachable(x, z));
        }
    }
    if m2.connected() {
        assert forall|x: int, z: int| m1.valid_pos(x, z) implies #[trigger] m1.reachable(x, z) by {
            assert(m2.reachable(x, z));
        }
    }
}

/// A grid whose walls are all open is connected: every cell is reached by
/// walking first along the x axis, then along the z axis.
pub proof fn lemma_all_open_connected(m: GridModel)
    requires
        m.wf(),
        forall|a: int, b: int, c: int| m.valid_triple(a, b, c) ==> !(#[trigger] m.wall(a, b, c)),
    ensures
        m.connected(),
{
    assert forall|x: int, z: int| m.valid_pos(x, z) implies m.reachable(x, z) by {
        lemma_all_open_reach(m, x, z);
    }
}

/// A 1-by-1 grid is connected no matter how its wall flags are set: its
/// only cell is the origin itself.
pub proof fn lemma_unit_grid_connected(m: GridModel)
    requires
        m.width == 1,
        m.depth == 1,
    ensures
        m.connected(),
{
    assert forall|x: int, z: int| m.valid_pos(x, z) implies m.reachable(x, z) by {
        let p: Seq<(int, int)> = seq![(0int, 0int)];
        assert(m.is_path(p));
        assert(p.last() == (x, z));
    }
}

} // verus!
