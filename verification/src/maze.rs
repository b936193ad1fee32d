//! The maze generator: randomized wall flips with a connectivity gate,
//! then a sealed border with two openings.

use crate::grid::Grid;
use crate::model::{lemma_after_trial, lemma_after_trials_snoc, lemma_with_wall_revert};
use vstd::prelude::*;

verus! {

/// The move sequence of a trial batch, as mathematical triples.
pub open spec fn moves_view(s: Seq<(usize, usize, usize)>) -> Seq<(int, int, int)> {
    s.map_values(|t: (usize, usize, usize)| (t.0 as int, t.1 as int, t.2 as int))
}

/// Relies on rand's `StdRng` type: the seedable standard random number
/// generator, declared opaque so the generator can draw trial coordinates
/// from it.
#[verifier::external_type_specification]
#[verifier::external_body]
pub struct ExStdRng(rand::rngs::StdRng);

/// Relies on rand's `Rng::gen_range` over `0..n`: it returns a value drawn
/// from that range, so the result is below `n`.  It panics on an empty
/// range, which `n >= 1` rules out.
#[verifier::external_body]
pub(crate) fn rand_index(rng: &mut rand::rngs::StdRng, n: usize) -> (r: usize)
    requires
        n >= 1,
    ensures
        r < n,
{
    <rand::rngs::StdRng as rand::Rng>::gen_range(rng, 0..n)
}

impl Grid {
    /// One generator trial: flips the wall at `(x, z, index)`, keeps the
    /// flip when the whole grid stays connected, and reverts it otherwise.
    /// The resulting wall state is `after_trial` of the previous one, and
    /// connectivity is never lost.
    pub fn try_toggle_wall(&mut self, x: usize, z: usize, index: usize)
        requires
            old(self).inv(),
            x < old(self)@.width,
            z < old(self)@.depth,
            index < 4,
        ensures
            final(self).inv(),
            final(self)@.wf(),
            final(self)@ == old(self)@.after_trial(x as int, z as int, index as int),
            final(self)@.width == old(self)@.width,
            final(self)@.depth == old(self)@.depth,
            old(self)@.connected() ==> final(self)@.connected(),
    {
        proof {
            old(self).lemma_inv_wf();
        }
        let old_value = self.get_wall(x, z, index);
        self.set_wall(x, z, index, !old_value);
        if !self.is_valid() {
            self.set_wall(x, z, index, old_value);
            proof {
                lemma_with_wall_revert(
                    old(self)@,
                    x as int,
                    z as int,
                    index as int,
                    !old_value,
                );
            }
        }
        proof {
            lemma_after_trial(old(self)@, x as int, z as int, index as int);
        }
    }

    /// Runs one trial per entry of `moves`, in order.  The resulting wall
    /// configuration is `after_trials` of the starting one: a function of
    /// the starting configuration and the move sequence alone, so two runs
    /// from equal grids over equal move sequences end bit-identical.
    pub fn apply_trials(&mut self, moves: &Vec<(usize, usize, usize)>)
        requires
            old(self).inv(),
            forall|k: int|
                0 <= k < moves@.len() ==> (#[trigger] moves@[k]).0 < old(self)@.width
                    && moves@[k].1 < old(self)@.depth && moves@[k].2 < 4,
        ensures
            final(self).inv(),
            final(self)@.wf(),
            final(self)@ == old(self)@.after_trials(moves_view(moves@)),
            final(self)@.width == old(self)@.width,
            final(self)@.depth == old(self)@.depth,
            old(self)@.connected() ==> final(self)@.connected(),
    {
        let ghost m0 = self@;
        let ghost mseq = moves_view(moves@);
        proof {
            assert(mseq.take(0) =~= Seq::<(int, int, int)>::empty());
        }
        let end = moves.len();
        let mut k: usize = 0;
        while k < end
            invariant
                self.inv(),
                k <= end,
                end == moves@.len(),
                mseq == moves_view(moves@),
                mseq.len() == moves@.len(),
                forall|j: int|
                    0 <= j < moves@.len() ==> (#[trigger] moves@[j]).0 < m0.width && moves@[j].1
                        < m0.depth && moves@[j].2 < 4,
                self@ == m0.after_trials(mseq.take(k as int)),
                self@.width == m0.width,
                self@.depth == m0.depth,
                m0.connected() ==> self@.connected(),
            decreases end - k,
        {
            let mv = moves[k];
            self.try_toggle_wall(mv.0, mv.1, mv.2);
            proof {
                assert(mseq[k as int] == (mv.0 as int, mv.1 as int, mv.2 as int));
                assert(mseq.take(k as int).push(mseq[k as int]) =~= mseq.take(k as int + 1));
                lemma_after_trials_snoc(m0, mseq.take(k as int), mseq[k as int]);
            }
            k = k + 1;
        }
        proof {
            assert(mseq.take(end as int) =~= mseq);
            self.lemma_inv_wf();
        }
    }

    /// Drives the grid through `2 * width * depth` randomized wall-flip
    /// trials drawn from `rng`, accepting a flip only when every cell stays
    /// reachable from the origin.
    pub fn randomize_grid(&mut self, rng: &mut rand::rngs::StdRng)
        requires
            old(self).inv(),
            2 * old(self)@.width * old(self)@.depth <= usize::MAX,
        ensures
            final(self).inv(),
            final(self)@.wf(),
            final(self)@.width == old(self)@.width,
            final(self)@.depth == old(self)@.depth,
            old(self)@.connected() ==> final(self)@.connected(),
    {
        let ghost m0 = self@;
        let w = self.width();
        let dth = self.depth();
        proof {
            assert(w * dth <= 2 * w * dth) by (nonlinear_arith)
                requires
                    w >= 0,
                    dth >= 0,
            {}
        }
        let total = w * dth;
        proof {
            assert(2 * ((w as int) * (dth as int)) == 2 * (w as int) * (dth as int))
                by (nonlinear_arith);
        }
        let trials = 2 * total;
        let mut moves: Vec<(usize, usize, usize)> = Vec::new();
        let mut k: usize = 0;
        while k < trials
            invariant
                k <= trials,
                moves@.len() == k,
                w >= 1,
                dth >= 1,
                w == m0.width,
                dth == m0.depth,
                self.inv(),
                self@ == m0,
                forall|j: int|
                    0 <= j < moves@.len() ==> (#[trigger] moves@[j]).0 < m0.width && moves@[j].1
                        < m0.depth && moves@[j].2 < 4,
            decreases trials - k,
        {
            let mx = rand_index(rng, w);
            let mz = rand_index(rng, dth);
            let md = rand_index(rng, 4);
            moves.push((mx, mz, md));
            k = k + 1;
        }
        self.apply_trials(&moves);
        proof {
            self.lemma_inv_wf();
        }
    }
}

/// Generates a maze: a grid of `width` by `depth` cells whose open-wall
/// graph is fully connected, with the border sealed except for one
/// entrance at `(entry_x, 0)` toward the exterior (direction 3) and one
/// exit at `(exit_x, depth - 1)` toward the exterior (direction 1).
pub fn generate_maze(
    width: usize,
    depth: usize,
    entry_x: usize,
    exit_x: usize,
    rng: &mut rand::rngs::StdRng,
) -> (g: Grid)
    requires
        1 <= width,
        1 <= depth,
        entry_x < width,
        exit_x < width,
        2 * width * depth <= usize::MAX,
    ensures
        g.inv(),
        g@.wf(),
        g@.width == width,
        g@.depth == depth,
        g@.connected(),
        forall|x: int, z: int, d: int|
            g@.valid_triple(x, z, d) && !g@.has_neighbor(x, z, d) ==> g@.wall(x, z, d) == !((x
                == entry_x && z == 0 && d == 3) || (x == exit_x && z == depth - 1 && d == 1)),
{
    proof {
        assert(width * depth <= 2 * width * depth) by (nonlinear_arith)
            requires
                width >= 0,
                depth >= 0,
        {}
    }
    let mut g = Grid::new(width, depth);
    g.randomize_grid(rng);
    let ghost mr = g@;
    g.set_border_walls();
    let ghost mb = g@;
    g.set_wall(entry_x, 0, 3, false);
    let ghost me = g@;
    let dm1 = depth - 1;
    g.set_wall(exit_x, dm1, 1, false);
    proof {
        assert(!mb.has_neighbor(entry_x as int, 0, 3));
        assert(!me.has_neighbor(exit_x as int, depth as int - 1, 1));
        assert forall|x: int, z: int, d: int|
            g@.valid_triple(x, z, d) && !g@.has_neighbor(x, z, d) implies g@.wall(x, z, d) == !((x
            == entry_x && z == 0 && d == 3) || (x == exit_x && z == depth - 1 && d == 1)) by {
            assert(me.wall(x, z, d) == if x == entry_x as int && z == 0 && d == 3 {
                false
            } else {
                mb.wall(x, z, d)
            });
            assert(g@.wall(x, z, d) == if x == exit_x as int && z == depth as int - 1 && d == 1 {
                false
            } else {
                me.wall(x, z, d)
            });
            assert(mb.wall(x, z, d) == (!mr.has_neighbor(x, z, d) || mr.wall(x, z, d)));
        }
        assert forall|x: int, z: int, d: int|
            mb.valid_triple(x, z, d) && mb.has_neighbor(x, z, d) implies #[trigger] mb.wall(
            x,
            z,
            d,
        ) == g@.wall(x, z, d) by {}
        crate::model::lemma_interior_reach(mb, g@);
    }
    g
}

} // verus!
