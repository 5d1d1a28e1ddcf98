use vstd::prelude::*;

use bit_set::BitSet;

use crate::bits::{
    empty_set, set_clear, set_clone, set_contains, set_insert, set_items, set_members, set_remove,
};
use crate::cli::{config_ok, Args, ConfigError};
use crate::colour::{Rgb, BLACK};
use crate::consistency::{
    flip_index, lemma_all_directions_exact, lemma_decrement_exact, lemma_direction_index,
    lemma_nb_coord, lemma_next_direction_exact, lemma_owed_positive, lemma_pop_exact,
    lemma_queue_removal_exact, pending, windows_are_tiles, extends, lemma_extends_push,
    lemma_extends_trans, lemma_covers_kept,
};
use crate::direction::Direction;
use crate::entropy_coord::{pop_lowest, EntropyCoord};
use crate::grid2d::{lemma_row_major, Grid2D};
use crate::sample::Sample;
use crate::image_reader::Image;
use crate::log2::{log2_fixed, log2_fixed_spec};
use crate::model::{count_sum, lemma_count_le_sum, Model};
use crate::random::{draw_below, seeded_rng};
use crate::vector2::Vector2;

use rand::rngs::StdRng;
use std::collections::VecDeque;
use std::sync::Arc;

verus! {

/// Index of a tile (a pattern of the model).
pub type TileIndex = usize;

/// Tile `tile_index` has stopped being possible at `coord`; its neighbours
/// still have to hear of it.
#[derive(Debug, Clone, Copy)]
pub struct RemovalUpdate {
    pub tile_index: TileIndex,
    pub coord: Vector2,
}

/// For one tile at one cell: per direction (by stable index), how many tiles
/// still possible in the neighbouring cell there support it.
#[derive(Debug, Clone, Copy)]
pub struct TileEnablerCount {
    pub by_direction: [usize; 4],
}

impl TileEnablerCount {
    /// Some direction has no supporter left.
    pub open spec fn has_zero(&self) -> bool {
        exists|d: int| 0 <= d < 4 && #[trigger] self.by_direction@[d] == 0
    }

    pub fn contains_any_zero_count(&self) -> (r: bool)
        ensures
            r == self.has_zero(),
    {
        let r = self.by_direction[0] == 0 || self.by_direction[1] == 0 || self.by_direction[2] == 0
            || self.by_direction[3] == 0;
        proof {
            if r {
                if self.by_direction@[0] == 0 {
                    assert(self.by_direction@[0] == 0);
                } else if self.by_direction@[1] == 0 {
                    assert(self.by_direction@[1] == 0);
                } else if self.by_direction@[2] == 0 {
                    assert(self.by_direction@[2] == 0);
                } else {
                    assert(self.by_direction@[3] == 0);
                }
            }
        }
        r
    }
}

impl PartialEq for TileEnablerCount {
    fn eq(&self, o: &TileEnablerCount) -> (r: bool) {
        let r = self.by_direction[0] == o.by_direction[0] && self.by_direction[1]
            == o.by_direction[1] && self.by_direction[2] == o.by_direction[2]
            && self.by_direction[3] == o.by_direction[3];
        proof {
            if r {
                assert(self.by_direction@ =~= o.by_direction@);
            }
        }
        r
    }
}

impl vstd::std_specs::cmp::PartialEqSpecImpl for TileEnablerCount {
    open spec fn obeys_eq_spec() -> bool {
        true
    }

    open spec fn eq_spec(&self, o: &TileEnablerCount) -> bool {
        self.by_direction@ == o.by_direction@
    }
}

/// Σ of `vals[i]` over the members `i` of `p` below `k`.
pub open spec fn masked_sum(vals: Seq<int>, p: Set<usize>, k: int) -> int
    decreases k,
{
    if k <= 0 {
        0
    } else {
        masked_sum(vals, p, k - 1) + if p.contains((k - 1) as usize) {
            vals[k - 1]
        } else {
            0
        }
    }
}

/// Sets that agree below `k` have the same masked sum there.
pub proof fn lemma_masked_sum_agree(vals: Seq<int>, p: Set<usize>, q: Set<usize>, k: int)
    requires
        forall|i: usize| i < k ==> (p.contains(i) <==> q.contains(i)),
    ensures
        masked_sum(vals, p, k) == masked_sum(vals, q, k),
    decreases k,
{
    if k > 0 {
        lemma_masked_sum_agree(vals, p, q, k - 1);
    }
}

/// Taking a member out lowers the sum by its value.
pub proof fn lemma_masked_sum_remove(vals: Seq<int>, p: Set<usize>, t: usize, k: int)
    requires
        p.contains(t),
        t < k <= usize::MAX,
    ensures
        masked_sum(vals, p.remove(t), k) == masked_sum(vals, p, k) - vals[t as int],
    decreases k,
{
    if k - 1 > t {
        lemma_masked_sum_remove(vals, p, t, k - 1);
    } else {
        lemma_masked_sum_agree(vals, p, p.remove(t), k - 1);
    }
}

/// A single member contributes its own value.
pub proof fn lemma_masked_sum_single(vals: Seq<int>, t: usize, k: int)
    requires
        t < k <= usize::MAX,
    ensures
        masked_sum(vals, set![t], k) == vals[t as int],
    decreases k,
{
    if k - 1 > t {
        lemma_masked_sum_single(vals, t, k - 1);
    } else {
        lemma_masked_sum_agree(vals, set![t], Set::<usize>::empty(), k - 1);
        lemma_masked_sum_empty(vals, k - 1);
    }
}

pub proof fn lemma_masked_sum_empty(vals: Seq<int>, k: int)
    ensures
        masked_sum(vals, Set::<usize>::empty(), k) == 0,
    decreases k,
{
    if k > 0 {
        lemma_masked_sum_empty(vals, k - 1);
    }
}

/// With non-negative values: the sum is at least each member's value, at
/// most the sum over the whole range, and values bounded by `c·other` give a
/// sum bounded by `c` times the other sum.
pub proof fn lemma_masked_sum_bounds(vals: Seq<int>, other: Seq<int>, c: int, p: Set<usize>, k: int)
    requires
        0 <= k <= vals.len(),
        vals.len() == other.len(),
        c >= 0,
        forall|i: int| 0 <= i < vals.len() ==> 0 <= #[trigger] vals[i] <= c * other[i],
    ensures
        0 <= masked_sum(vals, p, k) <= masked_sum(vals, Set::new(|i: usize| true), k),
        forall|t: usize| t < k && p.contains(t) ==> vals[t as int] <= masked_sum(vals, p, k),
        masked_sum(vals, p, k) <= c * masked_sum(other, p, k),
    decreases k,
{
    if k > 0 {
        lemma_masked_sum_bounds(vals, other, c, p, k - 1);
        let a = masked_sum(vals, p, k - 1);
        let b = masked_sum(other, p, k - 1);
        if p.contains((k - 1) as usize) {
            assert(c * b + c * other[k - 1] == c * (b + other[k - 1])) by (nonlinear_arith);
        }
    }
}

/// Summing counts over every tile gives the model's total count.
pub proof fn lemma_masked_sum_full(m: Model, k: int)
    requires
        m.wf(),
        0 <= k <= m.tiles(),
    ensures
        masked_sum(m.counts(), Set::new(|i: usize| true), k) == count_sum(m.freq_map@, k),
    decreases k,
{
    if k > 0 {
        lemma_masked_sum_full(m, k - 1);
    }
}

/// A prefix sum is at most the longer one.
pub proof fn lemma_masked_sum_prefix(vals: Seq<int>, p: Set<usize>, a: int, b: int)
    requires
        0 <= a <= b <= vals.len(),
        forall|i: int| 0 <= i < vals.len() ==> 0 <= #[trigger] vals[i],
    ensures
        masked_sum(vals, p, a) <= masked_sum(vals, p, b),
    decreases b,
{
    if b > a {
        lemma_masked_sum_prefix(vals, p, a, b - 1);
    }
}

/// Each tile's `count·log2(count)` is at most `LOG_PER_COUNT` times its count.
pub proof fn lemma_log_weights_bounded(m: &Model)
    requires
        m.wf(),
    ensures
        forall|i: int|
            0 <= i < m.log_weights().len() ==> 0 <= #[trigger] m.log_weights()[i] <= LOG_PER_COUNT
                * m.counts()[i],
        m.log_weights().len() == m.counts().len(),
        m.counts().len() == m.tiles(),
        forall|i: int| 0 <= i < m.counts().len() ==> 1 <= #[trigger] m.counts()[i],
{
    assert forall|i: int| 0 <= i < m.log_weights().len() implies 0 <= #[trigger] m.log_weights()[i]
        <= LOG_PER_COUNT * m.counts()[i] by {
        assert(m.freq_map@[i].1.0 >= 1);
        lemma_count_le_sum(m.freq_map@, i, m.tiles());
        crate::log2::lemma_plogp_bound(m.freq_map@[i].1.0 as nat);
    }
    assert forall|i: int| 0 <= i < m.counts().len() implies 1 <= #[trigger] m.counts()[i] by {
        assert(m.freq_map@[i].1.0 >= 1);
    }
}

/// A cell has no weight left exactly when no tile is possible.
pub proof fn lemma_weight_zero_iff_empty(c: CoreCell, m: &Model)
    requires
        m.wf(),
        c.wf(&m),
    ensures
        (c.sum_of_possible_tile_weights == 0) <==> (c.possible_set() == Set::<usize>::empty()),
{
    lemma_log_weights_bounded(m);
    lemma_masked_sum_bounds(m.counts(), m.counts(), 1, c.possible_set(), m.tiles());
    if c.possible_set() == Set::<usize>::empty() {
        lemma_masked_sum_empty(m.counts(), m.tiles());
    } else {
        if !(exists|t: usize| c.possible_set().contains(t)) {
            assert(c.possible_set() =~= Set::<usize>::empty());
        }
        let t = choose|t: usize| c.possible_set().contains(t);
        assert(m.counts()[t as int] >= 1);
    }
}

/// Some cell has no tile left: a contradiction.
pub open spec fn has_empty(cells: Seq<CoreCell>) -> bool {
    exists|i: int| 0 <= i < cells.len() && #[trigger] cells[i].possible_set() == Set::<usize>::empty()
}

/// Replacing a cell by one with some tile left adds no contradiction.
pub proof fn lemma_has_empty_update(cells: Seq<CoreCell>, k: int, c: CoreCell)
    requires
        0 <= k < cells.len(),
        !has_empty(cells),
        c.possible_set() != Set::<usize>::empty(),
    ensures
        !has_empty(cells.update(k, c)),
{
    if has_empty(cells.update(k, c)) {
        let i = choose|i: int|
            0 <= i < cells.len() && #[trigger] cells.update(k, c)[i].possible_set() == Set::<usize>::empty();
        assert(cells[i].possible_set() == Set::<usize>::empty());
    }
}

/// Cells with the same possible sets have the same contradictions.
pub proof fn lemma_has_empty_same(a: Seq<CoreCell>, b: Seq<CoreCell>)
    requires
        a.len() == b.len(),
        forall|i: int| 0 <= i < a.len() ==> #[trigger] a[i].possible_set() == b[i].possible_set(),
    ensures
        has_empty(a) == has_empty(b),
{
    if has_empty(a) {
        let i = choose|i: int| 0 <= i < a.len() && #[trigger] a[i].possible_set() == Set::<usize>::empty();
        assert(b[i].possible_set() == Set::<usize>::empty());
    }
    if has_empty(b) {
        let i = choose|i: int| 0 <= i < b.len() && #[trigger] b[i].possible_set() == Set::<usize>::empty();
        assert(a[i].possible_set() == Set::<usize>::empty());
    }
}

/// Σ of the cached weights of the cells: with the queued removals, what
/// propagation uses up.
pub open spec fn grid_weight(cells: Seq<CoreCell>) -> int
    decreases cells.len(),
{
    if cells.len() == 0 {
        0
    } else {
        grid_weight(cells.drop_last()) + cells.last().sum_of_possible_tile_weights
    }
}

pub proof fn lemma_grid_weight_update(cells: Seq<CoreCell>, i: int, c: CoreCell)
    requires
        0 <= i < cells.len(),
    ensures
        grid_weight(cells.update(i, c)) == grid_weight(cells) - cells[i].sum_of_possible_tile_weights
            + c.sum_of_possible_tile_weights,
    decreases cells.len(),
{
    if i < cells.len() - 1 {
        assert(cells.update(i, c).drop_last() =~= cells.drop_last().update(i, c));
        lemma_grid_weight_update(cells.drop_last(), i, c);
    } else {
        assert(cells.update(i, c).drop_last() =~= cells.drop_last());
    }
}

pub proof fn lemma_grid_weight_nonneg(cells: Seq<CoreCell>)
    ensures
        grid_weight(cells) >= 0,
    decreases cells.len(),
{
    if cells.len() > 0 {
        lemma_grid_weight_nonneg(cells.drop_last());
    }
}

/// Width of the range that tie-breaking noise is drawn from, in the units of
/// entropies (2^-32 bits): under 10^-6 bits.
pub const NOISE_RANGE: u64 = 4096;

/// Largest `count·log2(count)` per unit of count, in units of 2^-16.
pub const LOG_PER_COUNT: u64 = 0x20_0000;

/// Shannon entropy, in units of 2^-32 bits, of a cell whose possible tiles
/// weigh `w` in all with Σ `count·log2(count)` equal to `l` (units of 2^-16),
/// plus `noise`: `log2(w) − l / w + noise`, with the logarithm of
/// `log2_fixed_spec` and the difference taken as zero should rounding make it
/// negative. A cell with no weight left has only its noise.
pub open spec fn entropy_spec(w: nat, l: nat, noise: nat) -> nat {
    if w == 0 {
        noise
    } else {
        let wl = w * log2_fixed_spec(w);
        let num: nat = if wl >= l {
            (wl - l) as nat
        } else {
            0
        };
        (num * 65536) / w + noise
    }
}

/// The entropy of `entropy_spec`, computed.
pub fn entropy_key(w: u32, l: u64, noise: u64) -> (r: u64)
    requires
        l <= w * LOG_PER_COUNT,
        noise < NOISE_RANGE,
    ensures
        r == entropy_spec(w as nat, l as nat, noise as nat),
{
    if w == 0 {
        return noise;
    }
    let lg = log2_fixed(w);
    proof {
        assert(w * lg <= w * LOG_PER_COUNT) by (nonlinear_arith)
            requires
                lg < LOG_PER_COUNT,
        ;
    }
    let wl = (w as u64) * lg;
    let num: u64 = if wl >= l {
        wl - l
    } else {
        0
    };
    proof {
        assert((num * 65536) / (w as int) <= lg * 65536) by (nonlinear_arith)
            requires
                num <= w * lg,
                w >= 1,
        ;
    }
    let q = ((num as u128) * 65536) / (w as u128);
    (q as u64) + noise
}

/// The state of one output cell.
pub struct CoreCell {
    /// Tiles still allowed here.
    pub possible: BitSet,
    /// Σ count over `possible`.
    pub sum_of_possible_tile_weights: u32,
    /// Σ count·log2(count) over `possible`, in units of 2^-16.
    pub sum_of_possible_tile_weight_log_weights: u64,
    /// Tie-breaking noise added to the entropy, drawn once.
    pub entropy_noise: u64,
    pub is_collpased: bool,
    /// `tile_enabler_counts[t]`: the enabler counts of tile `t` here.
    pub tile_enabler_counts: Vec<TileEnablerCount>,
}

impl CoreCell {
    /// The tiles still allowed here.
    pub open spec fn possible_set(&self) -> Set<usize> {
        set_items(self.possible)
    }

    pub open spec fn noise(&self) -> nat {
        self.entropy_noise as nat
    }

    /// The cached weights agree with the possible tiles (all of them tiles
    /// of `m`), there is an enabler count for every tile, and the noise is
    /// in range.
    pub open spec fn wf(&self, m: &Model) -> bool {
        &&& forall|t: usize| #[trigger] self.possible_set().contains(t) ==> t < m.tiles()
        &&& self.sum_of_possible_tile_weights == masked_sum(
            m.counts(),
            self.possible_set(),
            m.tiles(),
        )
        &&& self.sum_of_possible_tile_weight_log_weights == masked_sum(
            m.log_weights(),
            self.possible_set(),
            m.tiles(),
        )
        &&& self.sum_of_possible_tile_weight_log_weights <= self.sum_of_possible_tile_weights
            * LOG_PER_COUNT
        &&& self.tile_enabler_counts@.len() == m.tiles()
        &&& self.noise() < NOISE_RANGE
    }

    /// Exactly one tile is possible.
    pub open spec fn settled(&self) -> bool {
        exists|t: usize| self.possible_set() == set![t]
    }

    /// The entropy from the cached sums.
    pub open spec fn cached_entropy(&self) -> nat {
        entropy_spec(
            self.sum_of_possible_tile_weights as nat,
            self.sum_of_possible_tile_weight_log_weights as nat,
            self.noise(),
        )
    }

    /// The entropy from the possible tiles themselves.
    pub open spec fn fresh_entropy(&self, m: &Model) -> nat {
        entropy_spec(
            masked_sum(m.counts(), self.possible_set(), m.tiles()) as nat,
            masked_sum(m.log_weights(), self.possible_set(), m.tiles()) as nat,
            self.noise(),
        )
    }

    /// A cell where every tile of `context` is possible, with the model's
    /// initial enabler counts and no noise yet.
    pub fn new(capacity: usize, context: &Model) -> (r: CoreCell)
        requires
            context.wf(),
            capacity == context.tiles(),
        ensures
            r.wf(context),
            r.possible_set() == Set::new(|t: usize| t < capacity),
            !r.is_collpased,
            r.noise() == 0,
            forall|t: int, d: int|
                0 <= t < context.tiles() && 0 <= d < 4
                    ==> #[trigger] r.tile_enabler_counts@[t].by_direction@[d] == context.adj(
                    t,
                    d,
                ).len(),
    {
        let mut bs = empty_set(capacity);
        let mut w: u32 = 0;
        let mut lw: u64 = 0;
        let mut t: usize = 0;
        proof {
            lemma_masked_sum_empty(context.counts(), 0);
            lemma_masked_sum_empty(context.log_weights(), 0);
        }
        while t < capacity
            invariant
                context.wf(),
                capacity == context.tiles(),
                t <= capacity,
                set_items(bs) == Set::new(|i: usize| i < t),
                w == masked_sum(context.counts(), set_items(bs), t as int),
                lw == masked_sum(context.log_weights(), set_items(bs), t as int),
                w <= count_sum(context.freq_map@, t as int),
                lw <= w * LOG_PER_COUNT,
            decreases capacity - t,
        {
            let (c, l) = context.get_relative_freq(t);
            proof {
                lemma_count_le_sum(context.freq_map@, t as int, capacity as int);
                assert(context.freq_map@[t as int].1.0 >= 1);
                crate::log2::lemma_plogp_bound(c as nat);
                assert(lw + l <= (w + c) * LOG_PER_COUNT) by (nonlinear_arith)
                    requires
                        lw <= w * LOG_PER_COUNT,
                        l <= c * LOG_PER_COUNT,
                ;
            }
            let ghost before = set_items(bs);
            set_insert(&mut bs, t);
            proof {
                lemma_masked_sum_agree(context.counts(), before, set_items(bs), t as int);
                lemma_masked_sum_agree(context.log_weights(), before, set_items(bs), t as int);
                assert(set_items(bs) =~= Set::new(|i: usize| i < t + 1));
            }
            w = w + c;
            lw = lw + l;
            t = t + 1;
        }
        let enablers = context.get_initial_tile_enabler_counts();
        CoreCell {
            possible: bs,
            sum_of_possible_tile_weights: w,
            sum_of_possible_tile_weight_log_weights: lw,
            entropy_noise: 0,
            is_collpased: false,
            tile_enabler_counts: enablers,
        }
    }

    /// Σ count over the possible tiles, recomputed.
    pub fn total_possible_tile_freq(&self, model: &Model) -> (r: u32)
        requires
            model.wf(),
            self.wf(model),
        ensures
            r == masked_sum(model.counts(), self.possible_set(), model.tiles()),
    {
        let n = model.size();
        let mut total: u32 = 0;
        let mut t: usize = 0;
        while t < n
            invariant
                model.wf(),
                self.wf(model),
                n == model.tiles(),
                t <= n,
                total == masked_sum(model.counts(), self.possible_set(), t as int),
            decreases n - t,
        {
            proof {
                lemma_masked_sum_bounds(model.counts(), model.counts(), 1, self.possible_set(), t + 1);
                lemma_masked_sum_prefix(model.counts(), self.possible_set(), t + 1, n as int);
                lemma_masked_sum_full(*model, n as int);
                lemma_masked_sum_bounds(
                    model.counts(),
                    model.counts(),
                    1,
                    Set::new(|i: usize| true),
                    n as int,
                );
                lemma_masked_sum_bounds(model.counts(), model.counts(), 1, self.possible_set(), n as int);
            }
            if set_contains(&self.possible, t) {
                total = total + model.get_relative_freq(t).0;
            }
            t = t + 1;
        }
        total
    }

    /// Σ count·log2(count) over the possible tiles, recomputed.
    pub fn total_possible_tile_log_weight(&self, model: &Model) -> (r: u64)
        requires
            model.wf(),
            self.wf(model),
        ensures
            r == masked_sum(model.log_weights(), self.possible_set(), model.tiles()),
    {
        let n = model.size();
        let mut total: u64 = 0;
        let mut t: usize = 0;
        while t < n
            invariant
                model.wf(),
                self.wf(model),
                n == model.tiles(),
                t <= n,
                total == masked_sum(model.log_weights(), self.possible_set(), t as int),
            decreases n - t,
        {
            proof {
                lemma_log_weights_bounded(&*model);
                lemma_masked_sum_bounds(
                    model.log_weights(),
                    model.counts(),
                    LOG_PER_COUNT as int,
                    self.possible_set(),
                    t + 1,
                );
                lemma_masked_sum_prefix(model.counts(), self.possible_set(), t + 1, n as int);
                lemma_masked_sum_bounds(model.counts(), model.counts(), 1, self.possible_set(), n as int);
                lemma_masked_sum_bounds(model.counts(), model.counts(), 1, self.possible_set(), t + 1);
                let a = masked_sum(model.counts(), self.possible_set(), t + 1);
                assert(a * LOG_PER_COUNT <= u32::MAX * LOG_PER_COUNT) by (nonlinear_arith)
                    requires
                        a <= u32::MAX,
                ;
            }
            if set_contains(&self.possible, t) {
                total = total + model.get_relative_freq(t).1;
            }
            t = t + 1;
        }
        total
    }

    /// Two cells hold the same state.
    pub open spec fn same_state(&self, o: &CoreCell) -> bool {
        &&& self.possible_set() == o.possible_set()
        &&& self.sum_of_possible_tile_weights == o.sum_of_possible_tile_weights
        &&& self.sum_of_possible_tile_weight_log_weights == o.sum_of_possible_tile_weight_log_weights
        &&& self.entropy_noise == o.entropy_noise
        &&& self.is_collpased == o.is_collpased
        &&& self.tile_enabler_counts@ == o.tile_enabler_counts@
    }

    /// An independent copy of the cell.
    pub fn duplicate(&self) -> (r: CoreCell)
        ensures
            r.same_state(self),
    {
        let n = self.tile_enabler_counts.len();
        let mut counts: Vec<TileEnablerCount> = Vec::with_capacity(n);
        let mut i: usize = 0;
        while i < n
            invariant
                n == self.tile_enabler_counts@.len(),
                i <= n,
                counts@ == self.tile_enabler_counts@.subrange(0, i as int),
            decreases n - i,
        {
            counts.push(self.tile_enabler_counts[i]);
            i = i + 1;
            assert(counts@ =~= self.tile_enabler_counts@.subrange(0, i as int));
        }
        assert(counts@ =~= self.tile_enabler_counts@);
        CoreCell {
            possible: set_clone(&self.possible),
            sum_of_possible_tile_weights: self.sum_of_possible_tile_weights,
            sum_of_possible_tile_weight_log_weights: self.sum_of_possible_tile_weight_log_weights,
            entropy_noise: self.entropy_noise,
            is_collpased: self.is_collpased,
            tile_enabler_counts: counts,
        }
    }

    /// Sets the enabler count of `tile` in the direction with index `d`.
    pub fn set_enabler(&mut self, tile: usize, d: usize, value: usize)
        requires
            tile < old(self).tile_enabler_counts@.len(),
            d < 4,
        ensures
            final(self).tile_enabler_counts@.len() == old(self).tile_enabler_counts@.len(),
            final(self).tile_enabler_counts@[tile as int].by_direction@ == old(
                self,
            ).tile_enabler_counts@[tile as int].by_direction@.update(d as int, value),
            forall|u: int|
                #![trigger final(self).tile_enabler_counts@[u]]
                0 <= u < old(self).tile_enabler_counts@.len() && u != tile ==> final(self).tile_enabler_counts@[u]
                    == old(self).tile_enabler_counts@[u],
            final(self).possible == old(self).possible,
            final(self).sum_of_possible_tile_weights == old(self).sum_of_possible_tile_weights,
            final(self).sum_of_possible_tile_weight_log_weights
                == old(self).sum_of_possible_tile_weight_log_weights,
            final(self).entropy_noise == old(self).entropy_noise,
            final(self).is_collpased == old(self).is_collpased,
    {
        let mut counts = self.tile_enabler_counts[tile];
        counts.by_direction[d] = value;
        self.tile_enabler_counts.set(tile, counts);
    }

    /// Marks the cell collapsed.
    pub fn collapsed(&mut self)
        ensures
            final(self).is_collpased,
            final(self).possible == old(self).possible,
            final(self).sum_of_possible_tile_weights == old(self).sum_of_possible_tile_weights,
            final(self).sum_of_possible_tile_weight_log_weights
                == old(self).sum_of_possible_tile_weight_log_weights,
            final(self).entropy_noise == old(self).entropy_noise,
            final(self).tile_enabler_counts == old(self).tile_enabler_counts,
    {
        self.is_collpased = true;
    }

    /// The entropy recomputed from the possible tiles.
    pub fn entropy_no_cache(&self, model: &Model) -> (r: u64)
        requires
            model.wf(),
            self.wf(model),
        ensures
            r == self.fresh_entropy(model),
    {
        let w = self.total_possible_tile_freq(model);
        let l = self.total_possible_tile_log_weight(model);
        entropy_key(w, l, self.entropy_noise)
    }

    /// The entropy from the cached sums.
    pub fn entropy(&self) -> (r: u64)
        requires
            self.sum_of_possible_tile_weight_log_weights <= self.sum_of_possible_tile_weights
                * LOG_PER_COUNT,
            self.noise() < NOISE_RANGE,
        ensures
            r == self.cached_entropy(),
    {
        entropy_key(
            self.sum_of_possible_tile_weights,
            self.sum_of_possible_tile_weight_log_weights,
            self.entropy_noise,
        )
    }

    /// Removes a possible tile and updates the cached sums.
    pub fn remove_tile(&mut self, tile_index: TileIndex, model: &Model)
        requires
            model.wf(),
            old(self).wf(model),
            old(self).possible_set().contains(tile_index),
        ensures
            final(self).wf(model),
            final(self).possible_set() == old(self).possible_set().remove(tile_index),
            final(self).sum_of_possible_tile_weights == 0 <==> final(self).possible_set() == Set::<
                usize,
            >::empty(),
            final(self).is_collpased == old(self).is_collpased,
            final(self).entropy_noise == old(self).entropy_noise,
            final(self).tile_enabler_counts == old(self).tile_enabler_counts,
    {
        let ghost p = self.possible_set();
        proof {
            lemma_log_weights_bounded(&*model);
            lemma_masked_sum_remove(model.counts(), p, tile_index, model.tiles());
            lemma_masked_sum_remove(model.log_weights(), p, tile_index, model.tiles());
            lemma_masked_sum_bounds(model.counts(), model.counts(), 1, p, model.tiles());
            lemma_masked_sum_bounds(
                model.log_weights(),
                model.counts(),
                LOG_PER_COUNT as int,
                p,
                model.tiles(),
            );
            lemma_masked_sum_bounds(
                model.log_weights(),
                model.counts(),
                LOG_PER_COUNT as int,
                p.remove(tile_index),
                model.tiles(),
            );
        }
        set_remove(&mut self.possible, tile_index);
        let freq = model.get_relative_freq(tile_index);
        self.sum_of_possible_tile_weights = self.sum_of_possible_tile_weights - freq.0;
        self.sum_of_possible_tile_weight_log_weights = self.sum_of_possible_tile_weight_log_weights
            - freq.1;
        proof {
            lemma_weight_zero_iff_empty(*self, model);
        }
    }

    /// Leaves `tile` as the only possible tile, with the sums to match.
    fn keep_only(&mut self, tile: TileIndex, model: &Model)
        requires
            model.wf(),
            old(self).wf(model),
            old(self).possible_set().contains(tile),
        ensures
            final(self).wf(model),
            final(self).possible_set() == set![tile],
            final(self).is_collpased == old(self).is_collpased,
            final(self).entropy_noise == old(self).entropy_noise,
            final(self).tile_enabler_counts == old(self).tile_enabler_counts,
    {
        set_clear(&mut self.possible);
        set_insert(&mut self.possible, tile);
        let freq = model.get_relative_freq(tile);
        proof {
            lemma_log_weights_bounded(&*model);
            assert(set_items(self.possible) =~= set![tile]);
            lemma_masked_sum_single(model.counts(), tile, model.tiles());
            lemma_masked_sum_single(model.log_weights(), tile, model.tiles());
        }
        self.sum_of_possible_tile_weights = freq.0;
        self.sum_of_possible_tile_weight_log_weights = freq.1;
    }

    /// Roulette selection: walking the possible tiles in ascending order and
    /// subtracting their counts from `remaining`, the tile at which
    /// `remaining` drops below the count.
    pub fn pick_tile(&self, context: &Model, remaining: u32) -> (r: TileIndex)
        requires
            context.wf(),
            self.wf(context),
            remaining < self.sum_of_possible_tile_weights,
        ensures
            self.possible_set().contains(r),
            r < context.tiles(),
            masked_sum(context.counts(), self.possible_set(), r as int) <= remaining,
            remaining < masked_sum(context.counts(), self.possible_set(), r + 1),
    {
        let n = context.size();
        let mut acc: u32 = 0;
        let mut t: usize = 0;
        while t < n
            invariant
                context.wf(),
                self.wf(context),
                n == context.tiles(),
                t <= n,
                remaining < self.sum_of_possible_tile_weights,
                acc == masked_sum(context.counts(), self.possible_set(), t as int),
                acc <= remaining,
            decreases n - t,
        {
            proof {
                lemma_log_weights_bounded(&*context);
                lemma_masked_sum_prefix(context.counts(), self.possible_set(), t + 1, n as int);
            }
            if set_contains(&self.possible, t) {
                let weight = context.get_relative_freq(t).0;
                if remaining < acc + weight {
                    return t;
                }
                acc = acc + weight;
            }
            t = t + 1;
        }
        unreached()
    }

    /// A weighted random choice among the possible tiles, or `None` when no
    /// weight is left.
    fn choose_sample_index(&self, context: &Model, rng: &mut StdRng) -> (r: Option<TileIndex>)
        requires
            context.wf(),
            self.wf(context),
        ensures
            r.is_none() <==> self.sum_of_possible_tile_weights == 0,
            r matches Some(t) ==> self.possible_set().contains(t),
    {
        if self.sum_of_possible_tile_weights == 0 {
            return None;
        }
        let remaining = draw_below(rng, self.sum_of_possible_tile_weights as u64) as u32;
        Some(self.pick_tile(context, remaining))
    }

    /// Whether no tile is possible.
    pub fn has_no_possible_tiles(&self, context: &Model) -> (r: bool)
        requires
            context.wf(),
            self.wf(context),
        ensures
            r == (self.possible_set() == Set::<usize>::empty()),
    {
        let r = self.sum_of_possible_tile_weights == 0;
        proof {
            lemma_weight_zero_iff_empty(*self, &*context);
        }
        r
    }

    /// The single possible tile, when exactly one is left.
    pub fn get_the_only_possible_tile_index(&self) -> (r: Option<usize>)
        ensures
            r matches Some(t) ==> self.possible_set() == set![t],
            r.is_none() ==> forall|t: usize| self.possible_set() != set![t],
    {
        let members = set_members(&self.possible);
        if members.len() == 1 {
            proof {
                assert(members@.to_set() =~= set![members@[0]]);
            }
            Some(members[0])
        } else {
            proof {
                assert forall|t: usize| self.possible_set() != set![t] by {
                    if self.possible_set() == set![t] {
                        assert(members@.to_set().contains(t));
                        let i = choose|i: int| 0 <= i < members@.len() && members@[i] == t;
                        if members@.len() == 0 {
                        } else {
                            let j = if i == 0 { 1int } else { 0int };
                            assert(members@.to_set().contains(members@[j]));
                            assert(members@[j] == t);
                            if i < j {
                                assert(members@[i] < members@[j]);
                            } else {
                                assert(members@[j] < members@[i]);
                            }
                        }
                    }
                }
            }
            None
        }
    }
}

/// The collapse engine: the output grid of cells, the queue of entropies,
/// the removals still to propagate, and the model the cells draw from.
pub struct CoreState {
    pub grid: Grid2D<CoreCell>,
    /// Cells not collapsed yet.
    pub remaining_uncollapsed_cells: usize,
    pub model: Arc<Model>,
    /// Lazy priority queue: entries may be stale and are checked when taken.
    pub entropy_heap: Vec<EntropyCoord>,
    pub tile_removals: VecDeque<RemovalUpdate>,
    pub rng: StdRng,
}

/// Every cell of `new` allows no tile that the same cell of `old` did not,
/// and a cell collapsed in `old` is still collapsed.
pub open spec fn shrinks_from(new: Seq<CoreCell>, old: Seq<CoreCell>) -> bool {
    &&& new.len() == old.len()
    &&& forall|i: int|
        0 <= i < new.len() ==> (#[trigger] new[i]).possible_set().subset_of(old[i].possible_set())
            && (old[i].is_collpased ==> new[i].is_collpased)
}

/// Whether each cell of `new` is collapsed exactly when that of `old` is.
pub open spec fn same_flags(new: Seq<CoreCell>, old: Seq<CoreCell>) -> bool {
    &&& new.len() == old.len()
    &&& forall|i: int| 0 <= i < new.len() ==> (#[trigger] new[i]).is_collpased == old[i].is_collpased
}

/// Number of cells not collapsed yet.
pub open spec fn count_uncollapsed(cells: Seq<CoreCell>) -> int
    decreases cells.len(),
{
    if cells.len() == 0 {
        0
    } else {
        count_uncollapsed(cells.drop_last()) + if cells.last().is_collpased {
            0int
        } else {
            1int
        }
    }
}

pub proof fn lemma_count_uncollapsed_update(cells: Seq<CoreCell>, i: int, c: CoreCell)
    requires
        0 <= i < cells.len(),
    ensures
        count_uncollapsed(cells.update(i, c)) == count_uncollapsed(cells) - (if cells[i].is_collpased {
            0int
        } else {
            1int
        }) + (if c.is_collpased {
            0int
        } else {
            1int
        }),
    decreases cells.len(),
{
    if i < cells.len() - 1 {
        assert(cells.update(i, c).drop_last() =~= cells.drop_last().update(i, c));
        lemma_count_uncollapsed_update(cells.drop_last(), i, c);
    } else {
        assert(cells.update(i, c).drop_last() =~= cells.drop_last());
    }
}

/// Cells with the same flags count alike; none uncollapsed means all are
/// collapsed.
pub proof fn lemma_count_uncollapsed(cells: Seq<CoreCell>, other: Seq<CoreCell>)
    ensures
        0 <= count_uncollapsed(cells) <= cells.len(),
        same_flags(cells, other) ==> count_uncollapsed(cells) == count_uncollapsed(other),
        count_uncollapsed(cells) == 0 ==> forall|i: int|
            0 <= i < cells.len() ==> (#[trigger] cells[i]).is_collpased,
        (forall|i: int| 0 <= i < cells.len() ==> !(#[trigger] cells[i]).is_collpased)
            ==> count_uncollapsed(cells) == cells.len(),
        count_uncollapsed(cells) > 0 ==> exists|i: int|
            0 <= i < cells.len() && !(#[trigger] cells[i]).is_collpased,
    decreases cells.len(),
{
    if cells.len() > 0 {
        lemma_count_uncollapsed(cells.drop_last(), other.drop_last());
        if same_flags(cells, other) {
            assert(same_flags(cells.drop_last(), other.drop_last()));
        }
        if count_uncollapsed(cells) == 0 {
            assert forall|i: int| 0 <= i < cells.len() implies (#[trigger] cells[i]).is_collpased by {
                if i < cells.len() - 1 {
                    assert(cells.drop_last()[i] == cells[i]);
                }
            }
        }
        if count_uncollapsed(cells) > 0 && !cells.last().is_collpased {
            assert(!cells[cells.len() - 1].is_collpased);
        } else if count_uncollapsed(cells) > 0 {
            let i = choose|i: int|
                0 <= i < cells.drop_last().len() && !(#[trigger] cells.drop_last()[i]).is_collpased;
            assert(cells.drop_last()[i] == cells[i]);
        }
        if forall|i: int| 0 <= i < cells.len() ==> !(#[trigger] cells[i]).is_collpased {
            assert forall|i: int| 0 <= i < cells.drop_last().len() implies !(
            #[trigger] cells.drop_last()[i]).is_collpased by {
                assert(cells.drop_last()[i] == cells[i]);
            }
        }
    }
}

impl CoreState {
    /// The model is well formed, so is every cell for it, and every queued
    /// entry names a position on the grid (and a tile of the model).
    pub open spec fn wf(&self) -> bool {
        &&& self.model.wf()
        &&& self.grid.wf()
        &&& forall|i: int|
            0 <= i < self.grid.data@.len() ==> (#[trigger] self.grid.data@[i]).wf(&self.model)
        &&& forall|i: int|
            0 <= i < self.grid.data@.len() && (#[trigger] self.grid.data@[i]).is_collpased
                ==> self.grid.data@[i].settled()
        &&& forall|i: int|
            0 <= i < self.entropy_heap@.len() ==> self.grid.in_bounds(
                (#[trigger] self.entropy_heap@[i]).coord,
            )
        &&& forall|i: int|
            0 <= i < self.tile_removals@.len() ==> self.grid.in_bounds(
                (#[trigger] self.tile_removals@[i]).coord,
            ) && self.tile_removals@[i].tile_index < self.model.tiles()
    }

    /// Every tile is possible in every cell, and every enabler count is the
    /// number of tiles allowed next to the tile in that direction: the state
    /// `new` builds.
    pub open spec fn fresh(&self) -> bool {
        &&& forall|i: int|
            0 <= i < self.grid.data@.len() ==> (#[trigger] self.grid.data@[i]).possible_set()
                == Set::new(|t: usize| t < self.model.tiles())
        &&& forall|i: int, t: int, d: int|
            0 <= i < self.grid.data@.len() && 0 <= t < self.model.tiles() && 0 <= d < 4
                ==> #[trigger] self.grid.data@[i].tile_enabler_counts@[t].by_direction@[d]
                == self.model.adj(t, d).len()
    }

    /// The cell at `pos`.
    pub open spec fn cell_at(&self, pos: Vector2) -> CoreCell {
        self.grid.data@[self.grid.index_of(pos)]
    }

    /// A fresh engine over a `width` × `height` grid in which every tile is
    /// possible everywhere, each cell with its own noise drawn from a
    /// generator seeded with `seed`, and every cell queued with its entropy.
    pub fn new(model: Arc<Model>, width: usize, height: usize, seed: u64) -> (r: CoreState)
        requires
            model.wf(),
            width * height <= usize::MAX,
            width <= i32::MAX,
            height <= i32::MAX,
        ensures
            r.wf(),
            *r.model == *model,
            r.grid.width == width,
            r.grid.height == height,
            r.remaining_uncollapsed_cells == width * height,
            r.remaining_uncollapsed_cells == count_uncollapsed(r.grid.data@),
            r.tile_removals@.len() == 0,
            forall|i: int|
                0 <= i < r.grid.data@.len() ==> (#[trigger] r.grid.data@[i]).possible_set()
                    == Set::new(|t: usize| t < model.tiles()) && !r.grid.data@[i].is_collpased,
            r.fresh(),
            r.enablers_exact(),
            r.consistent(),
            r.entropy_heap@.len() == width * height,
            forall|k: int|
                0 <= k < r.entropy_heap@.len() ==> r.grid.index_of((#[trigger] r.entropy_heap@[k]).coord)
                    == k && r.grid.in_bounds(r.entropy_heap@[k].coord) && r.entropy_heap@[k].entropy
                    == r.grid.data@[k].cached_entropy(),
            r.covers(),
    {
        let n = width * height;
        let tiles = model.size();
        let mut data: Vec<CoreCell> = Vec::new();
        let mut i: usize = 0;
        while i < n
            invariant
                model.wf(),
                tiles == model.tiles(),
                i <= n,
                data@.len() == i,
                forall|j: int|
                    0 <= j < i ==> (#[trigger] data@[j]).wf(&model) && data@[j].possible_set()
                        == Set::new(|t: usize| t < model.tiles()) && !data@[j].is_collpased,
                forall|j: int, t: int, d: int|
                    0 <= j < i && 0 <= t < model.tiles() && 0 <= d < 4
                        ==> #[trigger] data@[j].tile_enabler_counts@[t].by_direction@[d]
                        == model.adj(t, d).len(),
            decreases n - i,
        {
            let cell = CoreCell::new(tiles, &model);
            let ghost before = data@;
            let ghost c = cell;
            data.push(cell);
            proof {
                assert(data@[i as int] == c);
                assert forall|j: int, t: int, d: int|
                    0 <= j < i + 1 && 0 <= t < model.tiles() && 0 <= d < 4
                        implies #[trigger] data@[j].tile_enabler_counts@[t].by_direction@[d]
                        == model.adj(t, d).len() by {
                    if j < i {
                        assert(data@[j] == before[j]);
                    } else {
                        assert(c.tile_enabler_counts@[t].by_direction@[d] == model.adj(t, d).len());
                    }
                }
            }
            i = i + 1;
        }
        let mut cs = CoreState {
            grid: Grid2D { width, height, data },
            remaining_uncollapsed_cells: n,
            model,
            entropy_heap: Vec::new(),
            tile_removals: VecDeque::new(),
            rng: seeded_rng(seed),
        };
        let ghost cells0 = cs.grid.data@;
        cs.distribute_entropy_noise();
        proof {
            assert forall|j: int, t: int, d: int|
                0 <= j < cs.grid.data@.len() && 0 <= t < cs.model.tiles() && 0 <= d < 4
                    implies #[trigger] cs.grid.data@[j].tile_enabler_counts@[t].by_direction@[d]
                    == cs.model.adj(t, d).len() by {
                assert(cs.grid.data@[j].tile_enabler_counts == cells0[j].tile_enabler_counts);
            }
            assert forall|j: int| 0 <= j < cs.grid.data@.len() implies (#[trigger] cs.grid.data@[j]).possible_set()
                == Set::new(|t: usize| t < cs.model.tiles()) by {
                assert(cs.grid.data@[j].possible == cells0[j].possible);
            }
        }
        let mut idx: usize = 0;
        while idx < n
            invariant
                cs.wf(),
                *cs.model == *model,
                cs.grid.width == width,
                cs.grid.height == height,
                n == width * height,
                cs.remaining_uncollapsed_cells == n,
                cs.tile_removals@.len() == 0,
                forall|j: int|
                    0 <= j < cs.grid.data@.len() ==> (#[trigger] cs.grid.data@[j]).possible_set()
                        == Set::new(|t: usize| t < model.tiles()) && !cs.grid.data@[j].is_collpased,
                cs.fresh(),
                idx <= n,
                cs.entropy_heap@.len() == idx,
                forall|k: int|
                    0 <= k < idx ==> cs.grid.index_of((#[trigger] cs.entropy_heap@[k]).coord) == k
                        && cs.grid.in_bounds(cs.entropy_heap@[k].coord) && cs.entropy_heap@[k].entropy
                        == cs.grid.data@[k].cached_entropy(),
            decreases n - idx,
        {
            let coord = cs.grid.to_coord(idx).unwrap();
            proof {
                assert(cs.grid.data@[idx as int].wf(&cs.model));
            }
            let entropy = cs.grid.data[idx].entropy();
            cs.entropy_heap.push(EntropyCoord::new(entropy, coord));
            idx = idx + 1;
        }
        proof {
            lemma_count_uncollapsed(cs.grid.data@, cs.grid.data@);
            crate::consistency::lemma_fresh_exact(cs);
            assert forall|i: int|
                0 <= i < cs.grid.data@.len() && i != -1 && !(#[trigger] cs.grid.data@[i]).is_collpased implies exists|k: int|
                0 <= k < cs.entropy_heap@.len() && cs.grid.index_of((#[trigger] cs.entropy_heap@[k]).coord)
                    == i by {
                assert(cs.grid.index_of(cs.entropy_heap@[i].coord) == i);
            }
        }
        cs
    }

    /// A separate engine over the `w` × `h` rectangle of this grid whose
    /// top-left corner is `(ox, oy)`: copies of its cells, the same model, a
    /// queue entry for each uncollapsed cell, nothing left to propagate, and
    /// a generator seeded with `seed`.
    pub fn quadrant(&self, ox: usize, oy: usize, w: usize, h: usize, seed: u64) -> (r: CoreState)
        requires
            self.wf(),
            ox + w <= self.grid.width,
            oy + h <= self.grid.height,
        ensures
            r.wf(),
            *r.model == *self.model,
            r.grid.width == w,
            r.grid.height == h,
            r.remaining_uncollapsed_cells == count_uncollapsed(r.grid.data@),
            r.tile_removals@.len() == 0,
            forall|j: int|
                0 <= j < r.grid.data@.len() ==> (#[trigger] r.grid.data@[j]).same_state(
                    &self.grid.data@[(oy + j / w as int) * self.grid.width + ox + j % w as int],
                ),
            r.covers(),
    {
        let total = self.grid.data.len();
        proof {
            crate::grid2d::lemma_mul_le(w as int, h as int, self.grid.width as int, self.grid.height as int);
        }
        let n = w * h;
        let mut data: Vec<CoreCell> = Vec::new();
        let mut remaining: usize = 0;
        let mut k: usize = 0;
        while k < n
            invariant
                self.wf(),
                total == self.grid.width * self.grid.height,
                ox + w <= self.grid.width,
                oy + h <= self.grid.height,
                n == w * h,
                k <= n,
                data@.len() == k,
                remaining == count_uncollapsed(data@),
                remaining <= k,
                forall|j: int|
                    0 <= j < k ==> (#[trigger] data@[j]).same_state(
                        &self.grid.data@[(oy + j / w as int) * self.grid.width + ox + j % w as int],
                    ),
            decreases n - k,
        {
            proof {
                crate::grid2d::lemma_coord_of(w as int, h as int, k as int);
                crate::grid2d::lemma_row_major(
                    self.grid.width as int,
                    self.grid.height as int,
                    ox + k as int % w as int,
                    oy + k as int / w as int,
                );
            }
            let x = k % w;
            let y = k / w;
            let cell = self.grid.data[(oy + y) * self.grid.width + ox + x].duplicate();
            let ghost before = data@;
            let collapsed = cell.is_collpased;
            data.push(cell);
            proof {
                assert(data@.drop_last() =~= before);
            }
            if !collapsed {
                remaining = remaining + 1;
            }
            k = k + 1;
        }
        let mut cs = CoreState {
            grid: Grid2D { width: w, height: h, data },
            remaining_uncollapsed_cells: remaining,
            model: share(&self.model),
            entropy_heap: Vec::new(),
            tile_removals: VecDeque::new(),
            rng: seeded_rng(seed),
        };
        proof {
            assert forall|j: int| 0 <= j < cs.grid.data@.len() implies (#[trigger] cs.grid.data@[j]).wf(
                &cs.model,
            ) by {
                let src = (oy + j / w as int) * self.grid.width + ox + j % w as int;
                crate::grid2d::lemma_coord_of(w as int, h as int, j);
                crate::grid2d::lemma_row_major(
                    self.grid.width as int,
                    self.grid.height as int,
                    ox + j % w as int,
                    oy + j / w as int,
                );
                assert(self.grid.data@[src].wf(&self.model));
                assert(cs.grid.data@[j].same_state(&self.grid.data@[src]));
            }
            assert forall|j: int|
                0 <= j < cs.grid.data@.len() && (#[trigger] cs.grid.data@[j]).is_collpased implies cs.grid.data@[j].settled() by {
                let src = (oy + j / w as int) * self.grid.width + ox + j % w as int;
                crate::grid2d::lemma_coord_of(w as int, h as int, j);
                crate::grid2d::lemma_row_major(
                    self.grid.width as int,
                    self.grid.height as int,
                    ox + j % w as int,
                    oy + j / w as int,
                );
                assert(cs.grid.data@[j].same_state(&self.grid.data@[src]));
                assert(self.grid.data@[src].is_collpased ==> self.grid.data@[src].settled());
            }
        }
        let ghost cells = cs.grid.data@;
        let mut idx: usize = 0;
        while idx < n
            invariant
                cs.wf(),
                cs.grid.data@ == cells,
                *cs.model == *self.model,
                cs.grid.width == w,
                cs.grid.height == h,
                n == w * h,
                cs.remaining_uncollapsed_cells == count_uncollapsed(cs.grid.data@),
                cs.tile_removals@.len() == 0,
                idx <= n,
                forall|i: int|
                    0 <= i < idx && !(#[trigger] cs.grid.data@[i]).is_collpased ==> exists|k: int|
                        0 <= k < cs.entropy_heap@.len() && cs.grid.index_of(
                            (#[trigger] cs.entropy_heap@[k]).coord,
                        ) == i,
            decreases n - idx,
        {
            if !cs.grid.data[idx].is_collpased {
                let coord = cs.grid.to_coord(idx).unwrap();
                proof {
                    assert(cs.grid.data@[idx as int].wf(&cs.model));
                }
                let entropy = cs.grid.data[idx].entropy();
                let ghost hb = cs.entropy_heap@;
                cs.entropy_heap.push(EntropyCoord::new(entropy, coord));
                proof {
                    assert(cs.grid.index_of(cs.entropy_heap@[hb.len() as int].coord) == idx);
                    assert forall|i: int|
                        0 <= i < idx && !(#[trigger] cs.grid.data@[i]).is_collpased implies exists|k: int|
                        0 <= k < cs.entropy_heap@.len() && cs.grid.index_of(
                            (#[trigger] cs.entropy_heap@[k]).coord,
                        ) == i by {
                        let k = choose|k: int|
                            0 <= k < hb.len() && cs.grid.index_of((#[trigger] hb[k]).coord) == i;
                        assert(cs.entropy_heap@[k] == hb[k]);
                    }
                }
            }
            idx = idx + 1;
        }
        proof {
            assert forall|i: int|
                0 <= i < cs.grid.data@.len() && i != -1 && !(#[trigger] cs.grid.data@[i]).is_collpased implies exists|k: int|
                0 <= k < cs.entropy_heap@.len() && cs.grid.index_of((#[trigger] cs.entropy_heap@[k]).coord)
                    == i by {
                assert(i < idx);
            }
        }
        cs
    }

    /// Whether `(x, y)` lies in the separating cross: the `n` columns from
    /// `sx` or the `n` rows from `sy`.
    pub open spec fn in_strip(x: int, y: int, sx: int, sy: int, n: int) -> bool {
        (sx <= x < sx + n) || (sy <= y < sy + n)
    }

    /// Width of the bands of the separating cross: the pattern size.
    pub open spec fn cross_n(&self) -> int {
        if self.model.tiles() > 0 && self.model.samples@[0].region.width > 0 {
            self.model.samples@[0].region.width as int
        } else {
            1
        }
    }

    /// First column of the vertical band.
    pub open spec fn cross_x(&self) -> int {
        let mx = self.grid.width / 2;
        if mx >= self.cross_n() / 2 {
            mx - self.cross_n() / 2
        } else {
            0
        }
    }

    /// First row of the horizontal band.
    pub open spec fn cross_y(&self) -> int {
        let my = self.grid.height / 2;
        if my >= self.cross_n() / 2 {
            my - self.cross_n() / 2
        } else {
            0
        }
    }

    /// Cell `i` lies in the separating cross.
    pub open spec fn in_cross(&self, i: int) -> bool {
        Self::in_strip(
            i % self.grid.width as int,
            i / self.grid.width as int,
            self.cross_x(),
            self.cross_y(),
            self.cross_n(),
        )
    }

    /// Collapses, in order of entropy, every cell of a cross of `n`-wide
    /// bands through the middle of the grid (`n` the pattern size), with
    /// full propagation; the cross then separates the four quadrants, which
    /// are returned as separate engines: top-left, top-right, bottom-left,
    /// bottom-right, split at half the width and half the height. `None`
    /// when the cross runs into a contradiction.
    pub fn collapse_middle(&mut self, seed: u64) -> (r: Option<
        (CoreState, CoreState, CoreState, CoreState),
    >)
        requires
            old(self).wf(),
            old(self).remaining_uncollapsed_cells == count_uncollapsed(old(self).grid.data@),
        ensures
            final(self).wf(),
            *final(self).model == *old(self).model,
            final(self).grid.width == old(self).grid.width,
            final(self).grid.height == old(self).grid.height,
            shrinks_from(final(self).grid.data@, old(self).grid.data@),
            r matches Some(q) ==> {
                let mx = old(self).grid.width / 2;
                let my = old(self).grid.height / 2;
                let w = old(self).grid.width;
                let h = old(self).grid.height;
                &&& q.0.is_part(&*old(self).model, mx as int, my as int)
                &&& q.1.is_part(&*old(self).model, w - mx, my as int)
                &&& q.2.is_part(&*old(self).model, mx as int, h - my)
                &&& q.3.is_part(&*old(self).model, w - mx, h - my)
            },
            r.is_none() ==> has_empty(final(self).grid.data@),
            old(self).model.tiles() == 1 && !has_empty(old(self).grid.data@)
                && old(self).tile_removals@.len() == 0 ==> r.is_some(),
            old(self).supported() && r.is_some() ==> final(self).supported(),
            old(self).enablers_exact() && old(self).supported() && old(self).consistent() && old(self).tile_removals@.len() == 0 && r.is_some() ==> final(self).enablers_exact() && final(self).consistent()
                && final(self).tile_removals@.len() == 0,
            r matches Some(q) ==> q.0.covers() && q.1.covers() && q.2.covers() && q.3.covers(),
            !has_empty(old(self).grid.data@) && r.is_some() ==> !has_empty(final(self).grid.data@),
            r.is_some() ==> forall|i: int|
                0 <= i < final(self).grid.data@.len() && old(self).in_cross(i)
                    ==> (#[trigger] final(self).grid.data@[i]).is_collpased,
            r matches Some(q) ==> {
                let mx = old(self).grid.width / 2;
                let my = old(self).grid.height / 2;
                &&& forall|j: int|
                    0 <= j < q.0.grid.data@.len() ==> (#[trigger] q.0.grid.data@[j]).same_state(
                        &final(self).grid.data@[(j / mx as int) * final(self).grid.width + j % mx as int],
                    )
                &&& forall|j: int|
                    0 <= j < q.1.grid.data@.len() ==> (#[trigger] q.1.grid.data@[j]).same_state(
                        &final(self).grid.data@[(j / q.1.grid.width as int) * final(self).grid.width + mx
                            + j % q.1.grid.width as int],
                    )
                &&& forall|j: int|
                    0 <= j < q.2.grid.data@.len() ==> (#[trigger] q.2.grid.data@[j]).same_state(
                        &final(self).grid.data@[(my + j / mx as int) * final(self).grid.width + j
                            % mx as int],
                    )
                &&& forall|j: int|
                    0 <= j < q.3.grid.data@.len() ==> (#[trigger] q.3.grid.data@[j]).same_state(
                        &final(self).grid.data@[(my + j / q.3.grid.width as int) * final(self).grid.width
                            + mx + j % q.3.grid.width as int],
                    )
            },
    {
        let w = self.grid.width;
        let h = self.grid.height;
        let n: usize = if self.model.size() > 0 && self.model.samples[0].region.width > 0 {
            self.model.samples[0].region.width
        } else {
            1
        };
        let mx = w / 2;
        let my = h / 2;
        let sx = if mx >= n / 2 {
            mx - n / 2
        } else {
            0
        };
        let sy = if my >= n / 2 {
            my - n / 2
        } else {
            0
        };
        let total = self.grid.data.len();
        let mut targets: Vec<EntropyCoord> = Vec::new();
        let mut idx: usize = 0;
        while idx < total
            invariant
                self.wf(),
                total == self.grid.data@.len(),
                idx <= total,
                forall|i: int|
                    0 <= i < targets@.len() ==> self.grid.in_bounds((#[trigger] targets@[i]).coord),
                self.cross_n() == n,
                self.cross_x() == sx,
                self.cross_y() == sy,
                forall|i: int|
                    0 <= i < idx && self.in_cross(i) ==> exists|k: int|
                        0 <= k < targets@.len() && self.grid.index_of((#[trigger] targets@[k]).coord)
                            == i,
            decreases total - idx,
        {
            let coord = self.grid.to_coord(idx).unwrap();
            let x = coord.x as usize;
            let y = coord.y as usize;
            if (sx <= x && x - sx < n) || (sy <= y && y - sy < n) {
                proof {
                    assert(self.grid.data@[idx as int].wf(&self.model));
                }
                let entropy = self.grid.data[idx].entropy();
                let ghost tb = targets@;
                targets.push(EntropyCoord::new(entropy, coord));
                proof {
                    assert(self.grid.index_of(targets@[tb.len() as int].coord) == idx);
                    assert forall|i: int|
                        0 <= i < idx && self.in_cross(i) implies exists|k: int|
                        0 <= k < targets@.len() && self.grid.index_of((#[trigger] targets@[k]).coord)
                            == i by {
                        let k = choose|k: int|
                            0 <= k < tb.len() && self.grid.index_of((#[trigger] tb[k]).coord) == i;
                        assert(targets@[k] == tb[k]);
                    }
                }
            } else {
                proof {
                    assert(!self.in_cross(idx as int));
                }
            }
            idx = idx + 1;
        }
        loop
            invariant
                self.wf(),
                *self.model == *old(self).model,
                self.grid.width == w,
                self.grid.height == h,
                w == old(self).grid.width,
                h == old(self).grid.height,
                mx == w / 2,
                my == h / 2,
                shrinks_from(self.grid.data@, old(self).grid.data@),
                self.remaining_uncollapsed_cells == count_uncollapsed(self.grid.data@),
                forall|i: int|
                    0 <= i < targets@.len() ==> self.grid.in_bounds((#[trigger] targets@[i]).coord),
                old(self).cross_n() == n,
                old(self).cross_x() == sx,
                old(self).cross_y() == sy,
                old(self).supported() ==> self.supported(),
                !has_empty(old(self).grid.data@) ==> !has_empty(self.grid.data@),
                old(self).enablers_exact() && old(self).supported() && old(self).consistent() && old(self).tile_removals@.len() == 0 ==> self.enablers_exact() && self.consistent() && self.tile_removals@.len() == 0,
                old(self).model.tiles() == 1 && !has_empty(old(self).grid.data@)
                    && old(self).tile_removals@.len() == 0 ==> self.tile_removals@.len() == 0,
                forall|i: int|
                    0 <= i < self.grid.data@.len() && old(self).in_cross(i) && !(
                    #[trigger] self.grid.data@[i]).is_collpased ==> exists|k: int|
                        0 <= k < targets@.len() && self.grid.index_of((#[trigger] targets@[k]).coord)
                            == i,
            decreases 5 * self.remaining_uncollapsed_cells + targets@.len(),
        {
            let ghost before = targets@;
            match pop_lowest(&mut targets) {
                None => {
                    proof {
                        assert forall|i: int|
                            0 <= i < self.grid.data@.len() && old(self).in_cross(i) implies (
                            #[trigger] self.grid.data@[i]).is_collpased by {
                            if !self.grid.data@[i].is_collpased {
                                let k = choose|k: int|
                                    0 <= k < targets@.len() && self.grid.index_of(
                                        (#[trigger] targets@[k]).coord,
                                    ) == i;
                            }
                        }
                    }
                    let a = self.quadrant(0, 0, mx, my, seed ^ 1);
                    let b = self.quadrant(mx, 0, w - mx, my, seed ^ 2);
                    let c = self.quadrant(0, my, mx, h - my, seed ^ 3);
                    let d = self.quadrant(mx, my, w - mx, h - my, seed ^ 4);
                    return Some((a, b, c, d));
                },
                Some(entropy_coord) => {
                    proof {
                        let i = choose|i: int|
                            0 <= i < before.len() && entropy_coord == before[i]
                                && targets@ == before.update(i, before.last()).drop_last();
                        assert(self.grid.in_bounds(before[i].coord));
                        assert forall|j: int| 0 <= j < targets@.len() implies self.grid.in_bounds(
                            (#[trigger] targets@[j]).coord,
                        ) by {
                            if j == i {
                                assert(self.grid.in_bounds(before[before.len() - 1].coord));
                            } else {
                                assert(self.grid.in_bounds(before[j].coord));
                            }
                        }
                    }
                    let pos = entropy_coord.coord;
                    let i = self.grid.idx(pos).unwrap();
                    let ghost popped = targets@;
                    let ghost cells_before = self.grid.data@;
                    proof {
                        let p = choose|p: int|
                            0 <= p < before.len() && entropy_coord == before[p]
                                && targets@ == before.update(p, before.last()).drop_last();
                        assert forall|ii: int|
                            0 <= ii < self.grid.data@.len() && old(self).in_cross(ii) && ii != i && !(
                            #[trigger] self.grid.data@[ii]).is_collpased implies exists|k: int|
                            0 <= k < targets@.len() && self.grid.index_of((#[trigger] targets@[k]).coord)
                                == ii by {
                            let k = choose|k: int|
                                0 <= k < before.len() && self.grid.index_of((#[trigger] before[k]).coord)
                                    == ii;
                            assert(k != p);
                            if k == before.len() - 1 {
                                assert(targets@[p] == before[k]);
                            } else {
                                assert(targets@[k] == before[k]);
                            }
                        }
                    }
                    if !self.grid.data[i].is_collpased {
                        let ghost measure = 5 * self.remaining_uncollapsed_cells + targets@.len();
                        if self.forced_collapse(pos) == RunStatus::Failed {
                            return None;
                        }
                        let ghost cells_after = self.grid.data@;
                        proof {
                            assert(targets@.subrange(0, popped.len() as int) =~= popped);
                        }
                        let mut d: usize = 0;
                        while d < 4
                            invariant
                                self.wf(),
                                self.grid.width == w,
                                self.grid.height == h,
                                self.grid.in_bounds(pos),
                                d <= 4,
                                5 * self.remaining_uncollapsed_cells + targets@.len() + 4 - d
                                    < measure,
                                forall|k: int|
                                    0 <= k < targets@.len() ==> self.grid.in_bounds(
                                        (#[trigger] targets@[k]).coord,
                                    ),
                                self.grid.data@ == cells_after,
                                extends(popped, targets@),
                                old(self).supported() ==> self.supported(),
                                old(self).enablers_exact() && old(self).supported() && old(self).consistent() && old(self).tile_removals@.len() == 0 ==> self.enablers_exact() && self.consistent()
                                    && self.tile_removals@.len() == 0,
                            decreases 4 - d,
                        {
                            let nc = pos.neighbor(Direction::from_idx(d));
                            if let Some(ni) = self.grid.idx(nc) {
                                let x = nc.x as usize;
                                let y = nc.y as usize;
                                if ((sx <= x && x - sx < n) || (sy <= y && y - sy < n))
                                    && !self.grid.data[ni].is_collpased {
                                    proof {
                                        assert(self.grid.data@[ni as int].wf(&self.model));
                                    }
                                    let entropy = self.grid.data[ni].entropy();
                                    let ghost tb = targets@;
                                    targets.push(EntropyCoord::new(entropy, nc));
                                    proof {
                                        lemma_extends_push(popped, tb, EntropyCoord { entropy, coord: nc });
                                    }
                                }
                            }
                            d = d + 1;
                        }
                        proof {
                            assert forall|ii: int|
                                0 <= ii < self.grid.data@.len() && old(self).in_cross(ii) && !(
                                #[trigger] self.grid.data@[ii]).is_collpased implies exists|k: int|
                                0 <= k < targets@.len() && self.grid.index_of(
                                    (#[trigger] targets@[k]).coord,
                                ) == ii by {
                                assert(!cells_before[ii].is_collpased);
                                assert(ii != i);
                                let k = choose|k: int|
                                    0 <= k < popped.len() && self.grid.index_of((#[trigger] popped[k]).coord)
                                        == ii;
                                assert(targets@.subrange(0, popped.len() as int)[k] == targets@[k]);
                            }
                        }
                    }
                },
            }
        }
    }

    /// A separated part of a split engine: well formed for model `m`, of
    /// the given size, with nothing left to propagate and its count of
    /// uncollapsed cells right.
    pub open spec fn is_part(&self, m: &Model, w: int, h: int) -> bool {
        &&& self.wf()
        &&& *self.model == *m
        &&& self.grid.width == w
        &&& self.grid.height == h
        &&& self.remaining_uncollapsed_cells == count_uncollapsed(self.grid.data@)
        &&& self.tile_removals@.len() == 0
    }

    /// Solves a copy of this engine, retrying with fresh copies (each with
    /// its own seed) up to `max_retries` times; the solved grid, every cell
    /// collapsed to one tile, or `None`.
    pub fn restart(&self, max_retries: usize, seed: u64) -> (r: Option<Grid2D<CoreCell>>)
        requires
            self.wf(),
            self.remaining_uncollapsed_cells == count_uncollapsed(self.grid.data@),
        ensures
            r matches Some(g) ==> {
                &&& g.wf()
                &&& g.width == self.grid.width
                &&& g.height == self.grid.height
                &&& forall|i: int|
                    0 <= i < g.data@.len() ==> (#[trigger] g.data@[i]).wf(&*self.model)
                        && g.data@[i].is_collpased && g.data@[i].settled()
            },
            self.model.tiles() == 1 && self.supported() && !has_empty(self.grid.data@) ==> r.is_some(),
            r matches Some(g) ==> forall|i: int|
                0 <= i < g.data@.len() ==> (#[trigger] g.data@[i]).possible_set().subset_of(
                    self.grid.data@[i].possible_set(),
                ),
            self.enablers_exact() && self.consistent() && self.tile_removals@.len() == 0 ==> (
            r matches Some(g) ==> exists|s: CoreState|
                s.grid == g && *s.model == *self.model && s.wf() && #[trigger] s.consistent()),
    {
        let ghost single = self.model.tiles() == 1 && self.supported() && !has_empty(self.grid.data@);
        let ghost settled_start = self.enablers_exact() && self.consistent()
            && self.tile_removals@.len() == 0;
        let mut attempt: usize = 0;
        loop
            invariant
                self.wf(),
                self.remaining_uncollapsed_cells == count_uncollapsed(self.grid.data@),
                attempt <= max_retries,
                single == (self.model.tiles() == 1 && self.supported() && !has_empty(
                    self.grid.data@,
                )),
                settled_start == (self.enablers_exact() && self.consistent()
                    && self.tile_removals@.len() == 0),
            decreases max_retries - attempt,
        {
            let mut candidate = self.quadrant(
                0,
                0,
                self.grid.width,
                self.grid.height,
                seed ^ (attempt as u64),
            );
            proof {
                if single {
                    crate::consistency::lemma_part_supported(
                        *self,
                        candidate,
                        0,
                        0,
                        self.grid.width as int,
                        self.grid.height as int,
                    );
                }
                if settled_start {
                    crate::consistency::lemma_copy_keeps(*self, candidate);
                }
            }
            let ghost start = candidate.grid.data@;
            if candidate.run() == RunStatus::Succeeded {
                proof {
                    assert forall|i: int| 0 <= i < candidate.grid.data@.len() implies (
                    #[trigger] candidate.grid.data@[i]).possible_set().subset_of(
                        self.grid.data@[i].possible_set(),
                    ) by {
                        crate::grid2d::lemma_coord_of(
                            self.grid.width as int,
                            self.grid.height as int,
                            i,
                        );
                        assert(start[i].same_state(
                            &self.grid.data@[(0 + i / (self.grid.width as int)) * self.grid.width + 0
                                + i % (self.grid.width as int)],
                        ));
                        assert(candidate.grid.data@[i].possible_set().subset_of(start[i].possible_set()));
                    }
                    if settled_start {
                        assert(candidate.grid == candidate.grid && candidate.consistent());
                    }
                }
                return Some(candidate.grid);
            }
            if attempt >= max_retries {
                return None;
            }
            attempt = attempt + 1;
        }
    }

    /// Gives every cell its own tie-breaking noise, below `NOISE_RANGE`.
    fn distribute_entropy_noise(&mut self)
        requires
            old(self).wf(),
        ensures
            final(self).wf(),
            final(self).model == old(self).model,
            final(self).grid.width == old(self).grid.width,
            final(self).grid.height == old(self).grid.height,
            final(self).remaining_uncollapsed_cells == old(self).remaining_uncollapsed_cells,
            final(self).tile_removals == old(self).tile_removals,
            final(self).entropy_heap == old(self).entropy_heap,
            final(self).grid.data@.len() == old(self).grid.data@.len(),
            forall|i: int|
                #![trigger final(self).grid.data@[i]]
                0 <= i < final(self).grid.data@.len() ==> final(self).grid.data@[i].possible
                    == old(self).grid.data@[i].possible && final(self).grid.data@[i].is_collpased
                    == old(self).grid.data@[i].is_collpased
                    && final(self).grid.data@[i].tile_enabler_counts
                    == old(self).grid.data@[i].tile_enabler_counts,
    {
        let n = self.grid.data.len();
        let mut i: usize = 0;
        while i < n
            invariant
                self.wf(),
                self.model == old(self).model,
                self.grid.width == old(self).grid.width,
                self.grid.height == old(self).grid.height,
                self.remaining_uncollapsed_cells == old(self).remaining_uncollapsed_cells,
                self.tile_removals == old(self).tile_removals,
                self.entropy_heap == old(self).entropy_heap,
                n == self.grid.data@.len(),
                n == old(self).grid.data@.len(),
                i <= n,
                forall|j: int|
                    0 <= j < n ==> (#[trigger] self.grid.data@[j]).possible == old(
                        self,
                    ).grid.data@[j].possible && self.grid.data@[j].is_collpased == old(
                        self,
                    ).grid.data@[j].is_collpased && self.grid.data@[j].tile_enabler_counts == old(
                        self,
                    ).grid.data@[j].tile_enabler_counts,
            decreases n - i,
        {
            let noise = draw_below(&mut self.rng, NOISE_RANGE);
            let ghost cells0 = self.grid.data@;
            self.grid.data[i].entropy_noise = noise;
            proof {
                assert forall|j: int| 0 <= j < n implies (#[trigger] self.grid.data@[j]).wf(
                    &self.model,
                ) by {
                    assert(cells0[j].wf(&self.model));
                }
                assert forall|j: int|
                    0 <= j < n && (#[trigger] self.grid.data@[j]).is_collpased implies self.grid.data@[j].settled() by {
                    assert(cells0[j].is_collpased ==> cells0[j].settled());
                }
            }
            i = i + 1;
        }
    }

    /// Collapses the cell at `position` and propagates, counting one cell
    /// fewer left when both succeed.
    pub fn forced_collapse(&mut self, position: Vector2) -> (r: RunStatus)
        requires
            old(self).wf(),
            old(self).grid.in_bounds(position),
            !old(self).cell_at(position).is_collpased,
            old(self).remaining_uncollapsed_cells == count_uncollapsed(old(self).grid.data@),
        ensures
            final(self).wf(),
            final(self).model == old(self).model,
            final(self).grid.width == old(self).grid.width,
            final(self).grid.height == old(self).grid.height,
            shrinks_from(final(self).grid.data@, old(self).grid.data@),
            r == RunStatus::Succeeded ==> final(self).remaining_uncollapsed_cells == count_uncollapsed(
                final(self).grid.data@,
            ),
            r == RunStatus::Succeeded ==> final(self).cell_at(position).is_collpased,
            r == RunStatus::Succeeded ==> final(self).remaining_uncollapsed_cells + 1
                == old(self).remaining_uncollapsed_cells,
            r == RunStatus::Failed ==> final(self).remaining_uncollapsed_cells
                == old(self).remaining_uncollapsed_cells,
            r == RunStatus::Succeeded ==> final(self).tile_removals@.len() == 0,
            r == RunStatus::Failed ==> has_empty(final(self).grid.data@),
            !has_empty(old(self).grid.data@) && r == RunStatus::Succeeded ==> !has_empty(
                final(self).grid.data@,
            ),
            old(self).covers_except(old(self).grid.index_of(position)) && r == RunStatus::Succeeded
                ==> final(self).covers(),
            old(self).model.tiles() == 1 && !has_empty(old(self).grid.data@)
                && old(self).tile_removals@.len() == 0 ==> r == RunStatus::Succeeded,
            old(self).enablers_exact() && r == RunStatus::Succeeded ==> final(self).enablers_exact(),
            old(self).supported() && r == RunStatus::Succeeded ==> final(self).supported(),
            old(self).enablers_exact() && old(self).supported() && old(self).consistent() && r
                == RunStatus::Succeeded ==> final(self).consistent(),
    {
        let collapse_status = self.collapse_cell_at(position);
        match collapse_status {
            RunStatus::Failed => {
                proof {
                    crate::grid2d::lemma_row_major(
                        self.grid.width as int,
                        self.grid.height as int,
                        position.x as int,
                        position.y as int,
                    );
                    assert(self.grid.data@[self.grid.index_of(position)].possible_set()
                        == Set::<usize>::empty());
                }
                RunStatus::Failed
            },
            RunStatus::Succeeded => {
                proof {
                    lemma_count_uncollapsed(old(self).grid.data@, old(self).grid.data@);
                    crate::grid2d::lemma_row_major(
                        self.grid.width as int,
                        self.grid.height as int,
                        position.x as int,
                        position.y as int,
                    );
                    let c = old(self).grid.index_of(position);
                    if !has_empty(old(self).grid.data@) {
                        let t = choose|t: usize| old(self).cell_at(position).possible_set().contains(t)
                            && self.cell_at(position).possible_set() == set![t];
                        assert(self.grid.data@[c].possible_set().contains(t));
                        assert forall|i: int| 0 <= i < self.grid.data@.len() implies (
                        #[trigger] self.grid.data@[i]).possible_set() != Set::<usize>::empty() by {
                            if i != c {
                                assert(self.grid.data@[i] == old(self).grid.data@[i]);
                            } else {
                                assert(self.grid.data@[i].possible_set().contains(t));
                            }
                        }
                    }
                    if old(self).model.tiles() == 1 && old(self).tile_removals@.len() == 0 {
                        if self.tile_removals@.len() > 0 {
                            let t = choose|t: usize| old(self).cell_at(position).possible_set().contains(t)
                                && self.cell_at(position).possible_set() == set![t];
                            assert(old(self).grid.data@[c].wf(&old(self).model));
                            let x = self.tile_removals@[0];
                            assert(old(self).cell_at(position).possible_set().contains(x.tile_index));
                            assert(!self.cell_at(position).possible_set().contains(x.tile_index));
                        }
                    }
                }
                let ghost collapsed_state = *self;
                let ghost mid = self.grid.data@;
                let status = self.propagate();
                proof {
                    lemma_count_uncollapsed(self.grid.data@, mid);
                    crate::grid2d::lemma_row_major(
                        self.grid.width as int,
                        self.grid.height as int,
                        position.x as int,
                        position.y as int,
                    );
                    let i = self.grid.index_of(position);
                    assert(mid[i].is_collpased);
                    assert(self.grid.data@[i].is_collpased == mid[i].is_collpased);
                }
                if status == RunStatus::Failed {
                    return RunStatus::Failed;
                }
                self.remaining_uncollapsed_cells = self.remaining_uncollapsed_cells - 1;
                proof {
                    let c = old(self).grid.index_of(position);
                    if old(self).covers_except(c) {
                        assert(extends(old(self).entropy_heap@, collapsed_state.entropy_heap@)) by {
                            assert(old(self).entropy_heap@.subrange(0, old(self).entropy_heap@.len() as int)
                                =~= old(self).entropy_heap@);
                        }
                        lemma_extends_trans(old(self).entropy_heap@, collapsed_state.entropy_heap@, self.entropy_heap@);
                        assert forall|i: int|
                            0 <= i < self.grid.data@.len() && !(#[trigger] self.grid.data@[i]).is_collpased
                                implies !old(self).grid.data@[i].is_collpased && i != c by {
                            assert(mid[i].is_collpased == self.grid.data@[i].is_collpased);
                            if i != c {
                                assert(mid[i] == old(self).grid.data@[i]);
                            }
                        }
                        lemma_covers_kept(*old(self), *self, c);
                    }
                }
                proof {
                    if old(self).enablers_exact() && old(self).supported() && old(self).consistent() {
                        let c = old(self).grid.index_of(position);
                        let t = choose|t: usize|
                            old(self).cell_at(position).possible_set().contains(t) && mid[c].possible_set()
                                == set![t];
                        assert(self.grid.data@[c].is_collpased);
                        assert(self.grid.data@[c].settled());
                        let t2 = choose|t2: usize| self.grid.data@[c].possible_set() == set![t2];
                        assert(self.grid.data@[c].possible_set().subset_of(mid[c].possible_set()));
                        assert(self.grid.data@[c].possible_set().contains(t2));
                        assert forall|i: int|
                            0 <= i < self.grid.data@.len() && (#[trigger] self.grid.data@[i]).is_collpased
                                implies old(self).grid.data@[i].is_collpased || i == c by {
                            assert(mid[i].is_collpased == self.grid.data@[i].is_collpased);
                        }
                        crate::consistency::lemma_consistent_step(*old(self), *self, c, t);
                    }
                }
                RunStatus::Succeeded
            },
        }
    }

    /// Removes, from every uncollapsed cell, each possible tile that has no
    /// enabler at all in some direction where the cell has a neighbour,
    /// queueing the removals. Fails as soon as a cell has no tile left.
    pub fn prune_unsupported(&mut self) -> (r: RunStatus)
        requires
            old(self).wf(),
        ensures
            final(self).wf(),
            final(self).model == old(self).model,
            final(self).grid.width == old(self).grid.width,
            final(self).grid.height == old(self).grid.height,
            final(self).remaining_uncollapsed_cells == old(self).remaining_uncollapsed_cells,
            shrinks_from(final(self).grid.data@, old(self).grid.data@),
            same_flags(final(self).grid.data@, old(self).grid.data@),
            old(self).enablers_exact() && r == RunStatus::Succeeded ==> final(self).enablers_exact(),
            r == RunStatus::Succeeded ==> final(self).supported(),
            r == RunStatus::Failed ==> has_empty(final(self).grid.data@),
            extends(old(self).entropy_heap@, final(self).entropy_heap@),
            !has_empty(old(self).grid.data@) ==> (r == RunStatus::Failed <==> has_empty(
                final(self).grid.data@,
            )),
            old(self).supported() ==> r == RunStatus::Succeeded && final(self).grid == old(self).grid
                && final(self).tile_removals == old(self).tile_removals && final(self).entropy_heap
                == old(self).entropy_heap,
    {
        let n = self.grid.data.len();
        let tiles = self.model.size();
        let mut idx: usize = 0;
        proof {
            assert(self.entropy_heap@.subrange(0, self.entropy_heap@.len() as int) =~= self.entropy_heap@);
        }
        while idx < n
            invariant
                self.wf(),
                self.model == old(self).model,
                self.grid.width == old(self).grid.width,
                self.grid.height == old(self).grid.height,
                self.remaining_uncollapsed_cells == old(self).remaining_uncollapsed_cells,
                shrinks_from(self.grid.data@, old(self).grid.data@),
                same_flags(self.grid.data@, old(self).grid.data@),
                old(self).enablers_exact() ==> self.enablers_exact(),
                !has_empty(old(self).grid.data@) ==> !has_empty(self.grid.data@),
                extends(old(self).entropy_heap@, self.entropy_heap@),
                old(self).supported() ==> self.grid == old(self).grid && self.tile_removals
                    == old(self).tile_removals && self.entropy_heap == old(self).entropy_heap,
                n == self.grid.data@.len(),
                tiles == self.model.tiles(),
                idx <= n,
                self.supported_before(idx as int, 0),
            decreases n - idx,
        {
            let coord = self.grid.to_coord(idx).unwrap();
            let mut t: usize = 0;
            while t < tiles
                invariant
                    self.wf(),
                    self.model == old(self).model,
                    self.grid.width == old(self).grid.width,
                    self.grid.height == old(self).grid.height,
                    self.remaining_uncollapsed_cells == old(self).remaining_uncollapsed_cells,
                    shrinks_from(self.grid.data@, old(self).grid.data@),
                    same_flags(self.grid.data@, old(self).grid.data@),
                    old(self).enablers_exact() ==> self.enablers_exact(),
                    !has_empty(old(self).grid.data@) ==> !has_empty(self.grid.data@),
                    extends(old(self).entropy_heap@, self.entropy_heap@),
                    old(self).supported() ==> self.grid == old(self).grid && self.tile_removals
                        == old(self).tile_removals && self.entropy_heap == old(self).entropy_heap,
                    n == self.grid.data@.len(),
                    tiles == self.model.tiles(),
                    idx < n,
                    self.grid.in_bounds(coord),
                    self.grid.index_of(coord) == idx,
                    t <= tiles,
                    self.supported_before(idx as int, t as int),
                decreases tiles - t,
            {
                let mut unsupported = false;
                let mut d: usize = 0;
                while d < 4
                    invariant
                        self.wf(),
                        n == self.grid.data@.len(),
                        tiles == self.model.tiles(),
                        idx < n,
                        t < tiles,
                        self.grid.in_bounds(coord),
                        self.grid.index_of(coord) == idx,
                        d <= 4,
                        self.model == old(self).model,
                        self.grid.width == old(self).grid.width,
                        self.grid.height == old(self).grid.height,
                        self.remaining_uncollapsed_cells == old(self).remaining_uncollapsed_cells,
                        shrinks_from(self.grid.data@, old(self).grid.data@),
                        same_flags(self.grid.data@, old(self).grid.data@),
                        old(self).enablers_exact() ==> self.enablers_exact(),
                        !has_empty(old(self).grid.data@) ==> !has_empty(self.grid.data@),
                        extends(old(self).entropy_heap@, self.entropy_heap@),
                        old(self).supported() ==> self.grid == old(self).grid && self.tile_removals
                            == old(self).tile_removals && self.entropy_heap == old(self).entropy_heap,
                        self.supported_before(idx as int, t as int),
                        unsupported == exists|e: int|
                            0 <= e < d && self.nb(idx as int, e) >= 0
                                && #[trigger] self.grid.data@[idx as int].tile_enabler_counts@[t as int].by_direction@[e]
                                == 0,
                    decreases 4 - d,
                {
                    let nc = coord.neighbor(Direction::from_idx(d));
                    proof {
                        assert(self.grid.data@[idx as int].wf(&self.model));
                        lemma_nb_coord(self.grid.width as int, self.grid.height as int, coord, d as int);
                        lemma_direction_index(d as int);
                    }
                    if self.grid.valid_pos(nc) && self.grid.data[idx].tile_enabler_counts[t].by_direction[d] == 0 {
                        unsupported = true;
                    }
                    d = d + 1;
                }
                let ghost before_removal = *self;
                if unsupported && !self.grid.data[idx].is_collpased && set_contains(&self.grid.data[idx].possible, t) {
                    let ghost cells1 = self.grid.data@;
                    let ghost state1 = *self;
                    proof {
                        assert(cells1[idx as int].wf(&self.model));
                        if old(self).supported() {
                            let e = choose|e: int|
                                0 <= e < 4 && self.nb(idx as int, e) >= 0
                                    && #[trigger] self.grid.data@[idx as int].tile_enabler_counts@[t as int].by_direction@[e]
                                    == 0;
                            assert(old(self).grid.data@[idx as int] == self.grid.data@[idx as int]);
                            assert(old(self).grid.data@[idx as int].tile_enabler_counts@[t as int].by_direction@[e] > 0);
                        }
                    }
                    self.grid.data[idx].remove_tile(t, &self.model);
                    proof {
                        assert(self.grid.data@ == cells1.update(idx as int, self.grid.data@[idx as int]));
                        assert forall|i: int| 0 <= i < self.grid.data@.len() implies (
                        #[trigger] self.grid.data@[i]).wf(&self.model) by {
                            assert(cells1[i].wf(&self.model));
                        }
                        assert forall|i: int|
                            0 <= i < self.grid.data@.len() && (
                            #[trigger] self.grid.data@[i]).is_collpased implies self.grid.data@[i].settled() by {
                            assert(cells1[i].is_collpased ==> cells1[i].settled());
                        }
                    }
                    proof {
                        lemma_weight_zero_iff_empty(self.grid.data@[idx as int], &*self.model);
                    }
                    if self.grid.data[idx].sum_of_possible_tile_weights == 0 {
                        proof {
                            assert(self.grid.data@[idx as int].possible_set() == Set::<usize>::empty());
                        }
                        return RunStatus::Failed;
                    }
                    proof {
                        if !has_empty(old(self).grid.data@) {
                            lemma_has_empty_update(cells1, idx as int, self.grid.data@[idx as int]);
                        }
                    }
                    let entropy = self.grid.data[idx].entropy();
                    let ghost hb = self.entropy_heap@;
                    self.entropy_heap.push(EntropyCoord::new(entropy, coord));
                    proof {
                        lemma_extends_push(old(self).entropy_heap@, hb, EntropyCoord { entropy, coord: coord });
                    }
                    self.tile_removals.push_back(RemovalUpdate { tile_index: t, coord });
                    proof {
                        if old(self).enablers_exact() {
                            assert forall|kk: int|
                                0 <= kk < state1.grid.data@.len() && kk != idx implies #[trigger] self.grid.data@[kk]
                                == state1.grid.data@[kk] by {
                                assert(self.grid.data@ == cells1.update(
                                    idx as int,
                                    self.grid.data@[idx as int],
                                ));
                            }
                            crate::consistency::lemma_queue_removal_exact(
                                state1,
                                *self,
                                crate::consistency::settled_counts(),
                                idx as int,
                                t,
                                coord,
                            );
                        }
                    }
                }
                proof {
                    let s0 = before_removal;
                    assert forall|i: int, u: usize, e: int|
                        0 <= i < self.grid.data@.len() && 0 <= e < 4 && self.nb(i, e) >= 0
                            && !self.grid.data@[i].is_collpased && self.grid.data@[i].possible_set().contains(u)
                            && (i < idx || (i == idx && u < t + 1))
                            implies #[trigger] self.grid.data@[i].tile_enabler_counts@[u as int].by_direction@[e] > 0 by {
                        assert(self.grid.data@[i].possible_set().subset_of(s0.grid.data@[i].possible_set()));
                        assert(self.grid.data@[i].tile_enabler_counts == s0.grid.data@[i].tile_enabler_counts);
                        if i == idx && u == t {
                            assert(s0.grid.data@[i].tile_enabler_counts@[u as int].by_direction@[e] != 0);
                        }
                    }
                }
                t = t + 1;
            }
            proof {
                assert forall|i: int, u: usize, e: int|
                    0 <= i < self.grid.data@.len() && 0 <= e < 4 && self.nb(i, e) >= 0
                        && !self.grid.data@[i].is_collpased && self.grid.data@[i].possible_set().contains(u)
                        && (i < idx + 1 || (i == idx + 1 && u < 0))
                        implies #[trigger] self.grid.data@[i].tile_enabler_counts@[u as int].by_direction@[e] > 0 by {
                    assert(self.grid.data@[i].wf(&self.model));
                }
            }
            idx = idx + 1;
        }
        proof {
            assert forall|i: int, u: usize, e: int|
                0 <= i < self.grid.data@.len() && 0 <= e < 4 && self.nb(i, e) >= 0
                    && !self.grid.data@[i].is_collpased && self.grid.data@[i].possible_set().contains(u)
                    implies #[trigger] self.grid.data@[i].tile_enabler_counts@[u as int].by_direction@[e] > 0 by {
                assert(i < n);
            }
        }
        RunStatus::Succeeded
    }

    /// First removes the tiles that lack all support in some direction
    /// (`prune_unsupported`) and propagates; then collapses cells one at a
    /// time, each time the uncollapsed cell of least entropy, propagating
    /// after each, until none is left. Fails when the entropy queue runs dry
    /// or a cell is left with no tile.
    pub fn run(&mut self) -> (r: RunStatus)
        requires
            old(self).wf(),
            old(self).remaining_uncollapsed_cells == count_uncollapsed(old(self).grid.data@),
        ensures
            final(self).wf(),
            final(self).model == old(self).model,
            final(self).grid.width == old(self).grid.width,
            final(self).grid.height == old(self).grid.height,
            shrinks_from(final(self).grid.data@, old(self).grid.data@),
            final(self).remaining_uncollapsed_cells <= old(self).remaining_uncollapsed_cells,
            r == RunStatus::Failed ==> has_empty(final(self).grid.data@)
                || final(self).entropy_heap@.len() == 0,
            old(self).model.tiles() == 1 && old(self).supported() && !has_empty(old(self).grid.data@)
                && old(self).covers() && old(self).tile_removals@.len() == 0 ==> r
                == RunStatus::Succeeded,
            (forall|i: int|
                0 <= i < old(self).grid.data@.len() ==> (#[trigger] old(self).grid.data@[i]).is_collpased)
                && old(self).tile_removals@.len() == 0 ==> r == RunStatus::Succeeded,
            r == RunStatus::Succeeded ==> final(self).remaining_uncollapsed_cells == 0,
            r == RunStatus::Succeeded ==> final(self).tile_removals@.len() == 0,
            old(self).enablers_exact() && r == RunStatus::Succeeded ==> final(self).enablers_exact(),
            old(self).enablers_exact() && old(self).consistent() && r == RunStatus::Succeeded
                ==> final(self).consistent(),
            r == RunStatus::Succeeded ==> forall|i: int|
                #![trigger final(self).grid.data@[i]]
                0 <= i < final(self).grid.data@.len() ==> final(self).grid.data@[i].is_collpased
                    && final(self).grid.data@[i].settled(),
    {
        let ghost start = self.grid.data@;
        proof {
            if forall|i: int|
                0 <= i < old(self).grid.data@.len() ==> (#[trigger] old(self).grid.data@[i]).is_collpased {
                lemma_count_uncollapsed(old(self).grid.data@, old(self).grid.data@);
                assert(old(self).supported());
            }
        }
        if self.prune_unsupported() == RunStatus::Failed {
            return RunStatus::Failed;
        }
        let ghost pruned = self.grid.data@;
        let ghost pruned_state = *self;
        if self.propagate() == RunStatus::Failed {
            return RunStatus::Failed;
        }
        let ghost after = *self;
        proof {
            if old(self).model.tiles() == 1 && old(self).supported() && !has_empty(old(self).grid.data@)
                && old(self).covers() && old(self).tile_removals@.len() == 0 {
                assert(extends(old(self).entropy_heap@, self.entropy_heap@)) by {
                    assert(old(self).entropy_heap@.subrange(0, old(self).entropy_heap@.len() as int)
                        =~= old(self).entropy_heap@);
                }
                lemma_covers_kept(*old(self), *self, -1);
            }
            lemma_count_uncollapsed(self.grid.data@, pruned);
            lemma_count_uncollapsed(pruned, start);
            if old(self).consistent() {
                crate::consistency::lemma_consistent_shrink(*old(self), pruned_state);
                crate::consistency::lemma_consistent_shrink(pruned_state, after);
            }
        }
        while self.remaining_uncollapsed_cells > 0
            invariant
                self.wf(),
                self.model == old(self).model,
                self.grid.width == old(self).grid.width,
                self.grid.height == old(self).grid.height,
                shrinks_from(self.grid.data@, old(self).grid.data@),
                self.remaining_uncollapsed_cells == count_uncollapsed(self.grid.data@),
                self.remaining_uncollapsed_cells <= old(self).remaining_uncollapsed_cells,
                self.tile_removals@.len() == 0,
                old(self).enablers_exact() ==> self.enablers_exact(),
                self.supported(),
                old(self).enablers_exact() && old(self).consistent() ==> self.consistent(),
                old(self).model.tiles() == 1 && old(self).supported() && !has_empty(old(self).grid.data@)
                    && old(self).covers() && old(self).tile_removals@.len() == 0 ==> !has_empty(
                    self.grid.data@,
                ) && self.covers(),
            decreases self.remaining_uncollapsed_cells,
        {
            proof {
                lemma_count_uncollapsed(self.grid.data@, self.grid.data@);
            }
            let next_coord = match self.choose_next_cell() {
                Some(coord) => coord,
                None => {
                    return RunStatus::Failed;
                },
            };
            let status = self.forced_collapse(next_coord);
            if status == RunStatus::Failed {
                return RunStatus::Failed;
            }
        }
        proof {
            lemma_count_uncollapsed(self.grid.data@, self.grid.data@);
        }
        RunStatus::Succeeded
    }

    /// The output image: each cell coloured with the top-left pixel of its
    /// single remaining tile (black where none or several remain).
    pub fn output_pixels(&self) -> (r: Vec<Rgb>)
        requires
            self.wf(),
        ensures
            r@.len() == self.grid.data@.len(),
            forall|i: int|
                0 <= i < r@.len() ==> #[trigger] r@[i] == cell_colour(&self.model, self.grid.data@[i]),
    {
        let n = self.grid.data.len();
        let mut out: Vec<Rgb> = Vec::new();
        let mut i: usize = 0;
        while i < n
            invariant
                self.wf(),
                n == self.grid.data@.len(),
                i <= n,
                out@.len() == i,
                forall|j: int|
                    0 <= j < i ==> #[trigger] out@[j] == cell_colour(&self.model, self.grid.data@[j]),
            decreases n - i,
        {
            let colour = match self.grid.data[i].get_the_only_possible_tile_index() {
                Some(t) => {
                    proof {
                        assert(self.grid.data@[i as int].wf(&self.model));
                        assert(self.grid.data@[i as int].possible_set().contains(t));
                        let u = choose|u: usize| self.grid.data@[i as int].possible_set() == set![u];
                        assert(set![u].contains(t));
                    }
                    tile_colour(&self.model, t)
                },
                None => BLACK,
            };
            out.push(colour);
            i = i + 1;
        }
        out
    }

    /// Whether every cell has been collapsed.
    pub fn is_collpased(&self) -> (r: bool)
        ensures
            r == (self.remaining_uncollapsed_cells == 0),
    {
        self.remaining_uncollapsed_cells == 0
    }

    /// The next cell to collapse: an uncollapsed cell taken from the entropy
    /// queue with the least recorded entropy, entries of collapsed cells
    /// being dropped on the way. `None` when the queue runs dry.
    pub fn choose_next_cell(&mut self) -> (r: Option<Vector2>)
        requires
            old(self).wf(),
        ensures
            final(self).wf(),
            final(self).grid == old(self).grid,
            final(self).model == old(self).model,
            final(self).tile_removals == old(self).tile_removals,
            final(self).remaining_uncollapsed_cells == old(self).remaining_uncollapsed_cells,
            final(self).entropy_heap@.len() <= old(self).entropy_heap@.len(),
            r matches Some(c) ==> old(self).grid.in_bounds(c) && !old(self).cell_at(
                c,
            ).is_collpased,
            r.is_none() ==> final(self).entropy_heap@.len() == 0,
            old(self).enablers_exact() ==> final(self).enablers_exact(),
            old(self).supported() ==> final(self).supported(),
            old(self).consistent() ==> final(self).consistent(),
            r.is_none() <==> forall|k: int|
                0 <= k < old(self).entropy_heap@.len() ==> old(self).cell_at(
                    (#[trigger] old(self).entropy_heap@[k]).coord,
                ).is_collpased,
            r matches Some(c) ==> exists|j: int|
                0 <= j < old(self).entropy_heap@.len() && (#[trigger] old(self).entropy_heap@[j]).coord
                    == c && forall|k: int|
                    0 <= k < old(self).entropy_heap@.len() && !old(self).cell_at(
                        (#[trigger] old(self).entropy_heap@[k]).coord,
                    ).is_collpased ==> old(self).entropy_heap@[j].entropy
                        <= old(self).entropy_heap@[k].entropy,
            forall|k: int|
                0 <= k < final(self).entropy_heap@.len() ==> old(self).entropy_heap@.contains(
                    #[trigger] final(self).entropy_heap@[k],
                ),
            forall|x: EntropyCoord|
                #[trigger] final(self).entropy_heap@.to_multiset().count(x) <= old(
                    self,
                ).entropy_heap@.to_multiset().count(x),
            r.is_none() ==> forall|x: EntropyCoord|
                !old(self).cell_at(x.coord).is_collpased ==> #[trigger] final(self).entropy_heap@.to_multiset().count(x) == old(self).entropy_heap@.to_multiset().count(x),
            r matches Some(c) ==> exists|e: EntropyCoord|
                #![trigger old(self).entropy_heap@.to_multiset().count(e)]
                e.coord == c && old(self).entropy_heap@.to_multiset().count(e) > 0 && forall|x: EntropyCoord|
                    !old(self).cell_at(x.coord).is_collpased ==> #[trigger] final(self).entropy_heap@.to_multiset().count(x) == old(self).entropy_heap@.to_multiset().count(x) - (
                    if x == e {
                        1int
                    } else {
                        0int
                    }),
            old(self).covers() ==> (r matches Some(c) ==> final(self).covers_except(
                final(self).grid.index_of(c),
            )),
            old(self).covers() && (exists|i: int|
                0 <= i < old(self).grid.data@.len() && !(
                #[trigger] old(self).grid.data@[i]).is_collpased) ==> r.is_some(),
    {
        loop
            invariant
                self.wf(),
                self.grid == old(self).grid,
                self.model == old(self).model,
                self.tile_removals == old(self).tile_removals,
                self.remaining_uncollapsed_cells == old(self).remaining_uncollapsed_cells,
                self.entropy_heap@.len() <= old(self).entropy_heap@.len(),
                old(self).enablers_exact() ==> self.enablers_exact(),
                old(self).supported() ==> self.supported(),
                old(self).consistent() ==> self.consistent(),
                old(self).wf(),
                forall|x: EntropyCoord|
                    #[trigger] self.entropy_heap@.to_multiset().count(x) <= old(
                        self,
                    ).entropy_heap@.to_multiset().count(x),
                forall|x: EntropyCoord|
                    !old(self).cell_at(x.coord).is_collpased ==> #[trigger] self.entropy_heap@.to_multiset().count(x)
                        == old(self).entropy_heap@.to_multiset().count(x),
                forall|k: int|
                    0 <= k < self.entropy_heap@.len() ==> old(self).entropy_heap@.contains(
                        #[trigger] self.entropy_heap@[k],
                    ),
                forall|k: int|
                    0 <= k < old(self).entropy_heap@.len() ==> old(self).cell_at(
                        (#[trigger] old(self).entropy_heap@[k]).coord,
                    ).is_collpased || self.entropy_heap@.contains(old(self).entropy_heap@[k]),
            decreases self.entropy_heap@.len(),
        {
            let ghost before = self.entropy_heap@;
            match pop_lowest(&mut self.entropy_heap) {
                None => {
                    proof {
                        assert forall|k: int|
                            0 <= k < old(self).entropy_heap@.len() implies old(self).cell_at(
                            (#[trigger] old(self).entropy_heap@[k]).coord,
                        ).is_collpased by {
                            if !old(self).cell_at(old(self).entropy_heap@[k].coord).is_collpased {
                                assert(before.contains(old(self).entropy_heap@[k]));
                            }
                        }
                        if old(self).consistent() {
                            crate::consistency::lemma_consistent_shrink(*old(self), *self);
                        }
                        if old(self).covers() {
                            assert forall|i: int|
                                0 <= i < old(self).grid.data@.len() implies (
                                #[trigger] old(self).grid.data@[i]).is_collpased by {
                                if !old(self).grid.data@[i].is_collpased {
                                    let k = choose|k: int|
                                        0 <= k < old(self).entropy_heap@.len() && old(self).grid.index_of(
                                            (#[trigger] old(self).entropy_heap@[k]).coord,
                                        ) == i;
                                    assert(old(self).cell_at(old(self).entropy_heap@[k].coord).is_collpased);
                                }
                            }
                        }
                    }
                    return None;
                },
                Some(entropy_coord) => {
                    proof {
                        let i = choose|i: int|
                            0 <= i < before.len() && entropy_coord == before[i]
                                && self.entropy_heap@ == before.update(i, before.last()).drop_last();
                        assert(self.grid.in_bounds(before[i].coord));
                        assert forall|j: int| 0 <= j < self.entropy_heap@.len() implies self.grid.in_bounds(
                            (#[trigger] self.entropy_heap@[j]).coord,
                        ) by {
                            if j == i {
                                assert(self.grid.in_bounds(before[before.len() - 1].coord));
                            } else {
                                assert(self.grid.in_bounds(before[j].coord));
                            }
                        }
                        assert forall|k: int| 0 <= k < self.entropy_heap@.len() implies old(
                            self,
                        ).entropy_heap@.contains(#[trigger] self.entropy_heap@[k]) by {
                            if k == i {
                                assert(before.contains(before[before.len() - 1]));
                            } else {
                                assert(before.contains(before[k]));
                            }
                        }
                        assert(before.contains(before[i]));
                        assert(old(self).entropy_heap@.contains(entropy_coord));
                        assert(self.entropy_heap@.to_multiset() == before.to_multiset().remove(entropy_coord));
                        assert forall|k: int|
                            0 <= k < old(self).entropy_heap@.len() implies old(self).cell_at(
                            (#[trigger] old(self).entropy_heap@[k]).coord,
                        ).is_collpased || self.entropy_heap@.contains(old(self).entropy_heap@[k])
                            || old(self).entropy_heap@[k] == entropy_coord by {
                            let x = old(self).entropy_heap@[k];
                            if !old(self).cell_at(x.coord).is_collpased {
                                assert(before.contains(x));
                                let m = choose|m: int| 0 <= m < before.len() && before[m] == x;
                                if m != i {
                                    if m == before.len() - 1 {
                                        assert(self.entropy_heap@[i] == x);
                                    } else {
                                        assert(self.entropy_heap@[m] == x);
                                    }
                                }
                            }
                        }
                        assert forall|k: int|
                            0 <= k < old(self).entropy_heap@.len() && !old(self).cell_at(
                            (#[trigger] old(self).entropy_heap@[k]).coord,
                        ).is_collpased implies entropy_coord.entropy <= old(self).entropy_heap@[k].entropy by {
                            let x = old(self).entropy_heap@[k];
                            assert(before.contains(x));
                            let m = choose|m: int| 0 <= m < before.len() && before[m] == x;
                            assert(entropy_coord.entropy <= before[m].entropy);
                        }
                    }
                    proof {
                        if old(self).consistent() {
                            crate::consistency::lemma_consistent_shrink(*old(self), *self);
                        }
                    }
                    let idx = self.grid.idx(entropy_coord.coord).unwrap();
                    if !self.grid.data[idx].is_collpased {
                        proof {
                            let j = choose|j: int|
                                0 <= j < old(self).entropy_heap@.len() && old(self).entropy_heap@[j]
                                    == entropy_coord;
                            assert(old(self).entropy_heap@[j].coord == entropy_coord.coord);
                            assert(!old(self).cell_at(old(self).entropy_heap@[j].coord).is_collpased);
                            broadcast use vstd::seq_lib::group_to_multiset_ensures;
                            assert(before.to_multiset().count(entropy_coord) > 0);
                            assert(old(self).entropy_heap@.to_multiset().count(entropy_coord) > 0);
                            if old(self).covers() {
                                let c = self.grid.index_of(entropy_coord.coord);
                                assert forall|ii: int|
                                    0 <= ii < self.grid.data@.len() && ii != c && !(
                                    #[trigger] self.grid.data@[ii]).is_collpased implies exists|k: int|
                                    0 <= k < self.entropy_heap@.len() && self.grid.index_of(
                                        (#[trigger] self.entropy_heap@[k]).coord,
                                    ) == ii by {
                                    let k = choose|k: int|
                                        0 <= k < old(self).entropy_heap@.len() && old(self).grid.index_of(
                                            (#[trigger] old(self).entropy_heap@[k]).coord,
                                        ) == ii;
                                    let x = old(self).entropy_heap@[k];
                                    assert(!old(self).cell_at(x.coord).is_collpased);
                                    assert(x != entropy_coord);
                                    assert(self.entropy_heap@.contains(x));
                                    let m = choose|m: int| 0 <= m < self.entropy_heap@.len() && self.entropy_heap@[m] == x;
                                    assert(self.grid.index_of(self.entropy_heap@[m].coord) == ii);
                                }
                            }
                        }
                        return Some(entropy_coord.coord);
                    }
                },
            }
        }
    }

    /// Drains the removal queue: every removed tile takes one enabler from
    /// each tile it supported in each neighbouring cell, and a tile whose
    /// count drops to zero is removed in turn from that cell, unless the cell
    /// is collapsed or no longer allows the tile (re-queueing the cell's
    /// entropy and the removal). Fails as soon as a cell has no tile left.
    pub fn propagate(&mut self) -> (r: RunStatus)
        requires
            old(self).wf(),
        ensures
            final(self).wf(),
            final(self).model == old(self).model,
            final(self).grid.width == old(self).grid.width,
            final(self).grid.height == old(self).grid.height,
            final(self).remaining_uncollapsed_cells == old(self).remaining_uncollapsed_cells,
            shrinks_from(final(self).grid.data@, old(self).grid.data@),
            same_flags(final(self).grid.data@, old(self).grid.data@),
            r == RunStatus::Succeeded ==> final(self).tile_removals@.len() == 0,
            old(self).enablers_exact() && r == RunStatus::Succeeded ==> final(self).enablers_exact(),
            old(self).supported() && r == RunStatus::Succeeded ==> final(self).supported(),
            r == RunStatus::Failed ==> has_empty(final(self).grid.data@),
            extends(old(self).entropy_heap@, final(self).entropy_heap@),
            r == RunStatus::Succeeded ==> final(self).requeued_since(old(self).grid.data@),
            !has_empty(old(self).grid.data@) ==> (r == RunStatus::Failed <==> has_empty(
                final(self).grid.data@,
            )),
            old(self).tile_removals@.len() == 0 ==> r == RunStatus::Succeeded && final(self).grid
                == old(self).grid && final(self).entropy_heap == old(self).entropy_heap,
    {
        proof {
            assert(self.entropy_heap@.subrange(0, self.entropy_heap@.len() as int) =~= self.entropy_heap@);
        }
        loop
            invariant
                self.wf(),
                self.model == old(self).model,
                self.grid.width == old(self).grid.width,
                self.grid.height == old(self).grid.height,
                self.remaining_uncollapsed_cells == old(self).remaining_uncollapsed_cells,
                shrinks_from(self.grid.data@, old(self).grid.data@),
                same_flags(self.grid.data@, old(self).grid.data@),
                old(self).enablers_exact() ==> self.enablers_exact(),
                old(self).supported() ==> self.supported(),
                !has_empty(old(self).grid.data@) ==> !has_empty(self.grid.data@),
                extends(old(self).entropy_heap@, self.entropy_heap@),
                self.requeued_since(old(self).grid.data@),
                old(self).tile_removals@.len() == 0 ==> self.grid == old(self).grid
                    && self.entropy_heap == old(self).entropy_heap && self.tile_removals@.len() == 0,
            decreases grid_weight(self.grid.data@) + self.tile_removals@.len(),
        {
            let ghost measure = grid_weight(self.grid.data@) + self.tile_removals@.len();
            proof {
                lemma_grid_weight_nonneg(self.grid.data@);
            }
            let ghost queue = self.tile_removals@;
            let ghost before = *self;
            let removal_update = match self.tile_removals.pop_front() {
                None => {
                    return RunStatus::Succeeded;
                },
                Some(u) => u,
            };
            proof {
                assert(queue[0] == removal_update);
                assert forall|i: int| 0 <= i < self.tile_removals@.len() implies self.grid.in_bounds(
                    (#[trigger] self.tile_removals@[i]).coord,
                ) && self.tile_removals@[i].tile_index < self.model.tiles() by {
                    assert(self.tile_removals@[i] == queue[i + 1]);
                }
                if old(self).enablers_exact() {
                    lemma_pop_exact(before, *self);
                }
                lemma_row_major(
                    self.grid.width as int,
                    self.grid.height as int,
                    removal_update.coord.x as int,
                    removal_update.coord.y as int,
                );
            }
            let ghost i0 = self.grid.index_of(removal_update.coord);
            let ghost u0 = removal_update.tile_index;
            let mut d: usize = 0;
            while d < 4
                invariant
                    self.wf(),
                    self.model == old(self).model,
                    self.grid.width == old(self).grid.width,
                    self.grid.height == old(self).grid.height,
                    self.remaining_uncollapsed_cells == old(self).remaining_uncollapsed_cells,
                    shrinks_from(self.grid.data@, old(self).grid.data@),
                    same_flags(self.grid.data@, old(self).grid.data@),
                    self.grid.in_bounds(removal_update.coord),
                    removal_update.tile_index < self.model.tiles(),
                    d <= 4,
                    grid_weight(self.grid.data@) + self.tile_removals@.len() < measure,
                    i0 == self.grid.index_of(removal_update.coord),
                    0 <= i0 < self.grid.data@.len(),
                    u0 == removal_update.tile_index,
                    old(self).supported() ==> self.supported(),
                    !has_empty(old(self).grid.data@) ==> !has_empty(self.grid.data@),
                    extends(old(self).entropy_heap@, self.entropy_heap@),
                    self.requeued_since(old(self).grid.data@),
                    old(self).tile_removals@.len() > 0,
                    old(self).enablers_exact() ==> self.exact_with(
                        pending(
                            self.grid.width as int,
                            self.grid.height as int,
                            &*self.model,
                            i0,
                            u0,
                            d as int,
                            Set::empty(),
                        ),
                    ),
                decreases 4 - d,
            {
                let direction = Direction::from_idx(d);
                let neighbour_coord = removal_update.coord.neighbor(direction);
                proof {
                    lemma_nb_coord(
                        self.grid.width as int,
                        self.grid.height as int,
                        removal_update.coord,
                        d as int,
                    );
                    lemma_direction_index(d as int);
                }
                if let Some(ni) = self.grid.idx(neighbour_coord) {
                    let od = direction.opposite().to_idx();
                    let nbrs = set_members(&self.model.adjacency_rule[removal_update.tile_index][d]);
                    let mut k: usize = 0;
                    while k < nbrs.len()
                        invariant
                            self.wf(),
                            self.model == old(self).model,
                            self.grid.width == old(self).grid.width,
                            self.grid.height == old(self).grid.height,
                            self.remaining_uncollapsed_cells
                                == old(self).remaining_uncollapsed_cells,
                            shrinks_from(self.grid.data@, old(self).grid.data@),
                            same_flags(self.grid.data@, old(self).grid.data@),
                            self.grid.in_bounds(removal_update.coord),
                            self.grid.in_bounds(neighbour_coord),
                            ni == self.grid.index_of(neighbour_coord),
                            ni < self.grid.data@.len(),
                            removal_update.tile_index < self.model.tiles(),
                            d < 4,
                            od < 4,
                            nbrs@.to_set() == self.model.adj(
                                removal_update.tile_index as int,
                                d as int,
                            ),
                            k <= nbrs@.len(),
                            grid_weight(self.grid.data@) + self.tile_removals@.len() < measure,
                            forall|a: int, b: int| 0 <= a < b < nbrs@.len() ==> nbrs@[a] < nbrs@[b],
                            i0 == self.grid.index_of(removal_update.coord),
                            0 <= i0 < self.grid.data@.len(),
                            u0 == removal_update.tile_index,
                            ni as int == self.nb(i0, d as int),
                            od as int == flip_index(d as int),
                            old(self).supported() ==> self.supported(),
                            !has_empty(old(self).grid.data@) ==> !has_empty(self.grid.data@),
                            extends(old(self).entropy_heap@, self.entropy_heap@),
                            self.requeued_since(old(self).grid.data@),
                            old(self).tile_removals@.len() > 0,
                            old(self).enablers_exact() ==> self.exact_with(
                                pending(
                                    self.grid.width as int,
                                    self.grid.height as int,
                                    &*self.model,
                                    i0,
                                    u0,
                                    d as int,
                                    nbrs@.subrange(0, k as int).to_set(),
                                ),
                            ),
                        decreases nbrs@.len() - k,
                    {
                        let compatible_tile = nbrs[k];
                        let ghost done = nbrs@.subrange(0, k as int).to_set();
                        proof {
                            assert(!done.contains(compatible_tile)) by {
                                if done.contains(compatible_tile) {
                                    let a = choose|a: int|
                                        0 <= a < k && nbrs@.subrange(0, k as int)[a] == compatible_tile;
                                    assert(nbrs@[a] < nbrs@[k as int]);
                                }
                            }
                            assert(nbrs@.subrange(0, k + 1).to_set() =~= done.insert(compatible_tile)) by {
                                assert(nbrs@.subrange(0, k + 1) =~= nbrs@.subrange(0, k as int).push(
                                    compatible_tile,
                                ));
                                nbrs@.subrange(0, k as int).lemma_push_to_set_commute(compatible_tile);
                            }
                            assert(nbrs@.to_set().contains(compatible_tile));
                            assert(self.model.adj(removal_update.tile_index as int, d as int)
                                == crate::model::compatible_tiles(
                                self.model.samples@,
                                self.model.samples@[removal_update.tile_index as int],
                                Direction::of_index(d as int),
                                self.model.tiles(),
                            ));
                            assert(self.grid.data@[ni as int].wf(&self.model));
                        }
                        let count = self.grid.data[ni].tile_enabler_counts[compatible_tile].by_direction[od];
                        if count > 0 {
                            let ghost cells0 = self.grid.data@;
                            let ghost state0 = *self;
                            self.grid.data[ni].set_enabler(compatible_tile, od, count - 1);
                            proof {
                                if old(self).enablers_exact() {
                                    assert forall|kk: int|
                                        0 <= kk < state0.grid.data@.len() && kk != ni implies #[trigger] self.grid.data@[kk]
                                        == state0.grid.data@[kk] by {
                                        assert(self.grid.data@ == cells0.update(
                                            ni as int,
                                            self.grid.data@[ni as int],
                                        ));
                                    }
                                    lemma_decrement_exact(
                                        state0,
                                        *self,
                                        i0,
                                        u0,
                                        d as int,
                                        done,
                                        ni as int,
                                        compatible_tile,
                                    );
                                }
                                lemma_grid_weight_update(cells0, ni as int, self.grid.data@[ni as int]);
                                assert(self.grid.data@ == cells0.update(ni as int, self.grid.data@[ni as int]));
                                if !has_empty(old(self).grid.data@) {
                                    assert(cells0[ni as int].possible_set() != Set::<usize>::empty());
                                    lemma_has_empty_update(cells0, ni as int, self.grid.data@[ni as int]);
                                }
                                assert forall|ii: int|
                                    0 <= ii < self.grid.data@.len() && (#[trigger] self.grid.data@[ii]).possible_set()
                                        != old(self).grid.data@[ii].possible_set() implies exists|k: int|
                                    0 <= k < self.entropy_heap@.len() && self.grid.index_of(
                                        (#[trigger] self.entropy_heap@[k]).coord,
                                    ) == ii && self.entropy_heap@[k].entropy == self.grid.data@[ii].cached_entropy() by {
                                    assert(cells0[ii].possible_set() == self.grid.data@[ii].possible_set());
                                    assert(cells0[ii].cached_entropy() == self.grid.data@[ii].cached_entropy());
                                    assert(state0.requeued_since(old(self).grid.data@));
                                    assert(state0.grid.data@[ii] == cells0[ii]);
                                    let k = choose|k: int|
                                        0 <= k < state0.entropy_heap@.len() && state0.grid.index_of(
                                            (#[trigger] state0.entropy_heap@[k]).coord,
                                        ) == ii && state0.entropy_heap@[k].entropy
                                            == state0.grid.data@[ii].cached_entropy();
                                    assert(self.entropy_heap@[k] == state0.entropy_heap@[k]);
                                }
                                assert forall|i: int| 0 <= i < self.grid.data@.len() implies (
                                #[trigger] self.grid.data@[i]).wf(&self.model) by {
                                    assert(cells0[i].wf(&self.model));
                                }
                                assert forall|i: int|
                                    0 <= i < self.grid.data@.len() && (
                                    #[trigger] self.grid.data@[i]).is_collpased implies self.grid.data@[i].settled() by {
                                    assert(cells0[i].is_collpased ==> cells0[i].settled());
                                }
                            }
                            if count == 1 {
                                let skip = self.grid.data[ni].is_collpased || !set_contains(
                                    &self.grid.data[ni].possible,
                                    compatible_tile,
                                );
                                if !skip {
                                    let ghost cells1 = self.grid.data@;
                                    let ghost state1 = *self;
                                    self.grid.data[ni].remove_tile(compatible_tile, &self.model);
                                    proof {
                                        lemma_grid_weight_update(cells1, ni as int, self.grid.data@[ni as int]);
                                        assert(self.grid.data@ == cells1.update(ni as int, self.grid.data@[ni as int]));
                                        assert forall|i: int| 0 <= i < self.grid.data@.len() implies (
                                        #[trigger] self.grid.data@[i]).wf(&self.model) by {
                                            assert(cells1[i].wf(&self.model));
                                        }
                                        assert forall|i: int|
                                            0 <= i < self.grid.data@.len() && (
                                            #[trigger] self.grid.data@[i]).is_collpased implies self.grid.data@[i].settled() by {
                                            assert(cells1[i].is_collpased ==> cells1[i].settled());
                                        }
                                        lemma_log_weights_bounded(&*self.model);
                                        lemma_masked_sum_remove(
                                            self.model.counts(),
                                            cells1[ni as int].possible_set(),
                                            compatible_tile,
                                            self.model.tiles(),
                                        );
                                        assert(self.model.counts()[compatible_tile as int] >= 1);
                                    }
                                    proof {
                                        lemma_weight_zero_iff_empty(self.grid.data@[ni as int], &*self.model);
                                    }
                                    if self.grid.data[ni].sum_of_possible_tile_weights == 0 {
                                        proof {
                                            assert(self.grid.data@[ni as int].possible_set()
                                                == Set::<usize>::empty());
                                        }
                                        return RunStatus::Failed;
                                    }
                                    proof {
                                        if !has_empty(old(self).grid.data@) {
                                            lemma_has_empty_update(cells1, ni as int, self.grid.data@[ni as int]);
                                        }
                                    }
                                    let entropy = self.grid.data[ni].entropy();
                                    self.tile_removals.push_back(
                                        RemovalUpdate { tile_index: compatible_tile, coord: neighbour_coord },
                                    );
                                    proof {
                                        if old(self).enablers_exact() {
                                            assert forall|kk: int|
                                                0 <= kk < state1.grid.data@.len() && kk != ni implies #[trigger] self.grid.data@[kk]
                                                == state1.grid.data@[kk] by {
                                                assert(self.grid.data@ == cells1.update(
                                                    ni as int,
                                                    self.grid.data@[ni as int],
                                                ));
                                            }
                                            lemma_queue_removal_exact(
                                                state1,
                                                *self,
                                                pending(
                                                    self.grid.width as int,
                                                    self.grid.height as int,
                                                    &*self.model,
                                                    i0,
                                                    u0,
                                                    d as int,
                                                    done.insert(compatible_tile),
                                                ),
                                                ni as int,
                                                compatible_tile,
                                                neighbour_coord,
                                            );
                                        }
                                    }
                                    let ghost hb = self.entropy_heap@;
                                    self.entropy_heap.push(EntropyCoord::new(entropy, neighbour_coord));
                                    proof {
                                        lemma_extends_push(old(self).entropy_heap@, hb, EntropyCoord { entropy, coord: neighbour_coord });
                                        assert(self.grid.index_of(self.entropy_heap@[hb.len() as int].coord) == ni);
                                        assert forall|ii: int|
                                            0 <= ii < self.grid.data@.len() && (#[trigger] self.grid.data@[ii]).possible_set()
                                                != old(self).grid.data@[ii].possible_set() implies exists|k: int|
                                            0 <= k < self.entropy_heap@.len() && self.grid.index_of(
                                                (#[trigger] self.entropy_heap@[k]).coord,
                                            ) == ii && self.entropy_heap@[k].entropy == self.grid.data@[ii].cached_entropy() by {
                                            if ii != ni {
                                                assert(self.grid.data@[ii] == cells1[ii]);
                                                assert(state1.grid.data@[ii] == cells1[ii]);
                                                assert(state1.requeued_since(old(self).grid.data@));
                                                let k = choose|k: int|
                                                    0 <= k < state1.entropy_heap@.len() && state1.grid.index_of(
                                                        (#[trigger] state1.entropy_heap@[k]).coord,
                                                    ) == ii && state1.entropy_heap@[k].entropy
                                                        == state1.grid.data@[ii].cached_entropy();
                                                assert(self.entropy_heap@[k] == hb[k]);
                                            }
                                        }
                                    }
                                }
                            }
                            proof {
                                if old(self).supported() {
                                    assert forall|kk: int|
                                        0 <= kk < state0.grid.data@.len() && kk != ni implies #[trigger] self.grid.data@[kk]
                                        == state0.grid.data@[kk] by {
                                        assert(self.grid.data@[kk] == cells0[kk]);
                                    }
                                    crate::consistency::lemma_supported_step(
                                        state0,
                                        *self,
                                        ni as int,
                                        compatible_tile,
                                        od as int,
                                    );
                                }
                            }
                        } else {
                            proof {
                                if old(self).enablers_exact() {
                                    lemma_owed_positive(
                                        *self,
                                        i0,
                                        u0,
                                        d as int,
                                        done,
                                        ni as int,
                                        compatible_tile,
                                    );
                                }
                            }
                        }
                        k = k + 1;
                    }
                    proof {
                        if old(self).enablers_exact() {
                            assert(nbrs@.subrange(0, nbrs@.len() as int) =~= nbrs@);
                            lemma_next_direction_exact(
                                *self,
                                i0,
                                u0,
                                d as int,
                                nbrs@.subrange(0, k as int).to_set(),
                            );
                        }
                    }
                } else {
                    proof {
                        if old(self).enablers_exact() {
                            lemma_next_direction_exact(*self, i0, u0, d as int, Set::empty());
                        }
                    }
                }
                d = d + 1;
            }
            proof {
                if old(self).enablers_exact() {
                    lemma_all_directions_exact(*self, i0, u0);
                }
            }
            proof {
                lemma_grid_weight_nonneg(self.grid.data@);
            }
        }
    }

    /// Collapses the cell at `coord` to one tile picked at random by weight,
    /// queueing the removal of every other tile it allowed. Fails, changing
    /// nothing, when the cell has no weight left.
    pub fn collapse_cell_at(&mut self, coord: Vector2) -> (r: RunStatus)
        requires
            old(self).wf(),
            old(self).grid.in_bounds(coord),
        ensures
            final(self).wf(),
            final(self).model == old(self).model,
            final(self).grid.width == old(self).grid.width,
            final(self).grid.height == old(self).grid.height,
            final(self).entropy_heap == old(self).entropy_heap,
            final(self).remaining_uncollapsed_cells == old(self).remaining_uncollapsed_cells,
            shrinks_from(final(self).grid.data@, old(self).grid.data@),
            (r == RunStatus::Failed) <==> old(self).cell_at(coord).possible_set() == Set::<
                usize,
            >::empty(),
            r == RunStatus::Failed ==> final(self).grid == old(self).grid,
            r == RunStatus::Failed ==> final(self).tile_removals == old(self).tile_removals,
            r == RunStatus::Succeeded ==> final(self).tile_removals@.len() >= old(
                self,
            ).tile_removals@.len() && final(self).tile_removals@.subrange(
                0,
                old(self).tile_removals@.len() as int,
            ) == old(self).tile_removals@,
            r == RunStatus::Succeeded ==> forall|j: int|
                old(self).tile_removals@.len() <= j < final(self).tile_removals@.len() ==> (
                #[trigger] final(self).tile_removals@[j]).coord == coord && old(self).cell_at(
                    coord,
                ).possible_set().contains(final(self).tile_removals@[j].tile_index)
                    && !final(self).cell_at(coord).possible_set().contains(final(self).tile_removals@[j].tile_index),
            r == RunStatus::Succeeded ==> forall|u: usize|
                old(self).cell_at(coord).possible_set().contains(u) && !final(self).cell_at(
                    coord,
                ).possible_set().contains(u) ==> exists|j: int|
                    old(self).tile_removals@.len() <= j < final(self).tile_removals@.len()
                        && (#[trigger] final(self).tile_removals@[j]).tile_index == u,
            old(self).enablers_exact() ==> final(self).enablers_exact(),
            old(self).supported() ==> final(self).supported(),
            r == RunStatus::Succeeded && !old(self).cell_at(coord).is_collpased ==> count_uncollapsed(
                final(self).grid.data@,
            ) == count_uncollapsed(old(self).grid.data@) - 1,
            r == RunStatus::Succeeded ==> {
                let i = old(self).grid.index_of(coord);
                &&& final(self).cell_at(coord).is_collpased
                &&& exists|t: usize|
                    old(self).cell_at(coord).possible_set().contains(t) && final(self).cell_at(coord).possible_set() == set![t]
                &&& forall|j: int|
                    #![trigger final(self).grid.data@[j]]
                    0 <= j < final(self).grid.data@.len() && j != i ==> final(self).grid.data@[j]
                        == old(self).grid.data@[j]
            },
    {
        let idx = self.grid.idx(coord).unwrap();
        proof {
            lemma_weight_zero_iff_empty(self.grid.data@[idx as int], &*self.model);
        }
        let chosen = match self.grid.data[idx].choose_sample_index(&self.model, &mut self.rng) {
            Some(t) => t,
            None => {
                return RunStatus::Failed;
            },
        };
        let members = set_members(&self.grid.data[idx].possible);
        let ghost cell0 = self.grid.data@[idx as int];
        proof {
            assert(members@.to_set().contains(chosen));
        }
        let ghost p = choose|p: int| 0 <= p < members@.len() && members@[p] == chosen;
        proof {
            assert(cell0.wf(&self.model));
            assert forall|t: usize| #[trigger] members@.contains(t) implies t < self.model.tiles() by {
                assert(members@.to_set().contains(t));
            }
        }
        self.queue_other_tiles(coord, chosen, &members, Ghost(p));
        let ghost cells0 = self.grid.data@;
        self.grid.data[idx].collapsed();
        self.grid.data[idx].keep_only(chosen, &self.model);
        proof {
            assert(self.grid.data@[idx as int].possible_set() == set![chosen]);
            assert(self.grid.data@ == cells0.update(idx as int, self.grid.data@[idx as int]));
            lemma_count_uncollapsed_update(cells0, idx as int, self.grid.data@[idx as int]);
            assert(self.grid.data@[idx as int].settled());
            crate::consistency::lemma_others_queued(
                old(self).tile_removals@,
                self.tile_removals@,
                members@,
                p,
                coord,
                cell0.possible_set(),
            );
            if old(self).enablers_exact() {
                assert forall|kk: int|
                    0 <= kk < old(self).grid.data@.len() && kk != idx implies #[trigger] self.grid.data@[kk]
                    == old(self).grid.data@[kk] by {}
                crate::consistency::lemma_collapse_exact(
                    *old(self),
                    *self,
                    idx as int,
                    chosen,
                    coord,
                );
            }
            if old(self).supported() {
                assert forall|i: int, t: usize, e: int|
                    0 <= i < self.grid.data@.len() && 0 <= e < 4 && self.nb(i, e) >= 0
                        && !self.grid.data@[i].is_collpased && self.grid.data@[i].possible_set().contains(t)
                        implies #[trigger] self.grid.data@[i].tile_enabler_counts@[t as int].by_direction@[e] > 0 by {
                    assert(i != idx);
                    assert(self.grid.data@[i] == old(self).grid.data@[i]);
                }
            }
        }
        RunStatus::Succeeded
    }

    /// Queues the removal at `coord` of every tile of `members` but the one
    /// at position `p` (`chosen`), in order.
    fn queue_other_tiles(
        &mut self,
        coord: Vector2,
        chosen: usize,
        members: &Vec<usize>,
        p: Ghost<int>,
    )
        requires
            old(self).wf(),
            old(self).grid.in_bounds(coord),
            0 <= p@ < members@.len(),
            members@[p@] == chosen,
            forall|t: usize| #[trigger] members@.contains(t) ==> t < old(self).model.tiles(),
            forall|a: int, b: int| 0 <= a < b < members@.len() ==> members@[a] < members@[b],
        ensures
            final(self).wf(),
            final(self).grid == old(self).grid,
            final(self).model == old(self).model,
            final(self).entropy_heap == old(self).entropy_heap,
            final(self).remaining_uncollapsed_cells == old(self).remaining_uncollapsed_cells,
            final(self).tile_removals@.len() == old(self).tile_removals@.len() + members@.len() - 1,
            final(self).tile_removals@.subrange(0, old(self).tile_removals@.len() as int) == old(
                self,
            ).tile_removals@,
            forall|j: int|
                0 <= j < members@.len() - 1 ==> #[trigger] final(self).tile_removals@[old(
                    self,
                ).tile_removals@.len() + j] == (RemovalUpdate {
                    tile_index: members@[if j < p@ {
                        j
                    } else {
                        j + 1
                    }],
                    coord,
                }),
    {
        let ghost q0 = self.tile_removals@;
        let mut k: usize = 0;
        while k < members.len()
            invariant
                self.wf(),
                self.grid == old(self).grid,
                self.model == old(self).model,
                self.entropy_heap == old(self).entropy_heap,
                self.remaining_uncollapsed_cells == old(self).remaining_uncollapsed_cells,
                self.grid.in_bounds(coord),
                q0 == old(self).tile_removals@,
                0 <= p@ < members@.len(),
                members@[p@] == chosen,
                forall|t: usize| #[trigger] members@.contains(t) ==> t < self.model.tiles(),
                forall|a: int, b: int| 0 <= a < b < members@.len() ==> members@[a] < members@[b],
                k <= members@.len(),
                self.tile_removals@.len() == q0.len() + if k <= p@ {
                    k as int
                } else {
                    k - 1
                },
                self.tile_removals@.subrange(0, q0.len() as int) == q0,
                forall|j: int|
                    0 <= j < self.tile_removals@.len() - q0.len() ==> #[trigger] self.tile_removals@[q0.len()
                        + j] == (RemovalUpdate {
                        tile_index: members@[if j < p@ {
                            j
                        } else {
                            j + 1
                        }],
                        coord,
                    }),
            decreases members@.len() - k,
        {
            let t = members[k];
            proof {
                if k as int != p@ {
                    if (k as int) < p@ {
                        assert(members@[k as int] < members@[p@]);
                    } else {
                        assert(members@[p@] < members@[k as int]);
                    }
                }
            }
            if t != chosen {
                proof {
                    assert(members@.contains(t));
                }
                let ghost qb = self.tile_removals@;
                self.tile_removals.push_back(RemovalUpdate { tile_index: t, coord });
                proof {
                    assert(self.tile_removals@.subrange(0, q0.len() as int) =~= qb.subrange(
                        0,
                        q0.len() as int,
                    ));
                    assert forall|j: int| 0 <= j < self.tile_removals@.len() - q0.len() implies #[trigger] self.tile_removals@[q0.len()
                        + j] == (RemovalUpdate {
                        tile_index: members@[if j < p@ {
                            j
                        } else {
                            j + 1
                        }],
                        coord,
                    }) by {
                        if j < qb.len() - q0.len() {
                            assert(self.tile_removals@[q0.len() + j] == qb[q0.len() + j]);
                        }
                    }
                }
            }
            k = k + 1;
        }
        proof {
            assert(self.tile_removals@.len() - q0.len() == members@.len() - 1);
        }
    }
}

/// The colour a tile gives its cell: its top-left pixel.
pub open spec fn tile_colour_spec(m: &Model, t: int) -> Rgb {
    if m.samples@[t].width() > 0 && m.samples@[t].height() > 0 {
        m.samples@[t].region.cell(0, 0)
    } else {
        BLACK
    }
}

/// The colour of a cell in the output: that of its single remaining tile, or
/// black.
pub open spec fn cell_colour(m: &Model, c: CoreCell) -> Rgb {
    if c.settled() {
        tile_colour_spec(m, (choose|t: usize| c.possible_set() == set![t]) as int)
    } else {
        BLACK
    }
}

/// The top-left pixel of tile `t`.
pub fn tile_colour(m: &Model, t: usize) -> (r: Rgb)
    requires
        m.wf(),
        t < m.tiles(),
    ensures
        r == tile_colour_spec(m, t as int),
{
    let sample = &m.samples[t];
    if sample.region.width > 0 && sample.region.height > 0 {
        sample.get_top_left_pixel()
    } else {
        BLACK
    }
}

/// `c` is the top-left pixel of some tile of `m`.
pub open spec fn is_tile_colour(m: &Model, c: Rgb) -> bool {
    exists|t: int| 0 <= t < m.tiles() && c == #[trigger] tile_colour_spec(m, t)
}

/// Relies on `Arc::clone`: another pointer to the same model.
#[verifier::external_body]
pub(crate) fn share(m: &Arc<Model>) -> (r: Arc<Model>)
    ensures
        *r == **m,
{
    Arc::clone(m)
}

/// Every pixel is the top-left pixel of some tile of `m`.
pub open spec fn tile_image(m: &Model, px: Seq<Rgb>) -> bool {
    forall|i: int| 0 <= i < px.len() ==> #[trigger] is_tile_colour(m, px[i])
}

/// Runs the engine until a run succeeds, with at most `max_retries` fresh
/// restarts after failed runs (the seed moving on by one each time), and
/// returns the image of the successful run: one pixel per cell, each the
/// top-left pixel of some tile. `None` when every run failed.
pub fn process(model: Model, width: usize, height: usize, seed: u64, max_retries: usize) -> (r:
    Option<Vec<Rgb>>)
    requires
        model.wf(),
        width * height <= usize::MAX,
        width <= i32::MAX,
        height <= i32::MAX,
    ensures
        r matches Some(px) ==> px@.len() == width * height && tile_image(&model, px@)
            && windows_are_tiles(&model, px@, width as int, height as int),
        model.tiles() == 1 && (forall|d: int| 0 <= d < 4 ==> #[trigger] model.adj(0, d).contains(0usize))
            ==> r.is_some(),
{
    let ghost m = model;
    let shared = Arc::new(model);
    let mut state = CoreState::new(share(&shared), width, height, seed);
    let mut current_seed = seed;
    let mut attempt: usize = 0;
    loop
        invariant
            state.wf(),
            *state.model == m,
            *shared == m,
            m == model,
            m.wf(),
            state.grid.width == width,
            state.grid.height == height,
            width * height <= usize::MAX,
            width <= i32::MAX,
            height <= i32::MAX,
            state.remaining_uncollapsed_cells == count_uncollapsed(state.grid.data@),
            state.enablers_exact(),
            state.consistent(),
            state.fresh(),
            state.covers(),
            state.tile_removals@.len() == 0,
            attempt <= max_retries,
        decreases max_retries - attempt,
    {
        proof {
            if m.tiles() == 1 && (forall|d: int| 0 <= d < 4 ==> #[trigger] m.adj(0, d).contains(0usize)) {
                crate::consistency::lemma_single_tile_ready(state);
            }
        }
        let status = state.run();
        if status == RunStatus::Succeeded {
            let pixels = state.output_pixels();
            proof {
                assert forall|i: int| 0 <= i < pixels@.len() implies #[trigger] is_tile_colour(
                    &m,
                    pixels@[i],
                ) by {
                    let c = state.grid.data@[i];
                    assert(c.is_collpased && c.settled());
                    assert(c.wf(&m));
                    let t = choose|t: usize| c.possible_set() == set![t];
                    assert(c.possible_set().contains(t));
                    assert(pixels@[i] == tile_colour_spec(&m, t as int));
                    assert(0 <= t < m.tiles());
                }
                assert(pixels@.len() == width * height);
                assert(tile_image(&m, pixels@));
                crate::consistency::lemma_image_windows(state, pixels@);
            }
            return Some(pixels);
        }
        if attempt >= max_retries {
            return None;
        }
        attempt = attempt + 1;
        current_seed = if current_seed < u64::MAX {
            current_seed + 1
        } else {
            0
        };
        state = CoreState::new(share(&shared), width, height, current_seed);
    }
}

/// The cached sums of every cell of a well-formed engine are the sums over
/// its possible tiles: Σ count and Σ count·log2(count).
pub proof fn lemma_weight_cache(state: CoreState, pos: Vector2)
    requires
        state.wf(),
        state.grid.in_bounds(pos),
    ensures
        state.cell_at(pos).sum_of_possible_tile_weights == masked_sum(
            state.model.counts(),
            state.cell_at(pos).possible_set(),
            state.model.tiles(),
        ),
        state.cell_at(pos).sum_of_possible_tile_weight_log_weights == masked_sum(
            state.model.log_weights(),
            state.cell_at(pos).possible_set(),
            state.model.tiles(),
        ),
{
    crate::grid2d::lemma_row_major(
        state.grid.width as int,
        state.grid.height as int,
        pos.x as int,
        pos.y as int,
    );
    assert(state.grid.data@[state.grid.index_of(pos)].wf(&state.model));
}

/// The entropy computed from a cell's cached sums equals the entropy
/// computed afresh from its possible tiles.
pub proof fn lemma_entropy_cache(cell: CoreCell, m: Model)
    requires
        cell.wf(&m),
    ensures
        cell.cached_entropy() == cell.fresh_entropy(&m),
{
}

/// The cell that holds output position `j` (row-major, `width` wide) in a
/// split run's parts: top-left, top-right, bottom-left, bottom-right, split
/// at half the width and half the height.
pub open spec fn quadrant_cell(parts: Seq<Grid2D<CoreCell>>, width: int, height: int, j: int) -> CoreCell {
    let x = j % width;
    let y = j / width;
    let mx = width / 2;
    let my = height / 2;
    let q = (if y >= my {
        2int
    } else {
        0int
    }) + (if x >= mx {
        1int
    } else {
        0int
    });
    let lx = if x >= mx {
        x - mx
    } else {
        x
    };
    let ly = if y >= my {
        y - my
    } else {
        y
    };
    parts[q].data@[ly * parts[q].width + lx]
}

/// The cells of a split run put back together: the cell at `(x, y)` is a
/// copy of the cell that holds it in `parts` (see `quadrant_cell`).
pub fn assemble_cells(width: usize, height: usize, parts: &Vec<Grid2D<CoreCell>>) -> (r: Vec<CoreCell>)
    requires
        width * height <= usize::MAX,
        parts@.len() == 4,
        parts@[0].width == width / 2 && parts@[0].height == height / 2,
        parts@[1].width == width - width / 2 && parts@[1].height == height / 2,
        parts@[2].width == width / 2 && parts@[2].height == height - height / 2,
        parts@[3].width == width - width / 2 && parts@[3].height == height - height / 2,
        forall|q: int| 0 <= q < 4 ==> (#[trigger] parts@[q]).wf(),
    ensures
        r@.len() == width * height,
        forall|j: int|
            0 <= j < r@.len() ==> (#[trigger] r@[j]).same_state(
                &quadrant_cell(parts@, width as int, height as int, j),
            ),
{
    let mx = width / 2;
    let my = height / 2;
    let n = width * height;
    let mut out: Vec<CoreCell> = Vec::new();
    let mut idx: usize = 0;
    while idx < n
        invariant
            n == width * height,
            mx == width / 2,
            my == height / 2,
            parts@.len() == 4,
            parts@[0].width == mx && parts@[0].height == my,
            parts@[1].width == width - mx && parts@[1].height == my,
            parts@[2].width == mx && parts@[2].height == height - my,
            parts@[3].width == width - mx && parts@[3].height == height - my,
            forall|q: int| 0 <= q < 4 ==> (#[trigger] parts@[q]).wf(),
            idx <= n,
            out@.len() == idx,
            forall|j: int|
                0 <= j < idx ==> (#[trigger] out@[j]).same_state(
                    &quadrant_cell(parts@, width as int, height as int, j),
                ),
        decreases n - idx,
    {
        proof {
            crate::grid2d::lemma_coord_of(width as int, height as int, idx as int);
        }
        let x = idx % width;
        let y = idx / width;
        let right = x >= mx;
        let below = y >= my;
        let q: usize = if below {
            2
        } else {
            0
        } + if right {
            1
        } else {
            0
        };
        let lx = if right {
            x - mx
        } else {
            x
        };
        let ly = if below {
            y - my
        } else {
            y
        };
        let part = &parts[q];
        let part_len = part.data.len();
        proof {
            assert(parts@[q as int].wf());
            assert(lx < part.width && ly < part.height);
            crate::grid2d::lemma_row_major(part.width as int, part.height as int, lx as int, ly as int);
        }
        let cell = part.data[ly * part.width + lx].duplicate();
        proof {
            assert(part.data@[(ly * part.width + lx) as int] == quadrant_cell(
                parts@,
                width as int,
                height as int,
                idx as int,
            ));
        }
        out.push(cell);
        idx = idx + 1;
    }
    out
}

/// `px` is the image of the four solved `parts` of a split run: every cell
/// of the parts is collapsed to one tile, and each pixel is the colour of
/// the cell that holds it.
pub open spec fn split_image(m: &Model, parts: Seq<Grid2D<CoreCell>>, px: Seq<Rgb>, width: int, height: int) -> bool {
    &&& parts.len() == 4
    &&& forall|q: int, i: int|
        0 <= q < 4 && 0 <= i < parts[q].data@.len() ==> (#[trigger] parts[q].data@[i]).is_collpased
            && parts[q].data@[i].settled()
    &&& quadrants_show(m, parts, px, width, height)
}

/// `px` is the image of some four solved parts of a split run.
pub open spec fn from_split(m: &Model, px: Seq<Rgb>, width: int, height: int) -> bool {
    exists|parts: Seq<Grid2D<CoreCell>>| #[trigger] split_image(m, parts, px, width, height)
}

/// `px` is the image assembled from the split run's `parts`: each pixel is
/// the colour of the cell that holds it (see `quadrant_cell`).
pub open spec fn quadrants_show(m: &Model, parts: Seq<Grid2D<CoreCell>>, px: Seq<Rgb>, width: int, height: int) -> bool {
    forall|j: int| 0 <= j < px.len() ==> #[trigger] px[j] == cell_colour(m, quadrant_cell(parts, width, height, j))
}

/// The split mode: separates the grid of a fresh engine with a collapsed
/// cross (`CoreState::collapse_middle`), solves the four quadrants (each
/// with up to `max_retries` restarts, see `CoreState::restart`) and
/// assembles the image. A failed separator or quadrant starts it all over,
/// up to `max_retries` times. The quadrants are independent of each other:
/// callers may solve them on separate threads; here they are solved in turn.
pub fn par_process(model: Model, width: usize, height: usize, seed: u64, max_retries: usize) -> (r:
    Option<Vec<Rgb>>)
    requires
        model.wf(),
        width * height <= usize::MAX,
        width <= i32::MAX,
        height <= i32::MAX,
    ensures
        r matches Some(px) ==> px@.len() == width * height && tile_image(&model, px@),
        r matches Some(px) ==> from_split(&model, px@, width as int, height as int),
        r matches Some(px) ==> windows_are_tiles(&model, px@, width as int, height as int),
        model.tiles() == 1 && (forall|d: int| 0 <= d < 4 ==> #[trigger] model.adj(0, d).contains(0usize))
            ==> r.is_some(),
{
    let ghost m = model;
    let shared = Arc::new(model);
    let mut attempt: usize = 0;
    loop
        invariant
            *shared == m,
            m == model,
            m.wf(),
            width * height <= usize::MAX,
            width <= i32::MAX,
            height <= i32::MAX,
            attempt <= max_retries,
        decreases max_retries - attempt,
    {
        let attempt_seed = seed ^ ((attempt as u64) << 8);
        let mut state = CoreState::new(share(&shared), width, height, attempt_seed);
        let ghost fresh = state.grid.data@;
        let ghost fresh_state = state;
        let ghost single = m.tiles() == 1 && (forall|d: int| 0 <= d < 4 ==> #[trigger] m.adj(0, d).contains(0usize));
        proof {
            if single {
                crate::consistency::lemma_single_tile_ready(state);
            }
        }
        if state.prune_unsupported() == RunStatus::Succeeded {
            let ghost pruned = state.grid.data@;
            let ghost pruned_state = state;
            if state.propagate() == RunStatus::Succeeded {
                proof {
                    lemma_count_uncollapsed(state.grid.data@, pruned);
                    lemma_count_uncollapsed(pruned, fresh);
                    crate::consistency::lemma_consistent_shrink(fresh_state, pruned_state);
                    crate::consistency::lemma_consistent_shrink(pruned_state, state);
                }
                let ghost split_from = state;
                if let Some((a, b, c, d)) = state.collapse_middle(attempt_seed) {
                    proof {
                        let w = width as int;
                        let h = height as int;
                        let mx = w / 2;
                        let my = h / 2;
                        crate::consistency::lemma_part_keeps(state, a, 0, 0, mx, my);
                        crate::consistency::lemma_part_keeps(state, b, mx, 0, w - mx, my);
                        crate::consistency::lemma_part_keeps(state, c, 0, my, mx, h - my);
                        crate::consistency::lemma_part_keeps(state, d, mx, my, w - mx, h - my);
                        if single {
                            let w = width as int;
                            let h = height as int;
                            let mx = w / 2;
                            let my = h / 2;
                            crate::consistency::lemma_part_supported(state, a, 0, 0, mx, my);
                            crate::consistency::lemma_part_supported(state, b, mx, 0, w - mx, my);
                            crate::consistency::lemma_part_supported(state, c, 0, my, mx, h - my);
                            crate::consistency::lemma_part_supported(state, d, mx, my, w - mx, h - my);
                        }
                    }
                    let ga = a.restart(max_retries, attempt_seed ^ 5);
                    let gb = b.restart(max_retries, attempt_seed ^ 6);
                    let gc = c.restart(max_retries, attempt_seed ^ 7);
                    let gd = d.restart(max_retries, attempt_seed ^ 8);
                    match (ga, gb, gc, gd) {
                        (Some(ga), Some(gb), Some(gc), Some(gd)) => {
                            let parts = vec![ga, gb, gc, gd];
                            proof {
                                assert forall|q: int, i: int|
                                    0 <= q < 4 && 0 <= i < parts@[q].data@.len() implies (
                                    #[trigger] parts@[q].data@[i]).wf(&m)
                                        && parts@[q].data@[i].settled() by {
                                    if q == 0 {
                                        assert(parts@[q].data@[i].wf(&*a.model));
                                    } else if q == 1 {
                                        assert(parts@[q].data@[i].wf(&*b.model));
                                    } else if q == 2 {
                                        assert(parts@[q].data@[i].wf(&*c.model));
                                    } else {
                                        assert(parts@[q].data@[i].wf(&*d.model));
                                    }
                                }
                            }
                            let cells = assemble_cells(width, height, &parts);
                            let solved = CoreState {
                                grid: Grid2D { width, height, data: cells },
                                remaining_uncollapsed_cells: 0,
                                model: share(&shared),
                                entropy_heap: Vec::new(),
                                tile_removals: VecDeque::new(),
                                rng: seeded_rng(attempt_seed),
                            };
                            proof {
                                let w = width as int;
                                let h = height as int;
                                let gs = parts@;
                                assert forall|q: int|
                                    0 <= q < 4 implies (#[trigger] gs[q]).width == crate::consistency::part_w(q, w)
                                        && gs[q].height == crate::consistency::part_h(q, h) && gs[q].wf() by {}
                                assert forall|k: int|
                                    0 <= k < solved.grid.data@.len() implies (#[trigger] solved.grid.data@[k]).wf(
                                        &solved.model,
                                    ) && solved.grid.data@[k].is_collpased && solved.grid.data@[k].settled() by {
                                    let qi = crate::consistency::lemma_quadrant_cell(gs, w, h, k);
                                    assert(gs[qi.0].data@[qi.1].wf(&m) && gs[qi.0].data@[qi.1].settled());
                                }
                                assert(solved.wf());
                                assert forall|q: int| 0 <= q < 4 implies exists|sq: CoreState|
                                    sq.grid == #[trigger] gs[q] && *sq.model == *state.model && sq.wf()
                                        && sq.consistent() by {
                                    if q == 0 {
                                        assert(gs[q] == ga);
                                    } else if q == 1 {
                                        assert(gs[q] == gb);
                                    } else if q == 2 {
                                        assert(gs[q] == gc);
                                    } else {
                                        assert(gs[q] == gd);
                                    }
                                }
                                assert forall|q: int, i: int|
                                    0 <= q < 4 && 0 <= i < gs[q].data@.len() implies (#[trigger] gs[q].data@[i]).possible_set().subset_of(
                                    state.grid.data@[crate::consistency::part_to_whole(
                                        w,
                                        crate::consistency::part_ox(q, w),
                                        crate::consistency::part_oy(q, h),
                                        crate::consistency::part_w(q, w),
                                        i,
                                    )].possible_set(),
                                ) by {
                                    if q == 0 {
                                        assert(a.grid.data@[i].same_state(
                                            &state.grid.data@[(i / (w / 2)) * w + i % (w / 2)],
                                        ));
                                    } else if q == 1 {
                                        assert(b.grid.data@[i].same_state(
                                            &state.grid.data@[(i / b.grid.width as int) * w + w / 2 + i
                                                % b.grid.width as int],
                                        ));
                                    } else if q == 2 {
                                        assert(c.grid.data@[i].same_state(
                                            &state.grid.data@[(h / 2 + i / (w / 2)) * w + i % (w / 2)],
                                        ));
                                    } else {
                                        assert(d.grid.data@[i].same_state(
                                            &state.grid.data@[(h / 2 + i / d.grid.width as int) * w + w / 2
                                                + i % d.grid.width as int],
                                        ));
                                    }
                                }
                                assert forall|k: int|
                                    0 <= k < state.grid.data@.len() && (k % w == w / 2 || k / w == h / 2)
                                        implies (#[trigger] state.grid.data@[k]).is_collpased by {
                                    let n = split_from.cross_n();
                                    assert(n >= 1);
                                    assert(split_from.in_cross(k));
                                }
                                crate::consistency::lemma_split_consistent(state, gs, solved);
                            }
                            let pixels = solved.output_pixels();
                            proof {
                                crate::consistency::lemma_image_windows(solved, pixels@);
                                let w = width as int;
                                let h = height as int;
                                assert forall|j: int| 0 <= j < pixels@.len() implies #[trigger] pixels@[j] == cell_colour(
                                    &m,
                                    quadrant_cell(parts@, w, h, j),
                                ) by {
                                    assert(solved.grid.data@[j].same_state(&quadrant_cell(parts@, w, h, j)));
                                }
                                assert forall|q: int, i: int|
                                    0 <= q < 4 && 0 <= i < parts@[q].data@.len() implies (
                                    #[trigger] parts@[q].data@[i]).is_collpased
                                        && parts@[q].data@[i].settled() by {}
                                assert(quadrants_show(&m, parts@, pixels@, w, h));
                                assert(split_image(&m, parts@, pixels@, w, h));
                                assert(from_split(&m, pixels@, w, h));
                                assert forall|j: int| 0 <= j < pixels@.len() implies #[trigger] is_tile_colour(
                                    &m,
                                    pixels@[j],
                                ) by {
                                    let cj = solved.grid.data@[j];
                                    assert(cj.settled() && cj.wf(&m));
                                    let t = choose|t: usize| cj.possible_set() == set![t];
                                    assert(cj.possible_set().contains(t));
                                    assert(pixels@[j] == tile_colour_spec(&m, t as int));
                                }
                            }
                            return Some(pixels);
                        },
                        _ => {},
                    }
                }
            }
        }
        if attempt >= max_retries {
            return None;
        }
        attempt = attempt + 1;
    }
}

/// Why a synthesis produced no image.
#[derive(Debug, Clone, Copy, PartialEq, Eq, Structural)]
pub enum SynthesisError {
    /// The configuration is out of range.
    Config(ConfigError),
    /// The exemplar's pixel count does not match its dimensions.
    MalformedImage,
    /// Every run, restarts included, ran into a contradiction.
    NoSolution,
}

/// The `n` × `n` window of the `w`-wide image `px` at `(x, y)` shows the
/// exemplar `img` read from some pixel, wrapping around its edges.
pub open spec fn window_from_exemplar(img: &Image, px: Seq<Rgb>, w: int, n: int, x: int, y: int) -> bool {
    exists|ex: int, ey: int|
        #![trigger img.pixel(ex, ey)]
        0 <= ex < img.width && 0 <= ey < img.height && forall|i: int, j: int|
            0 <= i < n && 0 <= j < n ==> (#[trigger] px[(y + j) * w + x + i])@ == img.pixel(
                (ex + i) % img.width as int,
                (ey + j) % img.height as int,
            )@
}

/// When every tile is a window of the exemplar (no rotations), every window
/// of an image whose windows are tiles is a window of the exemplar.
pub proof fn lemma_windows_from_exemplar(img: &Image, m: Model, px: Seq<Rgb>, w: int, h: int, n: int)
    requires
        n >= 1,
        crate::consistency::tiles_of_size(&m, n),
        windows_are_tiles(&m, px, w, h),
        exists|s: Seq<Sample>|
            #[trigger] crate::model::is_extraction(*img, n, false, s) && m.tallies(s),
        m.wf(),
        img.wf(),
        img.width > 0,
        img.height > 0,
    ensures
        forall|x: int, y: int|
            0 <= x && 0 <= y && x + n <= w && y + n <= h ==> #[trigger] window_from_exemplar(
                img,
                px,
                w,
                n,
                x,
                y,
            ),
{
    let s = choose|s: Seq<Sample>| #[trigger] crate::model::is_extraction(*img, n, false, s) && m.tallies(s);
    assert forall|x: int, y: int| 0 <= x && 0 <= y && x + n <= w && y + n <= h implies #[trigger] window_from_exemplar(
        img,
        px,
        w,
        n,
        x,
        y,
    ) by {
        assert(crate::consistency::window_is_tile(&m, px, w, n, x, y));
        let t = crate::consistency::lemma_window_tile(&m, px, w, n, x, y);
        assert(m.freq_map@[t].1.0 >= 1);
        assert(m.count(t) == crate::model::occurrences(s, m.samples@[t]));
        let k = crate::model::lemma_occurrences_witness(s, m.samples@[t]);
        assert(s[k].wf());
        crate::model::lemma_same_as_px(s[k], m.samples@[t]);
        assert(crate::image_reader::is_window(*img, s[k], k % img.width as int, k / img.width as int, n));
        let ex = k % img.width as int;
        let ey = k / img.width as int;
        assert(s.len() == img.pixels@.len());
        crate::grid2d::lemma_coord_of(img.width as int, img.height as int, k);
        assert forall|i: int, j: int| 0 <= i < n && 0 <= j < n implies (#[trigger] px[(y + j) * w + x
            + i])@ == img.pixel((ex + i) % img.width as int, (ey + j) % img.height as int)@ by {
            assert(m.samples@[t].px(i, j) == s[k].px(i, j));
        }
        assert(img.pixel(ex, ey) == img.pixel(ex, ey));
    }
}

/// The whole synthesis: checks the configuration, builds the model of the
/// exemplar, and runs the engine with up to `max_retries` restarts. On
/// success, one colour per output cell in row-major order.
pub fn synthesize(image: &Image, args: &Args, seed: u64, max_retries: usize) -> (r: Result<
    Vec<Rgb>,
    SynthesisError,
>)
    ensures
        (r matches Err(SynthesisError::Config(_))) <==> !config_ok(
            args.n_dimensions as nat,
            args.width as nat,
            args.height as nat,
            image.width as nat,
            image.height as nat,
        ),
        r == Err::<Vec<Rgb>, SynthesisError>(SynthesisError::MalformedImage) <==> config_ok(
            args.n_dimensions as nat,
            args.width as nat,
            args.height as nat,
            image.width as nat,
            image.height as nat,
        ) && image.pixels@.len() != image.width * image.height,
        r matches Ok(px) ==> px@.len() == args.width * args.height,
        config_ok(
            args.n_dimensions as nat,
            args.width as nat,
            args.height as nat,
            image.width as nat,
            image.height as nat,
        ) && image.pixels@.len() == image.width * image.height && crate::model::uniform_image(*image)
            ==> r.is_ok(),
        r matches Ok(px) ==> !args.rotation ==> forall|x: int, y: int|
            0 <= x && 0 <= y && x + args.n_dimensions <= args.width && y + args.n_dimensions
                <= args.height ==> #[trigger] window_from_exemplar(
                image,
                px@,
                args.width as int,
                args.n_dimensions as int,
                x,
                y,
            ),
{
    match args.validate(image.width, image.height) {
        Err(e) => {
            return Err(SynthesisError::Config(e));
        },
        Ok(()) => {},
    }
    if image.pixels.len() != image.width * image.height {
        return Err(SynthesisError::MalformedImage);
    }
    let n = args.n_dimensions;
    proof {
        assert(n * n <= usize::MAX) by (nonlinear_arith)
            requires
                1 <= n <= 0xffff,
        ;
    }
    let model = Model::create(image, n, args.rotation);
    let ghost m = model;
    proof {
        if crate::model::uniform_image(*image) {
            crate::model::lemma_uniform_model(*image, n as int, args.rotation, m);
        }
    }
    match process(model, args.width, args.height, seed, max_retries) {
        Some(pixels) => {
            proof {
                if !args.rotation {
                    lemma_windows_from_exemplar(image, m, pixels@, args.width as int, args.height as int, n as int);
                }
            }
            Ok(pixels)
        },
        None => Err(SynthesisError::NoSolution),
    }
}

/// Outcome of a collapse step or of a whole run.
#[derive(Debug, Clone, Copy, PartialEq, Eq, Structural)]
pub enum RunStatus {
    Succeeded,
    Failed,
}

} // verus!
