//! Weighted random selection over a table of cumulative weights.

use rand::Rng;
use vstd::prelude::*;

verus! {

/// The largest weight a single candidate can declare.
pub open spec fn max_weight() -> nat {
    0xFFFF_FFFF
}

/// A selection table as a mathematical value: the declared weight of each
/// candidate, in table order, and the positions the candidates stand for.
pub struct Table {
    /// The declared weight of each candidate.
    pub weights: Seq<nat>,
    /// `None` when candidate `k` stands for position `k`; otherwise the
    /// position each candidate stands for.
    pub projection: Option<Seq<usize>>,
}

/// The sum of the first `k` weights.
pub open spec fn cumulative(weights: Seq<nat>, k: int) -> nat
    decreases k,
{
    if k <= 0 {
        0
    } else {
        cumulative(weights, k - 1) + weights[k - 1]
    }
}

/// Candidate `k` owns draw `r`: `k` is the first candidate whose cumulative
/// weight reaches `r`.
pub open spec fn is_slot(weights: Seq<nat>, r: nat, k: int) -> bool {
    &&& 0 <= k < weights.len()
    &&& r <= cumulative(weights, k + 1)
    &&& k > 0 ==> cumulative(weights, k) < r
}

/// The candidate that owns draw `r`.
pub open spec fn slot_of(weights: Seq<nat>, r: nat) -> int {
    choose|k: int| is_slot(weights, r, k)
}

impl Table {
    /// The number of candidates.
    pub open spec fn len(self) -> nat {
        self.weights.len()
    }

    /// The sum of all weights.
    pub open spec fn total(self) -> nat {
        cumulative(self.weights, self.weights.len() as int)
    }

    /// Every candidate stands for a position.
    pub open spec fn valid(self) -> bool {
        &&& forall|k: int| 0 <= k < self.weights.len() ==> #[trigger] self.weights[k] <= max_weight()
        &&& self.projection matches Some(p) ==> p.len() == self.weights.len()
    }

    /// The position candidate `k` stands for.
    pub open spec fn target(self, k: int) -> usize {
        match self.projection {
            None => k as usize,
            Some(p) => p[k],
        }
    }

    /// The position selected by draw `r`: none from an empty table, the only
    /// candidate of a table of one, and otherwise the owner of `r`.
    pub open spec fn selection(self, r: nat) -> Option<usize> {
        if self.weights.len() == 0 {
            None
        } else if self.weights.len() == 1 {
            Some(self.target(0))
        } else {
            Some(self.target(slot_of(self.weights, r)))
        }
    }
}

/// Cumulative weights never decrease.
pub proof fn lemma_cumulative_monotonic(weights: Seq<nat>, i: int, j: int)
    requires
        i <= j,
    ensures
        cumulative(weights, i) <= cumulative(weights, j),
    decreases j - i,
{
    if i < j {
        lemma_cumulative_monotonic(weights, i, j - 1);
    }
}

/// At most one candidate owns a draw.
pub proof fn lemma_slot_unique(weights: Seq<nat>, r: nat, k1: int, k2: int)
    requires
        is_slot(weights, r, k1),
        is_slot(weights, r, k2),
    ensures
        k1 == k2,
{
    if k1 < k2 {
        lemma_cumulative_monotonic(weights, k1 + 1, k2);
    } else if k2 < k1 {
        lemma_cumulative_monotonic(weights, k2 + 1, k1);
    }
}

/// Every draw up to the total weight of a non-empty table has an owner.
pub proof fn lemma_slot_exists(weights: Seq<nat>, r: nat)
    requires
        weights.len() > 0,
        r <= cumulative(weights, weights.len() as int),
    ensures
        is_slot(weights, r, slot_of(weights, r)),
{
    lemma_slot_exists_below(weights, r, weights.len() as int - 1);
}

/// A draw that the cumulative weight up to `top` reaches has an owner.
proof fn lemma_slot_exists_below(weights: Seq<nat>, r: nat, top: int)
    requires
        0 <= top < weights.len(),
        r <= cumulative(weights, top + 1),
    ensures
        exists|k: int| is_slot(weights, r, k),
    decreases top,
{
    if top > 0 && r <= cumulative(weights, top) {
        lemma_slot_exists_below(weights, r, top - 1);
    } else {
        assert(is_slot(weights, r, top));
    }
}

/// Of the draws from zero to the total weight, a candidate owns those above
/// the cumulative weight before it and up to its own: as many draws as its
/// weight. The first candidate owns draw zero besides.
pub proof fn lemma_share_of_draws(weights: Seq<nat>, k: int, r: nat)
    requires
        0 <= k < weights.len(),
        r <= cumulative(weights, weights.len() as int),
    ensures
        slot_of(weights, r) == k <==> if k == 0 {
            r <= weights[0]
        } else {
            cumulative(weights, k) < r <= cumulative(weights, k) + weights[k]
        },
{
    lemma_slot_exists(weights, r);
    if is_slot(weights, r, k) {
        lemma_slot_unique(weights, r, k, slot_of(weights, r));
    }
    assert(cumulative(weights, 1) == weights[0]) by {
        reveal_with_fuel(cumulative, 2);
    }
}

/// A selection names the position of one of the table's candidates.
pub proof fn lemma_selection_is_candidate(table: Table, r: nat)
    requires
        r <= table.total(),
    ensures
        table.selection(r) is Some <==> table.len() > 0,
        table.selection(r) matches Some(position) ==> exists|k: int|
            0 <= k < table.len() && position == #[trigger] table.target(k),
{
    if table.len() == 1 {
        assert(table.selection(r) == Some(table.target(0)));
    } else if table.len() > 1 {
        lemma_slot_exists(table.weights, r);
        let k = slot_of(table.weights, r);
        assert(table.selection(r) == Some(table.target(k)));
    }
}

/// How a table position is mapped to the position it stands for.
#[derive(Debug)]
pub enum IdxProjection {
    /// Table position `k` stands for position `k`.
    AsIs,
    /// Table position `k` stands for the `k`-th entry of the list.
    Specific(Vec<usize>),
}

impl IdxProjection {
    /// The position that table position `idx` stands for.
    pub fn project(&self, idx: usize) -> (position: usize)
        requires
            self matches IdxProjection::Specific(p) ==> idx < p.len(),
        ensures
            position == match self {
                IdxProjection::AsIs => idx,
                IdxProjection::Specific(p) => p[idx as int],
            },
    {
        match self {
            IdxProjection::AsIs => idx,
            IdxProjection::Specific(p) => p[idx],
        }
    }
}

/// The sum stored before table position `k`.
spec fn before(sums: Seq<u128>, k: int) -> nat {
    if k <= 0 {
        0
    } else {
        sums[k - 1] as nat
    }
}

/// The weight that table position `k` added to the sums.
spec fn step(sums: Seq<u128>, k: int) -> nat {
    (sums[k] - before(sums, k)) as nat
}

/// The weights that a sequence of sums accumulates.
spec fn declared(sums: Seq<u128>) -> Seq<nat> {
    Seq::new(sums.len(), |k: int| step(sums, k))
}

/// Each sum adds a weight of at most 32 bits to the one before it.
spec fn accumulates(sums: Seq<u128>) -> bool {
    &&& forall|k: int|
        0 <= k < sums.len() ==> before(sums, k) <= #[trigger] sums[k] <= before(sums, k)
            + max_weight()
    &&& forall|k: int| 0 <= k < sums.len() ==> #[trigger] sums[k] <= (k + 1) * max_weight()
}

/// The stored sums are the cumulative weights of the weights they
/// accumulate.
proof fn lemma_sums(sums: Seq<u128>, k: int)
    requires
        accumulates(sums),
        0 <= k <= sums.len(),
    ensures
        cumulative(declared(sums), k) == before(sums, k),
    decreases k,
{
    if k > 0 {
        lemma_sums(sums, k - 1);
    }
}

/// Appends the sum that accumulates one more weight.
fn accumulate(sums: &mut Vec<u128>, weight: u32)
    requires
        accumulates(old(sums)@),
    ensures
        accumulates(final(sums)@),
        final(sums)@.len() == old(sums)@.len() + 1,
        declared(final(sums)@) == declared(old(sums)@).push(weight as nat),
{
    let n = sums.len();
    let last_weight: u128 = if n == 0 {
        0
    } else {
        sums[n - 1]
    };
    assert(last_weight + weight <= (n + 1) * max_weight()) by (nonlinear_arith)
        requires
            last_weight <= n * max_weight(),
            weight <= max_weight(),
    ;
    assert((n + 1) * max_weight() <= u128::MAX) by (nonlinear_arith)
        requires
            n <= 0xFFFF_FFFF_FFFF_FFFF,
            max_weight() == 0xFFFF_FFFF,
    ;
    let ghost earlier = sums@;
    sums.push(last_weight + weight as u128);
    proof {
        assert(forall|k: int| 0 <= k < n ==> sums@[k] == earlier[k]);
        assert(forall|k: int| 0 <= k < n ==> step(sums@, k) == step(earlier, k));
        assert(declared(sums@) =~= declared(earlier).push(weight as nat));
    }
}

/// A table of cumulative weights, from which a candidate is drawn with a
/// probability proportional to its weight.
///
/// The sums are kept in 128 bits: a table holds at most `usize::MAX` weights
/// of at most 32 bits each, so no sum can overflow.
#[derive(Debug)]
pub struct CumulativeWeights {
    weights: Vec<u128>,
    idx_projection: IdxProjection,
}

impl View for CumulativeWeights {
    type V = Table;

    closed spec fn view(&self) -> Table {
        Table {
            weights: declared(self.weights@),
            projection: match self.idx_projection {
                IdxProjection::AsIs => None,
                IdxProjection::Specific(p) => Some(p@),
            },
        }
    }
}

impl CumulativeWeights {
    #[verifier::type_invariant]
    spec fn well_formed(&self) -> bool {
        &&& accumulates(self.weights@)
        &&& self.idx_projection matches IdxProjection::Specific(p) ==> p@.len()
            == self.weights@.len()
    }

    /// An empty table whose positions stand for themselves.
    pub fn new() -> (table: Self)
        ensures
            table@ == (Table { weights: Seq::empty(), projection: None }),
    {
        let table = CumulativeWeights { weights: Vec::new(), idx_projection: IdxProjection::AsIs };
        assert(table@.weights =~= Seq::empty());
        table
    }

    /// An empty table that carries an explicit list of positions.
    pub fn with_projection() -> (table: Self)
        ensures
            table@ == (Table { weights: Seq::empty(), projection: Some(Seq::empty()) }),
    {
        let table = CumulativeWeights {
            weights: Vec::new(),
            idx_projection: IdxProjection::Specific(Vec::new()),
        };
        assert(table@.weights =~= Seq::empty());
        table
    }

    /// The number of candidates in the table.
    pub fn len(&self) -> (n: usize)
        ensures
            n == self@.weights.len(),
    {
        self.weights.len()
    }

    /// The sum of all weights in the table.
    pub fn total(&self) -> (sum: u128)
        ensures
            sum == self@.total(),
    {
        proof {
            use_type_invariant(self);
            lemma_sums(self.weights@, self.weights@.len() as int);
        }
        let n = self.weights.len();
        if n == 0 {
            0
        } else {
            self.weights[n - 1]
        }
    }

    /// Appends a candidate of the given weight to a table whose positions
    /// stand for themselves.
    pub fn add_weight(&mut self, weight: u32)
        requires
            old(self)@.projection is None,
        ensures
            final(self)@ == (Table {
                weights: old(self)@.weights.push(weight as nat),
                projection: None,
            }),
    {
        proof {
            use_type_invariant(&*self);
        }
        let mut taken = CumulativeWeights::new();
        std::mem::swap(self, &mut taken);
        let CumulativeWeights { weights: mut sums, idx_projection } = taken;
        accumulate(&mut sums, weight);
        *self = CumulativeWeights { weights: sums, idx_projection };
    }

    /// Appends a candidate of the given weight, standing for position `idx`,
    /// to a table that carries an explicit list of positions.
    pub fn add_weight_for_idx(&mut self, weight: u32, idx: usize)
        requires
            old(self)@.projection is Some,
        ensures
            final(self)@ == (Table {
                weights: old(self)@.weights.push(weight as nat),
                projection: Some(old(self)@.projection->0.push(idx)),
            }),
    {
        proof {
            use_type_invariant(&*self);
        }
        let mut taken = CumulativeWeights::new();
        std::mem::swap(self, &mut taken);
        let CumulativeWeights { weights: mut sums, idx_projection } = taken;
        match idx_projection {
            IdxProjection::Specific(mut positions) => {
                positions.push(idx);
                accumulate(&mut sums, weight);
                *self = CumulativeWeights {
                    weights: sums,
                    idx_projection: IdxProjection::Specific(positions),
                };
            },
            IdxProjection::AsIs => {
                *self = CumulativeWeights { weights: sums, idx_projection: IdxProjection::AsIs };
            },
        }
    }

    /// The first table position whose cumulative weight reaches `draw`.
    fn locate(&self, draw: u128) -> (k: usize)
        requires
            self@.weights.len() > 0,
            draw <= self@.total(),
        ensures
            is_slot(self@.weights, draw as nat, k as int),
    {
        proof {
            use_type_invariant(self);
            lemma_sums(self.weights@, self.weights@.len() as int);
        }
        let mut lo: usize = 0;
        let mut hi: usize = self.weights.len() - 1;
        while lo < hi
            invariant
                lo <= hi < self.weights@.len(),
                draw <= self.weights@[hi as int],
                lo > 0 ==> self.weights@[lo - 1] < draw,
            decreases hi - lo,
        {
            let mid = lo + (hi - lo) / 2;
            if self.weights[mid] < draw {
                lo = mid + 1;
            } else {
                hi = mid;
            }
        }
        proof {
            lemma_sums(self.weights@, lo as int);
            lemma_sums(self.weights@, lo as int + 1);
        }
        lo
    }

    /// The position selected by `draw`: none from an empty table, the only
    /// candidate of a table of one, and otherwise the position of the first
    /// candidate whose cumulative weight reaches `draw`.
    pub fn select_at(&self, draw: u128) -> (position: Option<usize>)
        requires
            draw <= self@.total(),
        ensures
            position == self@.selection(draw as nat),
            self@.valid(),
    {
        proof {
            use_type_invariant(self);
        }
        let n = self.weights.len();
        if n == 0 {
            return None;
        }
        let idx = if n == 1 {
            0
        } else {
            let k = self.locate(draw);
            proof {
                lemma_slot_exists(self@.weights, draw as nat);
                lemma_slot_unique(self@.weights, draw as nat, k as int, slot_of(self@.weights, draw as nat));
            }
            k
        };
        Some(self.idx_projection.project(idx))
    }

    /// Selects a position at random, each candidate with a probability
    /// proportional to its weight: the draw is uniform between zero and the
    /// total weight, both included. A table of fewer than two candidates
    /// needs no draw.
    pub fn select_uniformly(&self) -> (position: Option<usize>)
        ensures
            exists|r: nat| r <= self@.total() && position == self@.selection(r),
            self@.valid(),
    {
        let n = self.len();
        if n < 2 {
            self.select_at(0)
        } else {
            let max = self.weights[n - 1];
            proof {
                use_type_invariant(self);
                lemma_sums(self.weights@, n as int);
                assert(n * max_weight() < u128::MAX) by (nonlinear_arith)
                    requires
                        n <= 0xFFFF_FFFF_FFFF_FFFF,
                        max_weight() == 0xFFFF_FFFF,
                ;
            }
            let draw = draw_below(max + 1);
            self.select_at(draw)
        }
    }
}

/// A uniform draw from `0..bound`, made with `rand::Rng::gen_range(0, bound)`
/// on `rand::thread_rng()`. `gen_range` panics on an empty range, which the
/// precondition leaves out; the result lies in the range, and nothing more is
/// known of it. The generator seeds itself from the operating system on a
/// thread's first draw, and panics if the system has no randomness to give.
#[verifier::external_body]
fn draw_below(bound: u128) -> (draw: u128)
    requires
        0 < bound,
    ensures
        draw < bound,
{
    rand::thread_rng().gen_range(0u128, bound)
}

} // verus!
