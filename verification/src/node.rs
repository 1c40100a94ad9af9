//! Nodes of the growing self-organising map: a coordinate in the 2D topology,
//! a weight vector in fixed-point form, an accumulated error, a usage history
//! and a storage of the inputs routed to the node.

use vstd::prelude::*;
use vstd::arithmetic::div_mod::lemma_fundamental_div_mod_converse;

verus! {

/// Largest magnitude a weight component may take; keeps squared Euclidean
/// distances of vectors of up to `DIM_LIMIT` components inside `i64`.
pub const WEIGHT_LIMIT: i64 = 16777216;

/// Largest supported weight-vector dimension.
pub const DIM_LIMIT: usize = 128;

/// Ceiling at which accumulated node errors saturate.
pub const ERROR_CEIL: i64 = 1000000000000000000;

/// Denominator of the per-mille fixed-point scale used for all fractional
/// configuration values (learning rate, distribution factor, noise).
pub const SCALE: i64 = 1000;

/// A node's location in the two-dimensional topology of the map.
#[derive(Clone, Copy, PartialEq, Eq, Structural, Debug, Hash)]
pub struct Coordinate(pub i64, pub i64);

/// An item that the map indexes: anything exposing a weight vector.
#[derive(Clone, Debug)]
pub struct Input {
    /// The weight vector, in fixed-point units.
    pub weights: Vec<i64>,
}

/// A node of the map.
#[derive(Clone, Debug)]
pub struct Node {
    /// Where the node sits in the topology.
    pub coordinate: Coordinate,
    /// The learned weight vector, in fixed-point units.
    pub weights: Vec<i64>,
    /// Accumulated quantisation error, saturating at `ERROR_CEIL`.
    pub error: i64,
    /// How many new inputs have ever hit this node (saturating).
    pub total_hits: u64,
    /// Times of the most recent hits, newest first, capped at the
    /// rebalance memory.
    pub last_hits: Vec<usize>,
    /// The inputs currently routed to this node.
    pub storage: Vec<Input>,
}

/// Absolute value over mathematical integers.
pub open spec fn abs_int(x: int) -> int {
    if x >= 0 {
        x
    } else {
        -x
    }
}

/// Manhattan distance between two coordinates.
pub open spec fn manhattan(a: Coordinate, b: Coordinate) -> int {
    abs_int(a.0 - b.0) + abs_int(a.1 - b.1)
}

/// Chebyshev distance between two coordinates.
pub open spec fn chebyshev(a: Coordinate, b: Coordinate) -> int {
    if abs_int(a.0 - b.0) >= abs_int(a.1 - b.1) {
        abs_int(a.0 - b.0)
    } else {
        abs_int(a.1 - b.1)
    }
}

/// Injective encoding of a coordinate as a map key.
pub open spec fn key_of(c: Coordinate) -> u128 {
    ((c.0 + 0x8000000000000000) * 0x10000000000000000 + (c.1 + 0x8000000000000000)) as u128
}

/// The key encoding separates distinct coordinates.
pub proof fn lemma_key_of_injective(a: Coordinate, b: Coordinate)
    requires
        key_of(a) == key_of(b),
    ensures
        a == b,
{
    let m: int = 0x10000000000000000;
    let qa = a.0 + 0x8000000000000000;
    let ra = a.1 + 0x8000000000000000;
    let qb = b.0 + 0x8000000000000000;
    let rb = b.1 + 0x8000000000000000;
    assert(0 <= ra < m && 0 <= rb < m);
    assert(0 <= qa * m + ra < 0x100000000000000000000000000000000) by (nonlinear_arith)
        requires
            0 <= qa < m,
            0 <= ra < m,
            m == 0x10000000000000000,
    ;
    assert(0 <= qb * m + rb < 0x100000000000000000000000000000000) by (nonlinear_arith)
        requires
            0 <= qb < m,
            0 <= rb < m,
            m == 0x10000000000000000,
    ;
    let x: int = qa * m + ra;
    lemma_fundamental_div_mod_converse(x, m, qa, ra);
    lemma_fundamental_div_mod_converse(x, m, qb, rb);
}

/// Computes the map key of a coordinate.
pub fn coordinate_key(c: Coordinate) -> (r: u128)
    ensures
        r == key_of(c),
{
    let q: u128 = (c.0 as i128 + 0x8000000000000000i128) as u128;
    let rr: u128 = (c.1 as i128 + 0x8000000000000000i128) as u128;
    assert(q * 0x10000000000000000 + rr < 0x100000000000000000000000000000000) by (nonlinear_arith)
        requires
            0 <= q < 0x10000000000000000,
            0 <= rr < 0x10000000000000000,
    ;
    q * 0x10000000000000000u128 + rr
}

/// Moves a coordinate by one step of the given offset, refusing the step
/// only where a component would leave the representable range.
pub open spec fn coordinate_step(c: Coordinate, dx: int, dy: int) -> Option<Coordinate> {
    if i64::MIN <= c.0 + dx <= i64::MAX && i64::MIN <= c.1 + dy <= i64::MAX {
        Some(Coordinate((c.0 + dx) as i64, (c.1 + dy) as i64))
    } else {
        None
    }
}

/// Offsets a coordinate, returning `None` where the result is not
/// representable.
pub fn coordinate_offset(c: Coordinate, dx: i64, dy: i64) -> (r: Option<Coordinate>)
    requires
        -4 <= dx <= 4,
        -4 <= dy <= 4,
    ensures
        r == coordinate_step(c, dx as int, dy as int),
{
    let nx = (c.0 as i128) + (dx as i128);
    let ny = (c.1 as i128) + (dy as i128);
    if nx >= i64::MIN as i128 && nx <= i64::MAX as i128 && ny >= i64::MIN as i128 && ny
        <= i64::MAX as i128 {
        Some(Coordinate(nx as i64, ny as i64))
    } else {
        None
    }
}

/// All components of a weight vector lie within the operating range.
pub open spec fn weights_in_range(s: Seq<i64>) -> bool {
    forall|i: int| 0 <= i < s.len() ==> -WEIGHT_LIMIT <= #[trigger] s[i] <= WEIGHT_LIMIT
}

impl Input {
    /// A well-formed input of the given dimension.
    pub open spec fn wf(self, dimension: nat) -> bool {
        &&& self.weights@.len() == dimension
        &&& weights_in_range(self.weights@)
    }

    /// Wraps a weight vector as an input.
    pub fn new(weights: Vec<i64>) -> (r: Input)
        ensures
            r.weights == weights,
    {
        Input { weights }
    }
}

/// Squared Euclidean distance between two weight vectors of equal length.
pub open spec fn dist2(a: Seq<i64>, b: Seq<i64>) -> int
    decreases a.len(),
{
    if a.len() == 0 {
        0
    } else {
        dist2(a.drop_last(), b.take(a.len() - 1)) + (a.last() - b[a.len() - 1]) * (a.last() - b[
            a.len() - 1])
    }
}

/// The squared distance of in-range vectors is bounded by the number of
/// components times the largest possible squared difference.
pub proof fn lemma_dist2_bound(a: Seq<i64>, b: Seq<i64>)
    requires
        a.len() == b.len(),
        weights_in_range(a),
        weights_in_range(b),
    ensures
        0 <= dist2(a, b) <= a.len() * (4 * WEIGHT_LIMIT * WEIGHT_LIMIT),
    decreases a.len(),
{
    if a.len() == 0 {
    } else {
        let a1 = a.drop_last();
        let b1 = b.take(a.len() - 1);
        assert(weights_in_range(a1));
        assert(weights_in_range(b1));
        lemma_dist2_bound(a1, b1);
        let d = a.last() - b[a.len() - 1];
        assert(0 <= d * d <= 4 * WEIGHT_LIMIT * WEIGHT_LIMIT) by (nonlinear_arith)
            requires
                -2 * WEIGHT_LIMIT <= d <= 2 * WEIGHT_LIMIT,
        ;
        assert((a.len() - 1) * (4 * WEIGHT_LIMIT * WEIGHT_LIMIT) + 4 * WEIGHT_LIMIT * WEIGHT_LIMIT
            == a.len() * (4 * WEIGHT_LIMIT * WEIGHT_LIMIT)) by (nonlinear_arith);
    }
}

/// Computes the squared Euclidean distance of two in-range vectors.
pub fn distance(a: &Vec<i64>, b: &Vec<i64>) -> (r: i64)
    requires
        a@.len() == b@.len(),
        a@.len() <= DIM_LIMIT,
        weights_in_range(a@),
        weights_in_range(b@),
    ensures
        r == dist2(a@, b@),
        0 <= r <= a@.len() * (4 * WEIGHT_LIMIT * WEIGHT_LIMIT),
{
    let mut sum: i64 = 0;
    let mut i: usize = 0;
    proof {
        assert(a@.take(0) =~= Seq::<i64>::empty());
        assert(b@.take(0) =~= Seq::<i64>::empty());
    }
    while i < a.len()
        invariant
            0 <= i <= a@.len(),
            a@.len() == b@.len(),
            a@.len() <= DIM_LIMIT,
            weights_in_range(a@),
            weights_in_range(b@),
            sum == dist2(a@.take(i as int), b@.take(i as int)),
            0 <= sum <= i * (4 * WEIGHT_LIMIT * WEIGHT_LIMIT),
        decreases a@.len() - i,
    {
        let d = a[i] - b[i];
        proof {
            assert(-2 * WEIGHT_LIMIT <= d <= 2 * WEIGHT_LIMIT);
            assert(0 <= d * d <= 4 * WEIGHT_LIMIT * WEIGHT_LIMIT) by (nonlinear_arith)
                requires
                    -2 * WEIGHT_LIMIT <= d <= 2 * WEIGHT_LIMIT,
            ;
            lemma_dist2_bound(a@.take(i as int), b@.take(i as int));
            assert(i * (4 * WEIGHT_LIMIT * WEIGHT_LIMIT) + 4 * WEIGHT_LIMIT * WEIGHT_LIMIT <= (i
                + 1) * (4 * WEIGHT_LIMIT * WEIGHT_LIMIT)) by (nonlinear_arith)
                requires
                    0 <= i,
            ;
            assert((i + 1) * (4 * WEIGHT_LIMIT * WEIGHT_LIMIT) <= DIM_LIMIT * (4 * WEIGHT_LIMIT
                * WEIGHT_LIMIT)) by (nonlinear_arith)
                requires
                    0 <= i + 1 <= DIM_LIMIT,
            ;
            let at = a@.take(i + 1);
            let bt = b@.take(i + 1);
            assert(at.drop_last() =~= a@.take(i as int));
            assert(bt.take(at.len() - 1) =~= b@.take(i as int));
            assert(at.last() == a@[i as int] && bt[at.len() - 1] == b@[i as int]);
        }
        sum = sum + d * d;
        i = i + 1;
        proof {
            assert(i * (4 * WEIGHT_LIMIT * WEIGHT_LIMIT) <= DIM_LIMIT * (4 * WEIGHT_LIMIT
                * WEIGHT_LIMIT)) by (nonlinear_arith)
                requires
                    0 <= i <= DIM_LIMIT,
            ;
        }
    }
    proof {
        assert(a@.take(a@.len() as int) =~= a@);
        assert(b@.take(b@.len() as int) =~= b@);
    }
    sum
}

impl Node {
    /// A well-formed node of the given dimension.
    pub open spec fn wf(self, dimension: nat) -> bool {
        &&& self.weights@.len() == dimension
        &&& weights_in_range(self.weights@)
        &&& 0 <= self.error <= ERROR_CEIL
        &&& forall|i: int|
            0 <= i < self.storage@.len() ==> (#[trigger] self.storage@[i]).wf(dimension)
    }

    /// Creates a node with the given coordinate, weights and initial error,
    /// no recorded usage and an empty storage.
    pub fn new(coordinate: Coordinate, weights: Vec<i64>, error: i64) -> (r: Node)
        ensures
            r.coordinate == coordinate,
            r.weights == weights,
            r.error == error,
            r.total_hits == 0,
            r.last_hits@ =~= Seq::<usize>::empty(),
            r.storage@ =~= Seq::<Input>::empty(),
    {
        Node { coordinate, weights, error, total_hits: 0, last_hits: Vec::new(), storage: Vec::new() }
    }

    /// Records a hit at the given time: bumps the saturating hit counter and,
    /// when the time differs from the most recent one, pushes it at the front
    /// of the usage history, truncated to the rebalance memory.
    pub fn new_hit(&mut self, time: usize, memory: usize)
        ensures
            final(self).coordinate == old(self).coordinate,
            final(self).weights == old(self).weights,
            final(self).error == old(self).error,
            final(self).storage == old(self).storage,
            final(self).total_hits == if old(self).total_hits == u64::MAX {
                u64::MAX as int
            } else {
                old(self).total_hits + 1
            },
            final(self).last_hits@ == spec_hits_after(old(self).last_hits@, time, memory as nat),
    {
        if self.total_hits < u64::MAX {
            self.total_hits = self.total_hits + 1;
        }
        if self.last_hits.len() == 0 || self.last_hits[0] != time {
            let mut updated: Vec<usize> = Vec::new();
            updated.push(time);
            let mut i: usize = 0;
            while i < self.last_hits.len() && updated.len() < memory
                invariant
                    0 <= i <= self.last_hits@.len(),
                    updated@.len() == 1 + i,
                    updated@.len() <= memory || updated@.len() == 1,
                    updated@ == seq![time].add(self.last_hits@.take(i as int)),
                decreases self.last_hits@.len() - i,
            {
                let v = self.last_hits[i];
                updated.push(v);
                proof {
                    assert(seq![time].add(self.last_hits@.take(i as int)).push(v) =~= seq![
                        time,
                    ].add(self.last_hits@.take(i + 1)));
                }
                i = i + 1;
            }
            proof {
                let s = old(self).last_hits@;
                let full = seq![time].add(s);
                if full.len() <= memory {
                    assert(i == s.len());
                    assert(s.take(i as int) =~= s);
                    assert(updated@ =~= full.take(full.len() as int));
                } else {
                    if memory == 0 {
                        assert(updated@ =~= full.take(1));
                    } else {
                        assert(updated@.len() == memory);
                        assert(seq![time].add(s.take(i as int)) =~= full.take(memory as int));
                    }
                }
            }
            self.last_hits = updated;
        }
    }
}

/// The usage history after a hit at `time`: unchanged when `time` is already
/// the newest entry, else `time` prepended and the history truncated to the
/// memory (never below one entry).
pub open spec fn spec_hits_after(hits: Seq<usize>, time: usize, memory: nat) -> Seq<usize> {
    if hits.len() > 0 && hits[0] == time {
        hits
    } else {
        let full = seq![time].add(hits);
        if full.len() <= memory {
            full
        } else if memory == 0 {
            full.take(1)
        } else {
            full.take(memory as int)
        }
    }
}

} // verus!
