//! A growing self-organising map: an adaptive two-dimensional topology of
//! nodes whose weight vectors approximate the distribution of the inputs
//! stored into it. Nodes accumulate quantisation error; a node whose error
//! exceeds the growing threshold either spreads the error to its neighbours
//! (interior nodes) or grows new nodes on its free sides (boundary nodes).
//!
//! All weights are fixed-point integers. Fractional configuration values
//! (learning rate, distribution factor) are given per mille; the growing
//! threshold is given directly in the error scale, since its textbook
//! definition from a spread factor needs a logarithm that the embedding
//! application computes.

use vstd::prelude::*;
use vstd::multiset::Multiset;
use vstd::arithmetic::div_mod::{lemma_div_is_ordered, lemma_div_multiples_vanish, lemma_fundamental_div_mod_converse};
use crate::index::{entries, NodeIndex};
use crate::node::{
    abs_int, chebyshev, coordinate_key, coordinate_offset, coordinate_step, dist2, distance,
    key_of, lemma_dist2_bound, lemma_key_of_injective, manhattan, spec_hits_after,
    weights_in_range, Coordinate, Input, Node, DIM_LIMIT, ERROR_CEIL, SCALE, WEIGHT_LIMIT,
};
use crate::rng::{noise_factor, shuffle_inputs, NOISE_MAX, NOISE_MIN};

verus! {

/// Configuration of a map.
pub struct NetworkConfig {
    /// Accumulated-error limit beyond which a node distributes error or
    /// grows, in the fixed-point error scale.
    pub growing_threshold: i64,
    /// The factor of distribution, per mille, strictly between 0 and `SCALE`.
    pub distribution_factor: i64,
    /// Initial learning rate, per mille, at most `SCALE`.
    pub learning_rate: i64,
    /// How many recent hit times each node remembers.
    pub rebalance_memory: usize,
    /// When set, initial nodes start with error equal to the growing
    /// threshold instead of zero.
    pub has_initial_error: bool,
}

impl NetworkConfig {
    /// A usable configuration.
    pub open spec fn wf(self) -> bool {
        &&& 0 < self.distribution_factor < SCALE
        &&& 0 <= self.learning_rate <= SCALE
        &&& 0 <= self.growing_threshold <= ERROR_CEIL
    }
}

/// A growing self-organising map over fixed-point weight vectors.
pub struct Network {
    /// Data dimension: the length of every weight vector in the map.
    pub dimension: usize,
    /// Growth threshold.
    pub growing_threshold: i64,
    /// The factor of distribution, per mille.
    pub distribution_factor: i64,
    /// Initial learning rate, per mille.
    pub learning_rate: i64,
    /// Time of the most recent store.
    pub time: usize,
    /// How many recent hit times each node remembers.
    pub rebalance_memory: usize,
    /// Element-wise minimum of every weight vector a node was created with.
    pub min_weights: Vec<i64>,
    /// Element-wise maximum of every weight vector a node was created with.
    pub max_weights: Vec<i64>,
    /// Keys of the nodes, in insertion order; iteration and tie-breaking
    /// follow this order, so the map's behaviour does not depend on the
    /// backing hash map's iteration order.
    pub order: Vec<u128>,
    /// The node index.
    pub index: NodeIndex,
    /// Every weight vector a node was ever created with, oldest first.
    pub inserted: Ghost<Seq<Seq<i64>>>,
}

/// Element-wise minimum of two equally long vectors.
pub open spec fn elem_min(a: Seq<i64>, b: Seq<i64>) -> Seq<i64> {
    Seq::new(a.len(), |i: int| if b[i] < a[i] { b[i] } else { a[i] })
}

/// Element-wise maximum of two equally long vectors.
pub open spec fn elem_max(a: Seq<i64>, b: Seq<i64>) -> Seq<i64> {
    Seq::new(a.len(), |i: int| if b[i] > a[i] { b[i] } else { a[i] })
}

/// Element-wise minimum over a non-empty collection of vectors.
pub open spec fn envelope_min(ss: Seq<Seq<i64>>) -> Seq<i64>
    decreases ss.len(),
{
    if ss.len() <= 1 {
        ss[0]
    } else {
        elem_min(envelope_min(ss.drop_last()), ss.last())
    }
}

/// Element-wise maximum over a non-empty collection of vectors.
pub open spec fn envelope_max(ss: Seq<Seq<i64>>) -> Seq<i64>
    decreases ss.len(),
{
    if ss.len() <= 1 {
        ss[0]
    } else {
        elem_max(envelope_max(ss.drop_last()), ss.last())
    }
}

impl Network {
    /// The nodes of the map, as a map from coordinate keys.
    pub open spec fn nodes(self) -> Map<u128, Node> {
        entries(self.index)
    }

    /// The map is well formed: at least four nodes, all of the data
    /// dimension, uniquely keyed by their coordinates, the insertion order
    /// listing exactly the node keys, and the weight envelope equal to the
    /// element-wise extremes of every weight vector a node was created with.
    pub open spec fn wf(self) -> bool {
        &&& 1 <= self.dimension <= DIM_LIMIT
        &&& 0 < self.distribution_factor < SCALE
        &&& 0 <= self.learning_rate <= SCALE
        &&& 0 <= self.growing_threshold <= ERROR_CEIL
        &&& self.min_weights@.len() == self.dimension
        &&& self.max_weights@.len() == self.dimension
        &&& weights_in_range(self.min_weights@)
        &&& weights_in_range(self.max_weights@)
        &&& self.order@.no_duplicates()
        &&& self.order@.len() >= 4
        &&& self.order@.to_set() == self.nodes().dom()
        &&& forall|k: u128|
            self.nodes().dom().contains(k) ==> (#[trigger] self.nodes()[k]).wf(
                self.dimension as nat,
            ) && key_of(self.nodes()[k].coordinate) == k
        &&& self.inserted@.len() >= 1
        &&& forall|i: int|
            0 <= i < self.inserted@.len() ==> (#[trigger] self.inserted@[i]).len()
                == self.dimension && weights_in_range(self.inserted@[i])
        &&& self.min_weights@ == envelope_min(self.inserted@)
        &&& self.max_weights@ == envelope_max(self.inserted@)
    }

    /// Returns the total amount of nodes; a well-formed map never has fewer
    /// than four.
    pub fn size(&self) -> (r: usize)
        requires
            self.wf(),
        ensures
            r == self.order@.len(),
            r >= 4,
    {
        self.order.len()
    }

    /// Returns the time of the most recent store.
    pub fn get_current_time(&self) -> (r: usize)
        ensures
            r == self.time,
    {
        self.time
    }

    /// Finds a node by its coordinate.
    pub fn find(&self, coordinate: &Coordinate) -> (r: Option<Node>)
        ensures
            match r {
                Some(node) => self.nodes().contains_key(key_of(*coordinate)) && node
                    == self.nodes()[key_of(*coordinate)],
                None => !self.nodes().contains_key(key_of(*coordinate)),
            },
    {
        self.index.get(coordinate_key(*coordinate))
    }

    /// Returns the node coordinates, in insertion order.
    pub fn get_coordinates(&self) -> (r: Vec<Coordinate>)
        requires
            self.wf(),
        ensures
            r@.len() == self.order@.len(),
            forall|i: int|
                0 <= i < r@.len() ==> #[trigger] r@[i] == self.nodes()[self.order@[i]].coordinate,
    {
        let mut out: Vec<Coordinate> = Vec::new();
        let mut i: usize = 0;
        while i < self.order.len()
            invariant
                self.wf(),
                0 <= i <= self.order@.len(),
                out@.len() == i,
                forall|j: int|
                    0 <= j < i ==> #[trigger] out@[j] == self.nodes()[self.order@[j]].coordinate,
            decreases self.order@.len() - i,
        {
            let key = self.order[i];
            proof {
                assert(self.order@.to_set().contains(key));
            }
            let node = self.index.get(key);
            match node {
                Some(node) => out.push(node.coordinate),
                None => {
                    proof {
                        assert(false);
                    }
                },
            }
            i = i + 1;
        }
        out
    }

    /// Returns the nodes, in insertion order.
    pub fn get_nodes(&self) -> (r: Vec<Node>)
        requires
            self.wf(),
        ensures
            r@.len() == self.order@.len(),
            forall|i: int| 0 <= i < r@.len() ==> #[trigger] r@[i] == self.nodes()[self.order@[i]],
    {
        let mut out: Vec<Node> = Vec::new();
        let mut i: usize = 0;
        while i < self.order.len()
            invariant
                self.wf(),
                0 <= i <= self.order@.len(),
                out@.len() == i,
                forall|j: int| 0 <= j < i ==> #[trigger] out@[j] == self.nodes()[self.order@[j]],
            decreases self.order@.len() - i,
        {
            let key = self.order[i];
            proof {
                assert(self.order@.to_set().contains(key));
            }
            let node = self.index.get(key);
            match node {
                Some(node) => out.push(node),
                None => {
                    proof {
                        assert(false);
                    }
                },
            }
            i = i + 1;
        }
        out
    }

    /// Iterates over coordinates and their nodes, in insertion order.
    pub fn iter(&self) -> (r: Vec<(Coordinate, Node)>)
        requires
            self.wf(),
        ensures
            r@.len() == self.order@.len(),
            forall|i: int|
                0 <= i < r@.len() ==> #[trigger] r@[i] == (
                    self.nodes()[self.order@[i]].coordinate,
                    self.nodes()[self.order@[i]],
                ),
    {
        let mut out: Vec<(Coordinate, Node)> = Vec::new();
        let mut i: usize = 0;
        while i < self.order.len()
            invariant
                self.wf(),
                0 <= i <= self.order@.len(),
                out@.len() == i,
                forall|j: int|
                    0 <= j < i ==> #[trigger] out@[j] == (
                        self.nodes()[self.order@[j]].coordinate,
                        self.nodes()[self.order@[j]],
                    ),
            decreases self.order@.len() - i,
        {
            let key = self.order[i];
            proof {
                assert(self.order@.to_set().contains(key));
            }
            let node = self.index.get(key);
            match node {
                Some(node) => out.push((node.coordinate, node)),
                None => {
                    proof {
                        assert(false);
                    }
                },
            }
            i = i + 1;
        }
        out
    }

}

/// Truncated integer division, as the machine performs it.
pub open spec fn div_trunc(n: int, d: int) -> int {
    if n >= 0 {
        n / d
    } else {
        -((-n) / d)
    }
}

/// Clamps a value into the weight operating range.
pub open spec fn clamp_weight(x: int) -> int {
    if x < -WEIGHT_LIMIT {
        -WEIGHT_LIMIT as int
    } else if x > WEIGHT_LIMIT {
        WEIGHT_LIMIT as int
    } else {
        x
    }
}

/// Divides a non-negative value by a positive one.
pub fn div_nonneg(n: i64, d: i64) -> (r: i64)
    requires
        n >= 0,
        d > 0,
    ensures
        r == n as int / d as int,
{
    ((n as u64) / (d as u64)) as i64
}

/// `w` perturbed by the multiplicative per-mille factor `f`, clamped into
/// the weight operating range.
pub open spec fn noise_applied(w: i64, f: int) -> int {
    clamp_weight(div_trunc(w * f, SCALE as int))
}

/// Holds when `w` is `base` perturbed by the per-mille factor `f`.
pub open spec fn is_noise_of(w: i64, base: i64, f: int) -> bool {
    &&& NOISE_MIN <= f <= NOISE_MAX
    &&& w == noise_applied(base, f)
}

/// Holds when component `j` of `w` is component `j` of `base` perturbed by
/// some factor within the noise range.
pub open spec fn noised_at(w: Seq<i64>, base: Seq<i64>, j: int) -> bool {
    exists|f: int| is_noise_of(w[j], base[j], f)
}

/// Holds when every component of `w` is the matching component of `base`
/// perturbed by some factor within the noise range.
pub open spec fn is_noised(w: Seq<i64>, base: Seq<i64>) -> bool {
    &&& w.len() == base.len()
    &&& forall|i: int| 0 <= i < w.len() ==> #[trigger] noised_at(w, base, i)
}

/// Applies a multiplicative per-mille noise factor to one weight.
pub fn apply_noise(w: i64, f: i64) -> (r: i64)
    requires
        -WEIGHT_LIMIT <= w <= WEIGHT_LIMIT,
        NOISE_MIN <= f <= NOISE_MAX,
    ensures
        r == noise_applied(w, f as int),
        -WEIGHT_LIMIT <= r <= WEIGHT_LIMIT,
{
    let q: i64 = if w >= 0 {
        proof {
            assert(w * f <= WEIGHT_LIMIT * NOISE_MAX) by (nonlinear_arith)
                requires
                    0 <= w <= WEIGHT_LIMIT,
                    0 < f <= NOISE_MAX,
            ;
            assert(0 <= w * f) by (nonlinear_arith)
                requires
                    0 <= w,
                    0 < f,
            ;
        }
        (((w as u64) * (f as u64)) / 1000) as i64
    } else {
        let m = -w;
        proof {
            assert(m * f <= WEIGHT_LIMIT * NOISE_MAX) by (nonlinear_arith)
                requires
                    0 <= m <= WEIGHT_LIMIT,
                    0 < f <= NOISE_MAX,
            ;
            assert(0 <= m * f) by (nonlinear_arith)
                requires
                    0 <= m,
                    0 < f,
            ;
            assert(m * f == -(w * f)) by (nonlinear_arith)
                requires
                    m == -w,
            ;
        }
        -((((m as u64) * (f as u64)) / 1000) as i64)
    };
    proof {
        assert(q == div_trunc(w * f, SCALE as int));
    }
    if q < -WEIGHT_LIMIT {
        -WEIGHT_LIMIT
    } else if q > WEIGHT_LIMIT {
        WEIGHT_LIMIT
    } else {
        q
    }
}

/// Copies a weight vector.
pub fn copy_weights(v: &Vec<i64>) -> (r: Vec<i64>)
    ensures
        r@ == v@,
{
    let mut out: Vec<i64> = Vec::new();
    let mut i: usize = 0;
    while i < v.len()
        invariant
            0 <= i <= v@.len(),
            out@ == v@.take(i as int),
        decreases v@.len() - i,
    {
        out.push(v[i]);
        proof {
            assert(v@.take(i as int).push(v@[i as int]) =~= v@.take(i + 1));
        }
        i = i + 1;
    }
    proof {
        assert(v@.take(v@.len() as int) =~= v@);
    }
    out
}

/// Widens a weight envelope by one vector, element-wise.
pub fn fold_envelope(min_w: &mut Vec<i64>, max_w: &mut Vec<i64>, weights: &Vec<i64>)
    requires
        old(min_w)@.len() == weights@.len(),
        old(max_w)@.len() == weights@.len(),
    ensures
        final(min_w)@ == elem_min(old(min_w)@, weights@),
        final(max_w)@ == elem_max(old(max_w)@, weights@),
{
    let mut i: usize = 0;
    while i < weights.len()
        invariant
            0 <= i <= weights@.len(),
            old(min_w)@.len() == weights@.len(),
            old(max_w)@.len() == weights@.len(),
            min_w@.len() == weights@.len(),
            max_w@.len() == weights@.len(),
            forall|j: int|
                0 <= j < weights@.len() ==> #[trigger] min_w@[j] == (if j < i {
                    elem_min(old(min_w)@, weights@)[j]
                } else {
                    old(min_w)@[j]
                }),
            forall|j: int|
                0 <= j < weights@.len() ==> #[trigger] max_w@[j] == (if j < i {
                    elem_max(old(max_w)@, weights@)[j]
                } else {
                    old(max_w)@[j]
                }),
        decreases weights@.len() - i,
    {
        let w = weights[i];
        let ghost prev_min = min_w@;
        let ghost prev_max = max_w@;
        if w < min_w[i] {
            min_w.set(i, w);
        }
        if w > max_w[i] {
            max_w.set(i, w);
        }
        proof {
            assert forall|j: int| 0 <= j < weights@.len() implies #[trigger] min_w@[j] == (if j
                <= i {
                elem_min(old(min_w)@, weights@)[j]
            } else {
                old(min_w)@[j]
            }) by {
                if j == i {
                    assert(prev_min[j] == old(min_w)@[j]);
                } else {
                    assert(min_w@[j] == prev_min[j]);
                }
            }
            assert forall|j: int| 0 <= j < weights@.len() implies #[trigger] max_w@[j] == (if j
                <= i {
                elem_max(old(max_w)@, weights@)[j]
            } else {
                old(max_w)@[j]
            }) by {
                if j == i {
                    assert(prev_max[j] == old(max_w)@[j]);
                } else {
                    assert(max_w@[j] == prev_max[j]);
                }
            }
        }
        i = i + 1;
    }
    proof {
        assert(min_w@ =~= elem_min(old(min_w)@, weights@));
        assert(max_w@ =~= elem_max(old(max_w)@, weights@));
    }
}

/// Distinct coordinates have distinct keys.
pub proof fn lemma_keys_distinct(a: Coordinate, b: Coordinate)
    requires
        a != b,
    ensures
        key_of(a) != key_of(b),
{
    if key_of(a) == key_of(b) {
        lemma_key_of_injective(a, b);
    }
}


/// A node as freshly created: the given coordinate and weights, no error,
/// no usage and an empty storage.
pub open spec fn is_fresh_node(n: Node, c: Coordinate, w: Seq<i64>) -> bool {
    &&& n.coordinate == c
    &&& n.weights@ == w
    &&& n.error == 0
    &&& n.total_hits == 0
    &&& n.last_hits@ == Seq::<usize>::empty()
    &&& n.storage@ == Seq::<Input>::empty()
}

impl Network {
    /// Creates a fresh node for the given coordinate and weights.
    fn create_node(&self, coordinate: Coordinate, weights: Vec<i64>) -> (r: Node)
        ensures
            is_fresh_node(r, coordinate, weights@),
    {
        Node::new(coordinate, weights, 0)
    }

    /// Inserts a fresh node at a free coordinate, widening the weight
    /// envelope with its weights.
    fn insert(&mut self, coordinate: Coordinate, weights: Vec<i64>)
        requires
            old(self).wf(),
            weights@.len() == old(self).dimension,
            weights_in_range(weights@),
            !old(self).nodes().dom().contains(key_of(coordinate)),
        ensures
            final(self).wf(),
            final(self).nodes() == old(self).nodes().insert(
                key_of(coordinate),
                final(self).nodes()[key_of(coordinate)],
            ),
            is_fresh_node(final(self).nodes()[key_of(coordinate)], coordinate, weights@),
            final(self).order@ == old(self).order@.push(key_of(coordinate)),
            final(self).inserted@ == old(self).inserted@.push(weights@),
            *final(self) == (Network {
                min_weights: final(self).min_weights,
                max_weights: final(self).max_weights,
                order: final(self).order,
                index: final(self).index,
                inserted: final(self).inserted,
                ..*old(self)
            }),
    {
        let ghost prior = *self;
        fold_envelope(&mut self.min_weights, &mut self.max_weights, &weights);
        proof {
            lemma_envelope_push(self.inserted@, weights@);
        }
        self.inserted = Ghost(self.inserted@.push(weights@));
        let key = coordinate_key(coordinate);
        let node = self.create_node(coordinate, weights);
        self.order.push(key);
        self.index.insert(key, node);
        proof {
            assert(self.order@.to_set() =~= prior.order@.to_set().insert(key)) by {
                assert forall|x: u128| self.order@.to_set().contains(x) <==> prior.order@.to_set().insert(
                    key,
                ).contains(x) by {
                    if self.order@.contains(x) {
                        let i = choose|i: int| 0 <= i < self.order@.len() && self.order@[i] == x;
                        if i < prior.order@.len() {
                            assert(prior.order@[i] == x);
                        }
                    }
                    if prior.order@.contains(x) {
                        let i = choose|i: int|
                            0 <= i < prior.order@.len() && prior.order@[i] == x;
                        assert(self.order@[i] == x);
                    }
                    if x == key {
                        assert(self.order@[self.order@.len() - 1] == x);
                    }
                }
            }
            assert(self.order@.no_duplicates()) by {
                assert forall|i: int, j: int|
                    0 <= i < self.order@.len() && 0 <= j < self.order@.len() && i
                        != j implies self.order@[i] != self.order@[j] by {
                    if i < prior.order@.len() && j < prior.order@.len() {
                        assert(prior.order@[i] != prior.order@[j]);
                    } else if i < prior.order@.len() {
                        assert(prior.order@.to_set().contains(prior.order@[i]));
                    } else if j < prior.order@.len() {
                        assert(prior.order@.to_set().contains(prior.order@[j]));
                    }
                }
            }
            assert forall|i: int|
                0 <= i < self.inserted@.len() implies (#[trigger] self.inserted@[i]).len()
                == self.dimension && weights_in_range(self.inserted@[i]) by {
                if i < prior.inserted@.len() {
                    assert(prior.inserted@[i].len() == prior.dimension);
                }
            }
            assert forall|j: int|
                0 <= j < self.min_weights@.len() implies -WEIGHT_LIMIT
                <= #[trigger] self.min_weights@[j] <= WEIGHT_LIMIT by {
                assert(self.min_weights@[j] == elem_min(prior.min_weights@, weights@)[j]);
            }
            assert forall|j: int|
                0 <= j < self.max_weights@.len() implies -WEIGHT_LIMIT
                <= #[trigger] self.max_weights@[j] <= WEIGHT_LIMIT by {
                assert(self.max_weights@[j] == elem_max(prior.max_weights@, weights@)[j]);
            }
            assert(self.wf());
            assert(self.nodes() =~= prior.nodes().insert(key, self.nodes()[key]));
        }
    }
}

/// A seed node: the given coordinate, the root input's weights perturbed by
/// noise, the configured initial error, no usage, and the root stored.
pub open spec fn is_seed_node(n: Node, c: Coordinate, root: Input, err: i64) -> bool {
    &&& n.coordinate == c
    &&& is_noised(n.weights@, root.weights@)
    &&& n.error == err
    &&& n.total_hits == 0
    &&& n.last_hits@ == Seq::<usize>::empty()
    &&& n.storage@ == seq![root]
}

/// Creates one seed node: the root's weights perturbed component-wise by
/// multiplicative noise, the configured initial error, and the root itself
/// as the node's first stored input.
fn create_initial_node(
    rng: &mut rand::rngs::StdRng,
    coordinate: Coordinate,
    input: Input,
    initial_error: i64,
) -> (r: Node)
    requires
        weights_in_range(input.weights@),
        0 <= initial_error <= ERROR_CEIL,
    ensures
        is_seed_node(r, coordinate, input, initial_error),
        weights_in_range(r.weights@),
        r.weights@.len() == input.weights@.len(),
{
    let mut w: Vec<i64> = Vec::new();
    let mut i: usize = 0;
    while i < input.weights.len()
        invariant
            0 <= i <= input.weights@.len(),
            weights_in_range(input.weights@),
            w@.len() == i,
            weights_in_range(w@),
            forall|j: int| 0 <= j < i ==> #[trigger] noised_at(w@, input.weights@, j),
        decreases input.weights@.len() - i,
    {
        let f = noise_factor(rng);
        let nw = apply_noise(input.weights[i], f);
        let ghost prev_w = w@;
        w.push(nw);
        proof {
            assert forall|j: int|
                0 <= j < i + 1 implies #[trigger] noised_at(w@, input.weights@, j) by {
                if j == i {
                    assert(is_noise_of(w@[j], input.weights@[j], f as int));
                } else {
                    assert(noised_at(prev_w, input.weights@, j));
                    let g0 = choose|g: int| is_noise_of(prev_w[j], input.weights@[j], g);
                    assert(w@[j] == prev_w[j]);
                    assert(is_noise_of(w@[j], input.weights@[j], g0));
                }
            }
        }
        i = i + 1;
    }
    let mut node = Node::new(coordinate, w, initial_error);
    node.storage.push(input);
    proof {
        assert(node.storage@ =~= seq![input]);
    }
    node
}

impl Network {
    /// Creates a map from four root inputs, placed at the corners of the
    /// unit square, each with its weights perturbed by multiplicative noise
    /// and with the root stored at its node. The weight envelope starts as
    /// the element-wise extremes of the four perturbed vectors.
    pub fn new(roots: Vec<Input>, config: NetworkConfig, rng: &mut rand::rngs::StdRng) -> (r:
        Network)
        requires
            config.wf(),
            roots@.len() == 4,
            1 <= roots@[0].weights@.len() <= DIM_LIMIT,
            forall|i: int|
                0 <= i < 4 ==> (#[trigger] roots@[i]).weights@.len() == roots@[0].weights@.len()
                    && weights_in_range(roots@[i].weights@),
        ensures
            r.wf(),
            r.dimension == roots@[0].weights@.len(),
            r.growing_threshold == config.growing_threshold,
            r.distribution_factor == config.distribution_factor,
            r.learning_rate == config.learning_rate,
            r.rebalance_memory == config.rebalance_memory,
            r.time == 0,
            r.order@.len() == 4,
            r.order@[0] == key_of(Coordinate(0, 0)),
            r.order@[1] == key_of(Coordinate(0, 1)),
            r.order@[2] == key_of(Coordinate(1, 1)),
            r.order@[3] == key_of(Coordinate(1, 0)),
            is_seed_node(
                r.nodes()[r.order@[0]],
                Coordinate(0, 0),
                roots@[0],
                if config.has_initial_error {
                    config.growing_threshold
                } else {
                    0
                },
            ),
            is_seed_node(
                r.nodes()[r.order@[1]],
                Coordinate(0, 1),
                roots@[1],
                if config.has_initial_error {
                    config.growing_threshold
                } else {
                    0
                },
            ),
            is_seed_node(
                r.nodes()[r.order@[2]],
                Coordinate(1, 1),
                roots@[2],
                if config.has_initial_error {
                    config.growing_threshold
                } else {
                    0
                },
            ),
            is_seed_node(
                r.nodes()[r.order@[3]],
                Coordinate(1, 0),
                roots@[3],
                if config.has_initial_error {
                    config.growing_threshold
                } else {
                    0
                },
            ),
            r.inserted@.len() == 4,
            forall|i: int|
                0 <= i < 4 ==> #[trigger] r.inserted@[i] == r.nodes()[r.order@[i]].weights@,
    {
        let mut roots = roots;
        let n00 = roots.remove(0);
        let n01 = roots.remove(0);
        let n11 = roots.remove(0);
        let n10 = roots.remove(0);
        let initial_error: i64 = if config.has_initial_error {
            config.growing_threshold
        } else {
            0
        };
        let node00 = create_initial_node(rng, Coordinate(0, 0), n00, initial_error);
        let node01 = create_initial_node(rng, Coordinate(0, 1), n01, initial_error);
        let node11 = create_initial_node(rng, Coordinate(1, 1), n11, initial_error);
        let node10 = create_initial_node(rng, Coordinate(1, 0), n10, initial_error);
        let dimension = node00.weights.len();
        let mut min_weights = copy_weights(&node00.weights);
        let mut max_weights = copy_weights(&node00.weights);
        fold_envelope(&mut min_weights, &mut max_weights, &node01.weights);
        fold_envelope(&mut min_weights, &mut max_weights, &node11.weights);
        fold_envelope(&mut min_weights, &mut max_weights, &node10.weights);
        let ghost ins = seq![node00.weights@, node01.weights@, node11.weights@, node10.weights@];
        proof {
            let s1 = seq![node00.weights@];
            let s2 = s1.push(node01.weights@);
            let s3 = s2.push(node11.weights@);
            assert(ins =~= s3.push(node10.weights@));
            assert(envelope_min(s1) == node00.weights@);
            assert(envelope_max(s1) == node00.weights@);
            lemma_envelope_push(s1, node01.weights@);
            lemma_envelope_push(s2, node11.weights@);
            lemma_envelope_push(s3, node10.weights@);
            assert(min_weights@ =~= elem_min(
                elem_min(elem_min(node00.weights@, node01.weights@), node11.weights@),
                node10.weights@,
            ));
            assert(elem_min(node00.weights@, node00.weights@) =~= node00.weights@);
            assert(elem_max(node00.weights@, node00.weights@) =~= node00.weights@);
            assert(max_weights@ =~= elem_max(
                elem_max(elem_max(node00.weights@, node01.weights@), node11.weights@),
                node10.weights@,
            ));
        }
        let key00 = coordinate_key(Coordinate(0, 0));
        let key01 = coordinate_key(Coordinate(0, 1));
        let key11 = coordinate_key(Coordinate(1, 1));
        let key10 = coordinate_key(Coordinate(1, 0));
        proof {
            lemma_keys_distinct(Coordinate(0, 0), Coordinate(0, 1));
            lemma_keys_distinct(Coordinate(0, 0), Coordinate(1, 1));
            lemma_keys_distinct(Coordinate(0, 0), Coordinate(1, 0));
            lemma_keys_distinct(Coordinate(0, 1), Coordinate(1, 1));
            lemma_keys_distinct(Coordinate(0, 1), Coordinate(1, 0));
            lemma_keys_distinct(Coordinate(1, 1), Coordinate(1, 0));
        }
        let mut order: Vec<u128> = Vec::new();
        order.push(key00);
        order.push(key01);
        order.push(key11);
        order.push(key10);
        let ghost g00 = node00;
        let ghost g01 = node01;
        let ghost g11 = node11;
        let ghost g10 = node10;
        let mut index = NodeIndex::empty();
        index.insert(key00, node00);
        index.insert(key01, node01);
        index.insert(key11, node11);
        index.insert(key10, node10);
        let net = Network {
            dimension,
            growing_threshold: config.growing_threshold,
            distribution_factor: config.distribution_factor,
            learning_rate: config.learning_rate,
            time: 0,
            rebalance_memory: config.rebalance_memory,
            min_weights,
            max_weights,
            order,
            index,
            inserted: Ghost(ins),
        };
        proof {
            assert(net.order@ =~= seq![key00, key01, key11, key10]);
            assert(net.order@.to_set() =~= net.nodes().dom()) by {
                assert forall|x: u128|
                    net.order@.to_set().contains(x) <==> net.nodes().dom().contains(x) by {
                    if net.order@.contains(x) {
                        let i = choose|i: int|
                            0 <= i < net.order@.len() && net.order@[i] == x;
                    }
                }
            }
            assert(net.order@.no_duplicates());
            assert forall|k: u128| net.nodes().dom().contains(k) implies (
                #[trigger] net.nodes()[k]).wf(net.dimension as nat) && key_of(
                net.nodes()[k].coordinate,
            ) == k by {
                if k == key10 {
                    assert(net.nodes()[k] == g10);
                } else if k == key11 {
                    assert(net.nodes()[k] == g11);
                } else if k == key01 {
                    assert(net.nodes()[k] == g01);
                } else {
                    assert(net.nodes()[k] == g00);
                }
            }
            assert(net.wf());
        }
        net
    }
}

/// The horizontal offset of patch rank `r` (ranks walk the 5 by 5
/// neighbourhood patch row by row).
pub open spec fn rank_dx(r: int) -> int {
    r / 5 - 2
}

/// The vertical offset of patch rank `r`.
pub open spec fn rank_dy(r: int) -> int {
    r % 5 - 2
}

/// The rank of coordinate `c` within the 5 by 5 patch centred at `b`.
pub open spec fn patch_rank(b: Coordinate, c: Coordinate) -> int {
    (c.0 - b.0 + 2) * 5 + (c.1 - b.1 + 2)
}

/// `c` lies in the 5 by 5 patch centred at `b` (centre included).
pub open spec fn in_patch(b: Coordinate, c: Coordinate) -> bool {
    chebyshev(b, c) <= 2
}

/// A patch member's rank is within the patch and decodes back to its offset.
pub proof fn lemma_patch_rank(b: Coordinate, c: Coordinate)
    requires
        in_patch(b, c),
    ensures
        0 <= patch_rank(b, c) < 25,
        rank_dx(patch_rank(b, c)) == c.0 - b.0,
        rank_dy(patch_rank(b, c)) == c.1 - b.1,
        patch_rank(b, c) == 12 <==> c == b,
{
    let dx = c.0 - b.0;
    let dy = c.1 - b.1;
    let r = patch_rank(b, c);
    assert(r == (dx + 2) * 5 + (dy + 2)) by (nonlinear_arith)
        requires
            r == patch_rank(b, c),
            dx == c.0 - b.0,
            dy == c.1 - b.1,
    ;
    lemma_fundamental_div_mod_converse(r, 5, dx + 2, dy + 2);
    if r == 12 {
        assert(dx == 0 && dy == 0);
        assert(c.0 == b.0 && c.1 == b.1);
        assert(c == b) by {
            assert(c == Coordinate(c.0, c.1));
            assert(b == Coordinate(b.0, b.1));
        }
    }
}

/// An accumulated error capped at the saturation ceiling.
pub open spec fn capped_error(e: int) -> int {
    if e > ERROR_CEIL {
        ERROR_CEIL as int
    } else {
        e
    }
}

/// The error of a neighbour after one distribution step at Manhattan
/// distance `man`: grown by its own error scaled by the distribution factor
/// over the distance, saturating at the ceiling.
pub open spec fn distributed_error(e: int, fd: int, man: int) -> int {
    capped_error(e + (e * fd) / (SCALE * man))
}

/// Computes one error-distribution step.
fn distribute_one(e: i64, fd: i64, man: i64) -> (r: i64)
    requires
        0 <= e <= ERROR_CEIL,
        0 < fd < SCALE,
        1 <= man <= 4,
    ensures
        r == distributed_error(e as int, fd as int, man as int),
        0 <= r <= ERROR_CEIL,
{
    let denom: i64 = SCALE * man;
    proof {
        assert(0 <= e * fd <= ERROR_CEIL * SCALE) by (nonlinear_arith)
            requires
                0 <= e <= ERROR_CEIL,
                0 <= fd <= SCALE,
        ;
        assert(e * fd <= e * denom) by (nonlinear_arith)
            requires
                0 <= e,
                fd <= denom,
        ;
        lemma_div_is_ordered(e * fd, e * denom, denom as int);
        lemma_div_multiples_vanish(e as int, denom as int);
        assert(e * denom == denom * e) by (nonlinear_arith);
        assert((e * fd) / (denom as int) <= e);
    }
    let q: u128 = ((e as u128) * (fd as u128)) / (denom as u128);
    let delta: i64 = q as i64;
    let sum = e + delta;
    if sum > ERROR_CEIL {
        ERROR_CEIL
    } else {
        sum
    }
}

/// Holds when `a` is `b` with its error replaced by `e`.
pub open spec fn same_but_error(a: Node, b: Node, e: int) -> bool {
    &&& a.coordinate == b.coordinate
    &&& a.weights == b.weights
    &&& a.error == e
    &&& a.total_hits == b.total_hits
    &&& a.last_hits == b.last_hits
    &&& a.storage == b.storage
}

/// Holds when `a` is `b` with its weights replaced by `w`.
pub open spec fn same_but_weights(a: Node, b: Node, w: Seq<i64>) -> bool {
    &&& a.coordinate == b.coordinate
    &&& a.weights@ == w
    &&& a.error == b.error
    &&& a.total_hits == b.total_hits
    &&& a.last_hits == b.last_hits
    &&& a.storage == b.storage
}

/// Holds when `a` is `b` after the best matching unit's bookkeeping of one
/// training step: the quantisation error added (saturating), and, for a new
/// input, a hit recorded at `time`.
pub open spec fn bumped_node(a: Node, b: Node, dist: int, is_new: bool, time: usize, memory: nat) -> bool {
    &&& a.coordinate == b.coordinate
    &&& a.weights == b.weights
    &&& a.error == capped_error(b.error + dist)
    &&& a.storage == b.storage
    &&& if is_new {
        a.total_hits == (if b.total_hits == u64::MAX {
            u64::MAX as int
        } else {
            b.total_hits + 1
        }) && a.last_hits@ == spec_hits_after(b.last_hits@, time, memory)
    } else {
        a.total_hits == b.total_hits && a.last_hits == b.last_hits
    }
}

/// The cardinal side of `c` one step along `(dx, dy)` is representable and
/// free of a node.
pub open spec fn free_dir(m: Map<u128, Node>, c: Coordinate, dx: int, dy: int) -> bool {
    match coordinate_step(c, dx, dy) {
        Some(cc) => !m.dom().contains(key_of(cc)),
        None => false,
    }
}

/// A node of a well-formed map is a boundary node when one of its four
/// cardinal sides is free.
pub open spec fn boundary_spec(m: Map<u128, Node>, c: Coordinate) -> bool {
    ||| free_dir(m, c, -1, 0)
    ||| free_dir(m, c, 1, 0)
    ||| free_dir(m, c, 0, -1)
    ||| free_dir(m, c, 0, 1)
}

impl Network {
    /// Tests one cardinal side for a missing neighbour.
    fn dir_is_free(&self, c: Coordinate, dx: i64, dy: i64) -> (r: bool)
        requires
            -1 <= dx <= 1,
            -1 <= dy <= 1,
        ensures
            r == free_dir(self.nodes(), c, dx as int, dy as int),
    {
        match coordinate_offset(c, dx, dy) {
            Some(cc) => {
                let found = self.index.get(coordinate_key(cc));
                found.is_none()
            },
            None => false,
        }
    }

    /// Whether the node at `c` sits on the boundary of the topology.
    fn is_boundary(&self, c: Coordinate) -> (r: bool)
        ensures
            r == boundary_spec(self.nodes(), c),
    {
        self.dir_is_free(c, -1, 0) || self.dir_is_free(c, 1, 0) || self.dir_is_free(c, 0, -1)
            || self.dir_is_free(c, 0, 1)
    }

    /// Adds the quantisation error of one training step to the node and, for
    /// a new input, records a hit at the current time.
    fn bump_error_and_hit(&mut self, key: u128, dist: i64, is_new: bool)
        requires
            old(self).wf(),
            old(self).nodes().dom().contains(key),
            0 <= dist <= 144115188075855872,
        ensures
            final(self).wf(),
            final(self).nodes().dom() == old(self).nodes().dom(),
            forall|k: u128|
                old(self).nodes().dom().contains(k) ==> #[trigger] final(self).nodes()[k] == (
                if k == key {
                    final(self).nodes()[key]
                } else {
                    old(self).nodes()[k]
                }),
            bumped_node(
                final(self).nodes()[key],
                old(self).nodes()[key],
                dist as int,
                is_new,
                old(self).time,
                old(self).rebalance_memory as nat,
            ),
            *final(self) == (Network { index: final(self).index, ..*old(self) }),
    {
        let node = self.index.get(key);
        match node {
            Some(mut node) => {
                let sum = node.error + dist;
                node.error = if sum > ERROR_CEIL {
                    ERROR_CEIL
                } else {
                    sum
                };
                if is_new {
                    let t = self.time;
                    let memory = self.rebalance_memory;
                    node.new_hit(t, memory);
                }
                self.index.insert(key, node);
                proof {
                    assert(final(self).nodes().dom() =~= old(self).nodes().dom());
                    assert(self.wf());
                }
            },
            None => {
                proof {
                    assert(false);
                }
            },
        }
    }

    /// Distributes the excess error of an interior node: the node's own
    /// error drops to half the growing threshold, and every neighbour within
    /// Chebyshev radius two grows by its own error scaled by the
    /// distribution factor over the Manhattan distance of its offset.
    fn distribute_error(&mut self, key: u128)
        requires
            old(self).wf(),
            old(self).nodes().dom().contains(key),
        ensures
            final(self).wf(),
            final(self).nodes().dom() == old(self).nodes().dom(),
            forall|k: u128|
                old(self).nodes().dom().contains(k) ==> #[trigger] same_but_error(
                    final(self).nodes()[k],
                    old(self).nodes()[k],
                    distribution_target(
                        old(self).nodes()[k],
                        old(self).nodes()[key].coordinate,
                        old(self).distribution_factor as int,
                        old(self).growing_threshold as int,
                    ),
                ),
            *final(self) == (Network { index: final(self).index, ..*old(self) }),
    {
        let ghost pre = *self;
        let ghost b = pre.nodes()[key].coordinate;
        let ghost fd_g = pre.distribution_factor as int;
        let ghost gt_g = pre.growing_threshold as int;
        let bmu = self.index.get(key);
        match bmu {
            Some(mut bmu) => {
                let bc = bmu.coordinate;
                bmu.error = div_nonneg(self.growing_threshold, 2);
                self.index.insert(key, bmu);
                proof {
                    assert(self.nodes().dom() =~= pre.nodes().dom());
                    assert forall|k: u128| pre.nodes().dom().contains(k) implies #[trigger] same_but_error(
                        self.nodes()[k],
                        pre.nodes()[k],
                        distribution_partial(pre.nodes()[k], b, fd_g, gt_g, 0),
                    ) by {
                        if k != key {
                            assert(self.nodes()[k] == pre.nodes()[k]);
                            if pre.nodes()[k].coordinate == b {
                                lemma_keys_distinct(pre.nodes()[k].coordinate, b);
                            }
                        }
                    }
                }
                let mut r: usize = 0;
                while r < 25
                    invariant
                        0 <= r <= 25,
                        pre.wf(),
                        pre.nodes().dom().contains(key),
                        b == pre.nodes()[key].coordinate,
                        bc == b,
                        fd_g == pre.distribution_factor as int,
                        gt_g == pre.growing_threshold as int,
                        self.wf(),
                        self.nodes().dom() == pre.nodes().dom(),
                        *self == (Network { index: self.index, ..pre }),
                        forall|k: u128|
                            pre.nodes().dom().contains(k) ==> #[trigger] same_but_error(
                                self.nodes()[k],
                                pre.nodes()[k],
                                distribution_partial(pre.nodes()[k], b, fd_g, gt_g, r as int),
                            ),
                    decreases 25 - r,
                {
                    let ghost head = *self;
                    if r != 12 {
                        let dx: i64 = (r as i64) / 5 - 2;
                        let dy: i64 = (r as i64) % 5 - 2;
                        proof {
                            assert(dx == rank_dx(r as int) && dy == rank_dy(r as int));
                            vstd::arithmetic::div_mod::lemma_fundamental_div_mod(r as int, 5);
                            assert((dx + 2) * 5 + (dy + 2) == r as int) by (nonlinear_arith)
                                requires
                                    dx == r as int / 5 - 2,
                                    dy == r as int % 5 - 2,
                                    5 * (r as int / 5) + r as int % 5 == r as int,
                            ;
                            assert(-2 <= dx <= 2 && -2 <= dy <= 2) by {
                                assert(0 <= r as int % 5 < 5);
                                assert(0 <= r as int / 5 < 5) by (nonlinear_arith)
                                    requires
                                        5 * (r as int / 5) + r as int % 5 == r as int,
                                        0 <= r as int % 5 < 5,
                                        0 <= r as int,
                                        (r as int) < 25,
                                ;
                            }
                            assert(!(dx == 0 && dy == 0));
                        }
                        let target = coordinate_offset(bc, dx, dy);
                        match target {
                            Some(cc) => {
                                proof {
                                    assert(cc.0 == b.0 + dx && cc.1 == b.1 + dy);
                                    assert(in_patch(b, cc));
                                    assert(patch_rank(b, cc) == (cc.0 - b.0 + 2) * 5 + (cc.1 - b.1
                                        + 2));
                                    assert(patch_rank(b, cc) == r as int) by (nonlinear_arith)
                                        requires
                                            patch_rank(b, cc) == (cc.0 - b.0 + 2) * 5 + (cc.1 - b.1
                                                + 2),
                                            cc.0 == b.0 + dx,
                                            cc.1 == b.1 + dy,
                                            (dx + 2) * 5 + (dy + 2) == r as int,
                                    ;
                                    assert(cc != b) by {
                                        if cc == b {
                                            lemma_patch_rank(b, cc);
                                        }
                                    }
                                    lemma_keys_distinct(cc, b);
                                }
                                let ck = coordinate_key(cc);
                                let neighbour = self.index.get(ck);
                                match neighbour {
                                    Some(mut neighbour) => {
                                        proof {
                                            assert(pre.nodes().dom().contains(ck));
                                            lemma_key_of_injective(pre.nodes()[ck].coordinate, cc);
                                            assert(pre.nodes()[ck].coordinate == cc);
                                            assert(same_but_error(
                                                head.nodes()[ck],
                                                pre.nodes()[ck],
                                                distribution_partial(
                                                    pre.nodes()[ck],
                                                    b,
                                                    fd_g,
                                                    gt_g,
                                                    r as int,
                                                ),
                                            ));
                                            assert(distribution_partial(
                                                pre.nodes()[ck],
                                                b,
                                                fd_g,
                                                gt_g,
                                                r as int,
                                            ) == pre.nodes()[ck].error as int);
                                            assert(neighbour == head.nodes()[ck]);
                                            assert(neighbour.error == pre.nodes()[ck].error);
                                            assert(0 <= neighbour.error <= ERROR_CEIL);
                                        }
                                        let man: i64 = (if dx >= 0 {
                                            dx
                                        } else {
                                            -dx
                                        }) + (if dy >= 0 {
                                            dy
                                        } else {
                                            -dy
                                        });
                                        proof {
                                            assert(man == manhattan(b, cc));
                                            assert(1 <= man <= 4);
                                        }
                                        let fd = self.distribution_factor;
                                        neighbour.error = distribute_one(neighbour.error, fd, man);
                                        self.index.insert(ck, neighbour);
                                        proof {
                                            assert(self.nodes().dom() =~= pre.nodes().dom());
                                            assert(same_but_error(
                                                self.nodes()[ck],
                                                pre.nodes()[ck],
                                                distributed_error(
                                                    pre.nodes()[ck].error as int,
                                                    fd_g,
                                                    manhattan(b, cc),
                                                ),
                                            ));
                                            assert forall|k: u128|
                                                pre.nodes().dom().contains(k) && k
                                                != ck implies #[trigger] same_but_error(
                                                self.nodes()[k],
                                                pre.nodes()[k],
                                                distribution_partial(
                                                    pre.nodes()[k],
                                                    b,
                                                    fd_g,
                                                    gt_g,
                                                    r as int,
                                                ),
                                            ) by {
                                                assert(self.nodes()[k] == head.nodes()[k]);
                                                assert(same_but_error(
                                                    head.nodes()[k],
                                                    pre.nodes()[k],
                                                    distribution_partial(
                                                        pre.nodes()[k],
                                                        b,
                                                        fd_g,
                                                        gt_g,
                                                        r as int,
                                                    ),
                                                ));
                                            }
                                            lemma_distribution_advance_changed(
                                                self.nodes(),
                                                pre.nodes(),
                                                b,
                                                fd_g,
                                                gt_g,
                                                r as int,
                                                cc,
                                            );
                                        }
                                    },
                                    None => {
                                        proof {
                                            assert forall|k: u128|
                                                pre.nodes().dom().contains(k) implies !(
                                            (#[trigger] pre.nodes()[k]).coordinate != b && in_patch(
                                                b,
                                                pre.nodes()[k].coordinate,
                                            ) && patch_rank(b, pre.nodes()[k].coordinate)
                                                == r as int) by {
                                                let c = pre.nodes()[k].coordinate;
                                                if c != b && in_patch(b, c) && patch_rank(b, c)
                                                    == r as int {
                                                    lemma_patch_rank(b, c);
                                                    lemma_patch_rank(b, cc);
                                                    assert(c.0 == cc.0 && c.1 == cc.1);
                                                    assert(c == Coordinate(c.0, c.1));
                                                    assert(cc == Coordinate(cc.0, cc.1));
                                                    assert(k == key_of(cc));
                                                    assert(false);
                                                }
                                            }
                                            lemma_distribution_advance_unchanged(
                                                self.nodes(),
                                                pre.nodes(),
                                                b,
                                                fd_g,
                                                gt_g,
                                                r as int,
                                            );
                                        }
                                    },
                                }
                            },
                            None => {
                                proof {
                                    assert forall|k: u128|
                                        pre.nodes().dom().contains(k) implies !((
                                    #[trigger] pre.nodes()[k]).coordinate != b && in_patch(
                                        b,
                                        pre.nodes()[k].coordinate,
                                    ) && patch_rank(b, pre.nodes()[k].coordinate) == r as int) by {
                                        let c = pre.nodes()[k].coordinate;
                                        if c != b && in_patch(b, c) && patch_rank(b, c)
                                            == r as int {
                                            lemma_patch_rank(b, c);
                                            assert(c == Coordinate(c.0, c.1));
                                            assert(coordinate_step(b, dx as int, dy as int)
                                                == Some(c));
                                            assert(false);
                                        }
                                    }
                                    lemma_distribution_advance_unchanged(
                                        self.nodes(),
                                        pre.nodes(),
                                        b,
                                        fd_g,
                                        gt_g,
                                        r as int,
                                    );
                                }
                            },
                        }
                    } else {
                        proof {
                            assert forall|k: u128|
                                pre.nodes().dom().contains(k) implies !((
                            #[trigger] pre.nodes()[k]).coordinate != b && in_patch(
                                b,
                                pre.nodes()[k].coordinate,
                            ) && patch_rank(b, pre.nodes()[k].coordinate) == r as int) by {
                                let c = pre.nodes()[k].coordinate;
                                if c != b && in_patch(b, c) && patch_rank(b, c) == r as int {
                                    lemma_patch_rank(b, c);
                                }
                            }
                            lemma_distribution_advance_unchanged(
                                self.nodes(),
                                pre.nodes(),
                                b,
                                fd_g,
                                gt_g,
                                r as int,
                            );
                        }
                    }
                    r = r + 1;
                }
                proof {
                    assert forall|k: u128| pre.nodes().dom().contains(k) implies #[trigger] same_but_error(
                        self.nodes()[k],
                        pre.nodes()[k],
                        distribution_target(pre.nodes()[k], b, fd_g, gt_g),
                    ) by {
                        let c = pre.nodes()[k].coordinate;
                        assert(same_but_error(
                            self.nodes()[k],
                            pre.nodes()[k],
                            distribution_partial(pre.nodes()[k], b, fd_g, gt_g, 25),
                        ));
                        if c != b && in_patch(b, c) {
                            lemma_patch_rank(b, c);
                        }
                    }
                }
            },
            None => {
                proof {
                    assert(false);
                }
            },
        }
    }
}

/// Advances the distribution sweep by one rank at which no node changed.
proof fn lemma_distribution_advance_unchanged(
    cur: Map<u128, Node>,
    pre_map: Map<u128, Node>,
    b: Coordinate,
    fd: int,
    gt: int,
    r: int,
)
    requires
        forall|k: u128|
            pre_map.dom().contains(k) ==> #[trigger] same_but_error(
                cur[k],
                pre_map[k],
                distribution_partial(pre_map[k], b, fd, gt, r),
            ),
        forall|k: u128|
            pre_map.dom().contains(k) ==> !((#[trigger] pre_map[k]).coordinate != b && in_patch(
                b,
                pre_map[k].coordinate,
            ) && patch_rank(b, pre_map[k].coordinate) == r),
    ensures
        forall|k: u128|
            pre_map.dom().contains(k) ==> #[trigger] same_but_error(
                cur[k],
                pre_map[k],
                distribution_partial(pre_map[k], b, fd, gt, r + 1),
            ),
{
    assert forall|k: u128| pre_map.dom().contains(k) implies #[trigger] same_but_error(
        cur[k],
        pre_map[k],
        distribution_partial(pre_map[k], b, fd, gt, r + 1),
    ) by {
        assert(same_but_error(cur[k], pre_map[k], distribution_partial(pre_map[k], b, fd, gt, r)));
        assert(distribution_partial(pre_map[k], b, fd, gt, r + 1) == distribution_partial(
            pre_map[k],
            b,
            fd,
            gt,
            r,
        ));
    }
}

/// Advances the distribution sweep by one rank whose node took one
/// error-distribution step.
proof fn lemma_distribution_advance_changed(
    cur: Map<u128, Node>,
    pre_map: Map<u128, Node>,
    b: Coordinate,
    fd: int,
    gt: int,
    r: int,
    cc: Coordinate,
)
    requires
        forall|k: u128|
            pre_map.dom().contains(k) ==> key_of((#[trigger] pre_map[k]).coordinate) == k,
        in_patch(b, cc),
        patch_rank(b, cc) == r,
        cc != b,
        pre_map.dom().contains(key_of(cc)),
        pre_map[key_of(cc)].coordinate == cc,
        same_but_error(
            cur[key_of(cc)],
            pre_map[key_of(cc)],
            distributed_error(pre_map[key_of(cc)].error as int, fd, manhattan(b, cc)),
        ),
        forall|k: u128|
            pre_map.dom().contains(k) && k != key_of(cc) ==> #[trigger] same_but_error(
                cur[k],
                pre_map[k],
                distribution_partial(pre_map[k], b, fd, gt, r),
            ),
    ensures
        forall|k: u128|
            pre_map.dom().contains(k) ==> #[trigger] same_but_error(
                cur[k],
                pre_map[k],
                distribution_partial(pre_map[k], b, fd, gt, r + 1),
            ),
{
    assert forall|k: u128| pre_map.dom().contains(k) implies #[trigger] same_but_error(
        cur[k],
        pre_map[k],
        distribution_partial(pre_map[k], b, fd, gt, r + 1),
    ) by {
        let c = pre_map[k].coordinate;
        if k == key_of(cc) {
            assert(c == cc);
            assert(distribution_partial(pre_map[k], b, fd, gt, r + 1) == distributed_error(
                pre_map[k].error as int,
                fd,
                manhattan(b, c),
            ));
        } else {
            assert(same_but_error(
                cur[k],
                pre_map[k],
                distribution_partial(pre_map[k], b, fd, gt, r),
            ));
            if c != b && in_patch(b, c) && patch_rank(b, c) == r {
                lemma_patch_rank(b, c);
                lemma_patch_rank(b, cc);
                assert(c.0 - b.0 == rank_dx(r) && c.1 - b.1 == rank_dy(r));
                assert(cc.0 - b.0 == rank_dx(r) && cc.1 - b.1 == rank_dy(r));
                assert(c == Coordinate(c.0, c.1));
                assert(cc == Coordinate(cc.0, cc.1));
                assert(c == cc);
                assert(false);
            }
            assert(distribution_partial(pre_map[k], b, fd, gt, r + 1) == distribution_partial(
                pre_map[k],
                b,
                fd,
                gt,
                r,
            ));
        }
    }
}

/// The error a node ends with once the distribution sweep centred at `b`
/// has processed the patch ranks below `r`.
pub open spec fn distribution_partial(n: Node, b: Coordinate, fd: int, gt: int, r: int) -> int {
    if n.coordinate == b {
        gt / 2
    } else if in_patch(b, n.coordinate) && patch_rank(b, n.coordinate) < r {
        distributed_error(n.error as int, fd, manhattan(b, n.coordinate))
    } else {
        n.error as int
    }
}

/// The error a node ends with after one error-distribution step centred at
/// `b`: half the growing threshold for the centre itself, a distributed
/// error for patch neighbours, and its own error elsewhere.
pub open spec fn distribution_target(n: Node, b: Coordinate, fd: int, gt: int) -> int {
    if n.coordinate == b {
        gt / 2
    } else if in_patch(b, n.coordinate) {
        distributed_error(n.error as int, fd, manhattan(b, n.coordinate))
    } else {
        n.error as int
    }
}

/// The learning rate effective at a map of `n` nodes: the initial rate
/// scaled by `(10 n - 38) / (10 n)`.
pub open spec fn effective_rate(lr: int, n: int) -> int {
    (lr * (10 * n - 38)) / (10 * n)
}

/// Computes the effective learning rate.
fn compute_rate(lr: i64, n: usize) -> (r: i64)
    requires
        0 <= lr <= SCALE,
        n >= 4,
    ensures
        r == effective_rate(lr as int, n as int),
        0 <= r <= SCALE,
{
    proof {
        assert(0 <= lr * (10 * (n as int) - 38) <= 1000 * (10 * (n as int))) by (nonlinear_arith)
            requires
                0 <= lr <= 1000,
                n >= 4,
        ;
    }
    let num: u128 = (lr as u128) * (10 * (n as u128) - 38);
    let den: u128 = 10 * (n as u128);
    proof {
        let nn = 10 * (n as int) - 38;
        let dd = 10 * (n as int);
        assert(0 <= lr * nn <= lr * dd) by (nonlinear_arith)
            requires
                0 <= lr,
                0 < nn <= dd,
        ;
        lemma_div_is_ordered(lr * nn, lr * dd, dd);
        lemma_div_multiples_vanish(lr as int, dd);
        assert(lr * dd == dd * lr) by (nonlinear_arith);
        assert(0 <= (lr * nn) / dd <= lr);
        vstd::arithmetic::div_mod::lemma_div_pos_is_pos(lr * nn, dd);
    }
    (num / den) as i64
}

/// One weight moved toward the matching input component by the per-mille
/// rate `eta`, with machine truncation.
pub open spec fn adjusted_weight(w: i64, v: i64, eta: int) -> int {
    w + div_trunc(eta * (v - w), SCALE as int)
}

/// A whole weight vector moved toward the input by `eta`.
pub open spec fn adjusted_vec(w: Seq<i64>, v: Seq<i64>, eta: int) -> Seq<i64> {
    Seq::new(w.len(), |i: int| adjusted_weight(w[i], v[i], eta) as i64)
}

/// Moves one weight toward the input component.
fn adjust_one(w: i64, v: i64, eta: i64) -> (r: i64)
    requires
        -WEIGHT_LIMIT <= w <= WEIGHT_LIMIT,
        -WEIGHT_LIMIT <= v <= WEIGHT_LIMIT,
        0 <= eta <= SCALE,
    ensures
        r == adjusted_weight(w, v, eta as int),
        -WEIGHT_LIMIT <= r <= WEIGHT_LIMIT,
{
    if v >= w {
        let delta = v - w;
        proof {
            assert(0 <= eta * delta <= SCALE * delta) by (nonlinear_arith)
                requires
                    0 <= eta <= SCALE,
                    0 <= delta,
            ;
            lemma_div_is_ordered(eta * delta, SCALE * delta, SCALE as int);
            lemma_div_multiples_vanish(delta as int, SCALE as int);
            assert(SCALE * delta == SCALE * delta);
            assert((eta * delta) / (SCALE as int) <= delta);
            vstd::arithmetic::div_mod::lemma_div_pos_is_pos(eta * delta, SCALE as int);
        }
        let q: i64 = (((eta as u64) * (delta as u64)) / 1000) as i64;
        w + q
    } else {
        let delta = w - v;
        proof {
            assert(0 <= eta * delta <= SCALE * delta) by (nonlinear_arith)
                requires
                    0 <= eta <= SCALE,
                    0 <= delta,
            ;
            lemma_div_is_ordered(eta * delta, SCALE * delta, SCALE as int);
            lemma_div_multiples_vanish(delta as int, SCALE as int);
            assert((eta * delta) / (SCALE as int) <= delta);
            vstd::arithmetic::div_mod::lemma_div_pos_is_pos(eta * delta, SCALE as int);
            assert(eta * (v - w) == -(eta * delta)) by (nonlinear_arith)
                requires
                    delta == w - v,
            ;
        }
        let q: i64 = (((eta as u64) * (delta as u64)) / 1000) as i64;
        w - q
    }
}

/// Moves a weight vector toward the input vector by `eta`.
fn adjust_vec(w: &mut Vec<i64>, v: &Vec<i64>, eta: i64)
    requires
        old(w)@.len() == v@.len(),
        weights_in_range(old(w)@),
        weights_in_range(v@),
        0 <= eta <= SCALE,
    ensures
        final(w)@ == adjusted_vec(old(w)@, v@, eta as int),
        weights_in_range(final(w)@),
        final(w)@.len() == old(w)@.len(),
{
    let mut i: usize = 0;
    while i < v.len()
        invariant
            0 <= i <= v@.len(),
            old(w)@.len() == v@.len(),
            w@.len() == v@.len(),
            weights_in_range(old(w)@),
            weights_in_range(v@),
            0 <= eta <= SCALE,
            weights_in_range(w@),
            forall|j: int|
                0 <= j < v@.len() ==> #[trigger] w@[j] == (if j < i {
                    adjusted_vec(old(w)@, v@, eta as int)[j]
                } else {
                    old(w)@[j]
                }),
        decreases v@.len() - i,
    {
        let ghost prev = w@;
        let nw = adjust_one(w[i], v[i], eta);
        w.set(i, nw);
        proof {
            assert forall|j: int| 0 <= j < v@.len() implies #[trigger] w@[j] == (if j <= i {
                adjusted_vec(old(w)@, v@, eta as int)[j]
            } else {
                old(w)@[j]
            }) by {
                if j != i {
                    assert(w@[j] == prev[j]);
                }
            }
        }
        i = i + 1;
    }
    proof {
        assert(w@ =~= adjusted_vec(old(w)@, v@, eta as int));
    }
}

/// The weights a node ends with once the adjustment sweep centred at `b`
/// has processed the patch ranks below `r`.
pub open spec fn adjustment_partial(n: Node, b: Coordinate, v: Seq<i64>, eta: int, r: int) -> Seq<
    i64,
> {
    if n.coordinate == b {
        adjusted_vec(n.weights@, v, eta)
    } else if in_patch(b, n.coordinate) && patch_rank(b, n.coordinate) < r {
        adjusted_vec(n.weights@, v, eta)
    } else {
        n.weights@
    }
}

/// The weights a node ends with after one adjustment step centred at `b`:
/// every node of the patch, the centre included, moves toward the input.
pub open spec fn adjustment_target(n: Node, b: Coordinate, v: Seq<i64>, eta: int) -> Seq<i64> {
    if in_patch(b, n.coordinate) {
        adjusted_vec(n.weights@, v, eta)
    } else {
        n.weights@
    }
}

/// Advances the adjustment sweep by one rank at which no node changed.
proof fn lemma_adjustment_advance_unchanged(
    cur: Map<u128, Node>,
    pre_map: Map<u128, Node>,
    b: Coordinate,
    v: Seq<i64>,
    eta: int,
    r: int,
)
    requires
        forall|k: u128|
            pre_map.dom().contains(k) ==> #[trigger] same_but_weights(
                cur[k],
                pre_map[k],
                adjustment_partial(pre_map[k], b, v, eta, r),
            ),
        forall|k: u128|
            pre_map.dom().contains(k) ==> !((#[trigger] pre_map[k]).coordinate != b && in_patch(
                b,
                pre_map[k].coordinate,
            ) && patch_rank(b, pre_map[k].coordinate) == r),
    ensures
        forall|k: u128|
            pre_map.dom().contains(k) ==> #[trigger] same_but_weights(
                cur[k],
                pre_map[k],
                adjustment_partial(pre_map[k], b, v, eta, r + 1),
            ),
{
    assert forall|k: u128| pre_map.dom().contains(k) implies #[trigger] same_but_weights(
        cur[k],
        pre_map[k],
        adjustment_partial(pre_map[k], b, v, eta, r + 1),
    ) by {
        assert(same_but_weights(cur[k], pre_map[k], adjustment_partial(pre_map[k], b, v, eta, r)));
        assert(adjustment_partial(pre_map[k], b, v, eta, r + 1) == adjustment_partial(
            pre_map[k],
            b,
            v,
            eta,
            r,
        ));
    }
}

/// Advances the adjustment sweep by one rank whose node moved toward the
/// input.
proof fn lemma_adjustment_advance_changed(
    cur: Map<u128, Node>,
    pre_map: Map<u128, Node>,
    b: Coordinate,
    v: Seq<i64>,
    eta: int,
    r: int,
    cc: Coordinate,
)
    requires
        forall|k: u128|
            pre_map.dom().contains(k) ==> key_of((#[trigger] pre_map[k]).coordinate) == k,
        in_patch(b, cc),
        patch_rank(b, cc) == r,
        cc != b,
        pre_map.dom().contains(key_of(cc)),
        pre_map[key_of(cc)].coordinate == cc,
        same_but_weights(
            cur[key_of(cc)],
            pre_map[key_of(cc)],
            adjusted_vec(pre_map[key_of(cc)].weights@, v, eta),
        ),
        forall|k: u128|
            pre_map.dom().contains(k) && k != key_of(cc) ==> #[trigger] same_but_weights(
                cur[k],
                pre_map[k],
                adjustment_partial(pre_map[k], b, v, eta, r),
            ),
    ensures
        forall|k: u128|
            pre_map.dom().contains(k) ==> #[trigger] same_but_weights(
                cur[k],
                pre_map[k],
                adjustment_partial(pre_map[k], b, v, eta, r + 1),
            ),
{
    assert forall|k: u128| pre_map.dom().contains(k) implies #[trigger] same_but_weights(
        cur[k],
        pre_map[k],
        adjustment_partial(pre_map[k], b, v, eta, r + 1),
    ) by {
        let c = pre_map[k].coordinate;
        if k == key_of(cc) {
            assert(c == cc);
            assert(adjustment_partial(pre_map[k], b, v, eta, r + 1) == adjusted_vec(
                pre_map[k].weights@,
                v,
                eta,
            ));
        } else {
            assert(same_but_weights(
                cur[k],
                pre_map[k],
                adjustment_partial(pre_map[k], b, v, eta, r),
            ));
            if c != b && in_patch(b, c) && patch_rank(b, c) == r {
                lemma_patch_rank(b, c);
                lemma_patch_rank(b, cc);
                assert(c == Coordinate(c.0, c.1));
                assert(cc == Coordinate(cc.0, cc.1));
                assert(c == cc);
                assert(false);
            }
            assert(adjustment_partial(pre_map[k], b, v, eta, r + 1) == adjustment_partial(
                pre_map[k],
                b,
                v,
                eta,
                r,
            ));
        }
    }
}


impl Network {
    /// Moves the weights of a node and of every neighbour within Chebyshev
    /// radius two toward the input, by the learning rate effective at the
    /// map's current size.
    fn adjust_weights(&mut self, key: u128, v: &Vec<i64>)
        requires
            old(self).wf(),
            old(self).nodes().dom().contains(key),
            v@.len() == old(self).dimension,
            weights_in_range(v@),
        ensures
            final(self).wf(),
            final(self).nodes().dom() == old(self).nodes().dom(),
            forall|k: u128|
                old(self).nodes().dom().contains(k) ==> #[trigger] same_but_weights(
                    final(self).nodes()[k],
                    old(self).nodes()[k],
                    adjustment_target(
                        old(self).nodes()[k],
                        old(self).nodes()[key].coordinate,
                        v@,
                        effective_rate(
                            old(self).learning_rate as int,
                            old(self).order@.len() as int,
                        ),
                    ),
                ),
            *final(self) == (Network { index: final(self).index, ..*old(self) }),
    {
        let ghost pre = *self;
        let ghost b = pre.nodes()[key].coordinate;
        let n = self.order.len();
        let eta = compute_rate(self.learning_rate, n);
        let ghost eta_g = effective_rate(pre.learning_rate as int, pre.order@.len() as int);
        let bmu = self.index.get(key);
        match bmu {
            Some(mut bmu) => {
                let bc = bmu.coordinate;
                adjust_vec(&mut bmu.weights, v, eta);
                self.index.insert(key, bmu);
                proof {
                    assert(self.nodes().dom() =~= pre.nodes().dom());
                    assert forall|k: u128| pre.nodes().dom().contains(k) implies #[trigger] same_but_weights(
                        self.nodes()[k],
                        pre.nodes()[k],
                        adjustment_partial(pre.nodes()[k], b, v@, eta_g, 0),
                    ) by {
                        if k != key {
                            assert(self.nodes()[k] == pre.nodes()[k]);
                            if pre.nodes()[k].coordinate == b {
                                lemma_keys_distinct(pre.nodes()[k].coordinate, b);
                            }
                        }
                    }
                }
                let mut r: usize = 0;
                while r < 25
                    invariant
                        0 <= r <= 25,
                        pre.wf(),
                        pre.nodes().dom().contains(key),
                        b == pre.nodes()[key].coordinate,
                        bc == b,
                        v@.len() == pre.dimension,
                        weights_in_range(v@),
                        0 <= eta <= SCALE,
                        eta == eta_g,
                        self.wf(),
                        self.nodes().dom() == pre.nodes().dom(),
                        *self == (Network { index: self.index, ..pre }),
                        forall|k: u128|
                            pre.nodes().dom().contains(k) ==> #[trigger] same_but_weights(
                                self.nodes()[k],
                                pre.nodes()[k],
                                adjustment_partial(pre.nodes()[k], b, v@, eta_g, r as int),
                            ),
                    decreases 25 - r,
                {
                    let ghost head = *self;
                    if r != 12 {
                        let dx: i64 = (r as i64) / 5 - 2;
                        let dy: i64 = (r as i64) % 5 - 2;
                        proof {
                            assert(dx == rank_dx(r as int) && dy == rank_dy(r as int));
                            vstd::arithmetic::div_mod::lemma_fundamental_div_mod(r as int, 5);
                            assert((dx + 2) * 5 + (dy + 2) == r as int) by (nonlinear_arith)
                                requires
                                    dx == r as int / 5 - 2,
                                    dy == r as int % 5 - 2,
                                    5 * (r as int / 5) + r as int % 5 == r as int,
                            ;
                            assert(-2 <= dx <= 2 && -2 <= dy <= 2) by {
                                assert(0 <= r as int % 5 < 5);
                                assert(0 <= r as int / 5 < 5) by (nonlinear_arith)
                                    requires
                                        5 * (r as int / 5) + r as int % 5 == r as int,
                                        0 <= r as int % 5 < 5,
                                        0 <= r as int,
                                        (r as int) < 25,
                                ;
                            }
                            assert(!(dx == 0 && dy == 0));
                        }
                        let target = coordinate_offset(bc, dx, dy);
                        match target {
                            Some(cc) => {
                                proof {
                                    assert(cc.0 == b.0 + dx && cc.1 == b.1 + dy);
                                    assert(in_patch(b, cc));
                                    assert(patch_rank(b, cc) == (cc.0 - b.0 + 2) * 5 + (cc.1 - b.1
                                        + 2));
                                    assert(patch_rank(b, cc) == r as int) by (nonlinear_arith)
                                        requires
                                            patch_rank(b, cc) == (cc.0 - b.0 + 2) * 5 + (cc.1 - b.1
                                                + 2),
                                            cc.0 == b.0 + dx,
                                            cc.1 == b.1 + dy,
                                            (dx + 2) * 5 + (dy + 2) == r as int,
                                    ;
                                    assert(cc != b) by {
                                        if cc == b {
                                            lemma_patch_rank(b, cc);
                                        }
                                    }
                                    lemma_keys_distinct(cc, b);
                                }
                                let ck = coordinate_key(cc);
                                let neighbour = self.index.get(ck);
                                match neighbour {
                                    Some(mut neighbour) => {
                                        proof {
                                            assert(pre.nodes().dom().contains(ck));
                                            lemma_key_of_injective(pre.nodes()[ck].coordinate, cc);
                                            assert(pre.nodes()[ck].coordinate == cc);
                                            assert(same_but_weights(
                                                head.nodes()[ck],
                                                pre.nodes()[ck],
                                                adjustment_partial(
                                                    pre.nodes()[ck],
                                                    b,
                                                    v@,
                                                    eta_g,
                                                    r as int,
                                                ),
                                            ));
                                            assert(adjustment_partial(
                                                pre.nodes()[ck],
                                                b,
                                                v@,
                                                eta_g,
                                                r as int,
                                            ) == pre.nodes()[ck].weights@);
                                            assert(neighbour == head.nodes()[ck]);
                                            assert(neighbour.weights@ == pre.nodes()[ck].weights@);
                                        }
                                        adjust_vec(&mut neighbour.weights, v, eta);
                                        self.index.insert(ck, neighbour);
                                        proof {
                                            assert(self.nodes().dom() =~= pre.nodes().dom());
                                            assert(same_but_weights(
                                                self.nodes()[ck],
                                                pre.nodes()[ck],
                                                adjusted_vec(pre.nodes()[ck].weights@, v@, eta_g),
                                            ));
                                            assert forall|k: u128|
                                                pre.nodes().dom().contains(k) && k
                                                != ck implies #[trigger] same_but_weights(
                                                self.nodes()[k],
                                                pre.nodes()[k],
                                                adjustment_partial(
                                                    pre.nodes()[k],
                                                    b,
                                                    v@,
                                                    eta_g,
                                                    r as int,
                                                ),
                                            ) by {
                                                assert(self.nodes()[k] == head.nodes()[k]);
                                                assert(same_but_weights(
                                                    head.nodes()[k],
                                                    pre.nodes()[k],
                                                    adjustment_partial(
                                                        pre.nodes()[k],
                                                        b,
                                                        v@,
                                                        eta_g,
                                                        r as int,
                                                    ),
                                                ));
                                            }
                                            lemma_adjustment_advance_changed(
                                                self.nodes(),
                                                pre.nodes(),
                                                b,
                                                v@,
                                                eta_g,
                                                r as int,
                                                cc,
                                            );
                                        }
                                    },
                                    None => {
                                        proof {
                                            assert forall|k: u128|
                                                pre.nodes().dom().contains(k) implies !(
                                            (#[trigger] pre.nodes()[k]).coordinate != b && in_patch(
                                                b,
                                                pre.nodes()[k].coordinate,
                                            ) && patch_rank(b, pre.nodes()[k].coordinate)
                                                == r as int) by {
                                                let c = pre.nodes()[k].coordinate;
                                                if c != b && in_patch(b, c) && patch_rank(b, c)
                                                    == r as int {
                                                    lemma_patch_rank(b, c);
                                                    lemma_patch_rank(b, cc);
                                                    assert(c == Coordinate(c.0, c.1));
                                                    assert(cc == Coordinate(cc.0, cc.1));
                                                    assert(k == key_of(cc));
                                                    assert(false);
                                                }
                                            }
                                            lemma_adjustment_advance_unchanged(
                                                self.nodes(),
                                                pre.nodes(),
                                                b,
                                                v@,
                                                eta_g,
                                                r as int,
                                            );
                                        }
                                    },
                                }
                            },
                            None => {
                                proof {
                                    assert forall|k: u128|
                                        pre.nodes().dom().contains(k) implies !((
                                    #[trigger] pre.nodes()[k]).coordinate != b && in_patch(
                                        b,
                                        pre.nodes()[k].coordinate,
                                    ) && patch_rank(b, pre.nodes()[k].coordinate) == r as int) by {
                                        let c = pre.nodes()[k].coordinate;
                                        if c != b && in_patch(b, c) && patch_rank(b, c)
                                            == r as int {
                                            lemma_patch_rank(b, c);
                                            assert(c == Coordinate(c.0, c.1));
                                            assert(coordinate_step(b, dx as int, dy as int)
                                                == Some(c));
                                            assert(false);
                                        }
                                    }
                                    lemma_adjustment_advance_unchanged(
                                        self.nodes(),
                                        pre.nodes(),
                                        b,
                                        v@,
                                        eta_g,
                                        r as int,
                                    );
                                }
                            },
                        }
                    } else {
                        proof {
                            assert forall|k: u128|
                                pre.nodes().dom().contains(k) implies !((
                            #[trigger] pre.nodes()[k]).coordinate != b && in_patch(
                                b,
                                pre.nodes()[k].coordinate,
                            ) && patch_rank(b, pre.nodes()[k].coordinate) == r as int) by {
                                let c = pre.nodes()[k].coordinate;
                                if c != b && in_patch(b, c) && patch_rank(b, c) == r as int {
                                    lemma_patch_rank(b, c);
                                }
                            }
                            lemma_adjustment_advance_unchanged(
                                self.nodes(),
                                pre.nodes(),
                                b,
                                v@,
                                eta_g,
                                r as int,
                            );
                        }
                    }
                    r = r + 1;
                }
                proof {
                    assert forall|k: u128| pre.nodes().dom().contains(k) implies #[trigger] same_but_weights(
                        self.nodes()[k],
                        pre.nodes()[k],
                        adjustment_target(pre.nodes()[k], b, v@, eta_g),
                    ) by {
                        let c = pre.nodes()[k].coordinate;
                        assert(same_but_weights(
                            self.nodes()[k],
                            pre.nodes()[k],
                            adjustment_partial(pre.nodes()[k], b, v@, eta_g, 25),
                        ));
                        if c != b && in_patch(b, c) {
                            lemma_patch_rank(b, c);
                        }
                    }
                }
            },
            None => {
                proof {
                    assert(false);
                }
            },
        }
    }
}

/// Truncated division of a (possibly negative) value by a positive one.
fn div_trunc_i64(n: i64, d: i64) -> (r: i64)
    requires
        d > 0,
        n > i64::MIN,
    ensures
        r == div_trunc(n as int, d as int),
{
    if n >= 0 {
        div_nonneg(n, d)
    } else {
        let q = div_nonneg(-n, d);
        -q
    }
}

/// A truncated quotient of a value bounded by `cnt * w` stays within `w`.
proof fn lemma_avg_bound(n: int, cnt: int, w: int)
    requires
        cnt > 0,
        w >= 0,
        -(cnt * w) <= n <= cnt * w,
    ensures
        -w <= div_trunc(n, cnt) <= w,
{
    lemma_div_multiples_vanish(w, cnt);
    if n >= 0 {
        lemma_div_is_ordered(n, cnt * w, cnt);
        vstd::arithmetic::div_mod::lemma_div_pos_is_pos(n, cnt);
    } else {
        lemma_div_is_ordered(-n, cnt * w, cnt);
        vstd::arithmetic::div_mod::lemma_div_pos_is_pos(-n, cnt);
    }
}

/// The coordinate at patch rank `r` from centre `c`, where representable.
pub open spec fn rank_coord(c: Coordinate, r: int) -> Option<Coordinate> {
    coordinate_step(c, rank_dx(r), rank_dy(r))
}

/// A node is present at patch rank `r` from centre `c`.
pub open spec fn present_at(m: Map<u128, Node>, c: Coordinate, r: int) -> bool {
    match rank_coord(c, r) {
        Some(cc) => m.dom().contains(key_of(cc)),
        None => false,
    }
}

/// Patch rank `r` is a close neighbour: Manhattan offset below two.
pub open spec fn rank_is_close(r: int) -> bool {
    abs_int(rank_dx(r)) + abs_int(rank_dy(r)) < 2
}

/// The weight component `d` of the node at patch rank `r` from `c`.
pub open spec fn weight_at(m: Map<u128, Node>, c: Coordinate, r: int, d: int) -> int {
    m[key_of(rank_coord(c, r).unwrap())].weights@[d] as int
}

/// How many nodes are present at the patch ranks below `r`, on the close or
/// far side.
pub open spec fn side_count(m: Map<u128, Node>, c: Coordinate, r: int, close: bool) -> int
    decreases r,
{
    if r <= 0 {
        0
    } else {
        side_count(m, c, r - 1, close) + if r - 1 != 12 && present_at(m, c, r - 1) && rank_is_close(
            r - 1,
        ) == close {
            1int
        } else {
            0int
        }
    }
}

/// The sum of weight component `d` over the nodes present at the patch ranks
/// below `r`, on the close or far side.
pub open spec fn side_sum(m: Map<u128, Node>, c: Coordinate, r: int, d: int, close: bool) -> int
    decreases r,
{
    if r <= 0 {
        0
    } else {
        side_sum(m, c, r - 1, d, close) + if r - 1 != 12 && present_at(m, c, r - 1)
            && rank_is_close(r - 1) == close {
            weight_at(m, c, r - 1, d)
        } else {
            0int
        }
    }
}

/// Side counts lie within the patch size, and side sums within the count
/// times the weight range.
proof fn lemma_side_bounds(m: Map<u128, Node>, c: Coordinate, r: int, d: int, close: bool, dim: nat)
    requires
        0 <= r <= 25,
        forall|k: u128|
            m.dom().contains(k) ==> (#[trigger] m[k]).weights@.len() == dim && weights_in_range(
                m[k].weights@,
            ),
        0 <= d < dim,
    ensures
        0 <= side_count(m, c, r, close) <= r,
        -(side_count(m, c, r, close) * WEIGHT_LIMIT) <= side_sum(m, c, r, d, close) <= side_count(
            m,
            c,
            r,
            close,
        ) * WEIGHT_LIMIT,
    decreases r,
{
    if r > 0 {
        lemma_side_bounds(m, c, r - 1, d, close, dim);
        let cnt0 = side_count(m, c, r - 1, close);
        let cnt1 = side_count(m, c, r, close);
        assert(cnt0 * WEIGHT_LIMIT + WEIGHT_LIMIT == (cnt0 + 1) * WEIGHT_LIMIT) by (nonlinear_arith);
        assert(-(cnt0 * WEIGHT_LIMIT) - WEIGHT_LIMIT == -((cnt0 + 1) * WEIGHT_LIMIT))
            by (nonlinear_arith);
        if r - 1 != 12 && present_at(m, c, r - 1) && rank_is_close(r - 1) == close {
            let cc = rank_coord(c, r - 1).unwrap();
            assert(-WEIGHT_LIMIT <= weight_at(m, c, r - 1, d) <= WEIGHT_LIMIT) by {
                assert(m[key_of(cc)].weights@.len() == dim);
            }
        }
    }
}

/// The weight vector a grown node starts with, computed from the nodes of
/// the patch around its coordinate: with exactly one close neighbour and no
/// far one, the midpoint of the weight envelope; otherwise a linear
/// extrapolation of the close-side average away from the far-side average,
/// an absent side counting as the zero vector, clamped into the operating
/// range.
pub open spec fn grown_weights(
    m: Map<u128, Node>,
    c: Coordinate,
    dim: nat,
    env_min: Seq<i64>,
    env_max: Seq<i64>,
) -> Seq<i64> {
    let close_n = side_count(m, c, 25, true);
    let far_n = side_count(m, c, 25, false);
    if close_n == 1 && far_n == 0 {
        Seq::new(dim, |d: int| div_trunc(env_min[d] + env_max[d], 2) as i64)
    } else {
        Seq::new(
            dim,
            |d: int|
                {
                    let w1 = if close_n > 0 {
                        div_trunc(side_sum(m, c, 25, d, true), close_n)
                    } else {
                        0
                    };
                    let w2 = if far_n > 0 {
                        div_trunc(side_sum(m, c, 25, d, false), far_n)
                    } else {
                        0
                    };
                    clamp_weight(2 * w1 - w2) as i64
                },
        )
    }
}

/// Adds a weight vector element-wise into an accumulator.
fn add_weights(sum: &mut Vec<i64>, w: &Vec<i64>)
    requires
        old(sum)@.len() == w@.len(),
        forall|d: int|
            0 <= d < old(sum)@.len() ==> -(24 * WEIGHT_LIMIT) <= #[trigger] old(sum)@[d] <= 24
                * WEIGHT_LIMIT,
        weights_in_range(w@),
    ensures
        final(sum)@.len() == old(sum)@.len(),
        forall|d: int|
            0 <= d < old(sum)@.len() ==> #[trigger] final(sum)@[d] == old(sum)@[d] + w@[d],
{
    let mut i: usize = 0;
    while i < w.len()
        invariant
            0 <= i <= w@.len(),
            old(sum)@.len() == w@.len(),
            sum@.len() == w@.len(),
            forall|d: int|
                0 <= d < w@.len() ==> -(24 * WEIGHT_LIMIT) <= #[trigger] old(sum)@[d] <= 24
                    * WEIGHT_LIMIT,
            weights_in_range(w@),
            forall|d: int|
                0 <= d < w@.len() ==> #[trigger] sum@[d] == (if d < i {
                    old(sum)@[d] + w@[d]
                } else {
                    old(sum)@[d] as int
                }),
        decreases w@.len() - i,
    {
        let ghost prev = sum@;
        let updated = sum[i] + w[i];
        sum.set(i, updated);
        proof {
            assert forall|d: int| 0 <= d < w@.len() implies #[trigger] sum@[d] == (if d <= i {
                old(sum)@[d] + w@[d]
            } else {
                old(sum)@[d] as int
            }) by {
                if d != i {
                    assert(sum@[d] == prev[d]);
                }
            }
        }
        i = i + 1;
    }
}

/// A vector of zeroes.
fn zero_vec(len: usize) -> (r: Vec<i64>)
    ensures
        r@.len() == len,
        forall|d: int| 0 <= d < len ==> #[trigger] r@[d] == 0,
{
    let mut out: Vec<i64> = Vec::new();
    let mut i: usize = 0;
    while i < len
        invariant
            0 <= i <= len,
            out@.len() == i,
            forall|d: int| 0 <= d < i ==> #[trigger] out@[d] == 0,
        decreases len - i,
    {
        out.push(0);
        i = i + 1;
    }
    out
}

impl Network {
    /// Computes the starting weights of a node grown at `c`, from the patch
    /// of present neighbours around `c` and the weight envelope.
    fn compute_grown_weights(&self, c: Coordinate) -> (r: Vec<i64>)
        requires
            self.wf(),
        ensures
            r@ == grown_weights(
                self.nodes(),
                c,
                self.dimension as nat,
                self.min_weights@,
                self.max_weights@,
            ),
            r@.len() == self.dimension,
            weights_in_range(r@),
    {
        let ghost m = self.nodes();
        let dim = self.dimension;
        let mut close_sum = zero_vec(dim);
        let mut far_sum = zero_vec(dim);
        let mut close_n: usize = 0;
        let mut far_n: usize = 0;
        let mut r: usize = 0;
        proof {
            assert forall|d: int| 0 <= d < dim implies #[trigger] close_sum@[d] == side_sum(
                m,
                c,
                0,
                d,
                true,
            ) by {}
        }
        while r < 25
            invariant
                0 <= r <= 25,
                self.wf(),
                m == self.nodes(),
                dim == self.dimension,
                close_sum@.len() == dim,
                far_sum@.len() == dim,
                close_n == side_count(m, c, r as int, true),
                far_n == side_count(m, c, r as int, false),
                forall|d: int|
                    0 <= d < dim ==> #[trigger] close_sum@[d] == side_sum(m, c, r as int, d, true),
                forall|d: int|
                    0 <= d < dim ==> #[trigger] far_sum@[d] == side_sum(m, c, r as int, d, false),
            decreases 25 - r,
        {
            let ghost r0 = r as int;
            proof {
                assert forall|d: int| 0 <= d < dim implies 0 <= side_count(m, c, r0, true) <= r0
                    && -(side_count(m, c, r0, true) * WEIGHT_LIMIT) <= #[trigger] side_sum(
                    m,
                    c,
                    r0,
                    d,
                    true,
                ) <= side_count(m, c, r0, true) * WEIGHT_LIMIT by {
                    lemma_side_bounds(m, c, r0, d, true, dim as nat);
                }
                assert forall|d: int| 0 <= d < dim implies 0 <= side_count(m, c, r0, false) <= r0
                    && -(side_count(m, c, r0, false) * WEIGHT_LIMIT) <= #[trigger] side_sum(
                    m,
                    c,
                    r0,
                    d,
                    false,
                ) <= side_count(m, c, r0, false) * WEIGHT_LIMIT by {
                    lemma_side_bounds(m, c, r0, d, false, dim as nat);
                }
                lemma_side_bounds(m, c, r0, 0, true, dim as nat);
                lemma_side_bounds(m, c, r0, 0, false, dim as nat);
                assert(side_count(m, c, r0, true) * WEIGHT_LIMIT <= 24 * WEIGHT_LIMIT)
                    by (nonlinear_arith)
                    requires
                        0 <= side_count(m, c, r0, true) <= 24,
                ;
                assert(side_count(m, c, r0, false) * WEIGHT_LIMIT <= 24 * WEIGHT_LIMIT)
                    by (nonlinear_arith)
                    requires
                        0 <= side_count(m, c, r0, false) <= 24,
                ;
            }
            if r != 12 {
                let dx: i64 = (r as i64) / 5 - 2;
                let dy: i64 = (r as i64) % 5 - 2;
                proof {
                    assert(dx == rank_dx(r as int) && dy == rank_dy(r as int));
                }
                let target = coordinate_offset(c, dx, dy);
                match target {
                    Some(cc) => {
                        let ck = coordinate_key(cc);
                        let node = self.index.get(ck);
                        match node {
                            Some(node) => {
                                proof {
                                    assert(present_at(m, c, r0));
                                    assert(rank_coord(c, r0).unwrap() == cc);
                                    assert(node == m[ck]);
                                    assert(node.weights@.len() == dim);
                                }
                                let man: i64 = (if dx >= 0 {
                                    dx
                                } else {
                                    -dx
                                }) + (if dy >= 0 {
                                    dy
                                } else {
                                    -dy
                                });
                                proof {
                                    assert((man < 2) == rank_is_close(r0));
                                }
                                if man < 2 {
                                    add_weights(&mut close_sum, &node.weights);
                                    close_n = close_n + 1;
                                } else {
                                    add_weights(&mut far_sum, &node.weights);
                                    far_n = far_n + 1;
                                }
                            },
                            None => {
                                proof {
                                    assert(!present_at(m, c, r0));
                                }
                            },
                        }
                    },
                    None => {
                        proof {
                            assert(!present_at(m, c, r0));
                        }
                    },
                }
            }
            r = r + 1;
        }
        let ghost cg = side_count(m, c, 25, true);
        let ghost fg = side_count(m, c, 25, false);
        let mut out: Vec<i64> = Vec::new();
        let mut d: usize = 0;
        if close_n == 1 && far_n == 0 {
            while d < dim
                invariant
                    0 <= d <= dim,
                    self.wf(),
                    dim == self.dimension,
                    out@.len() == d,
                    cg == 1 && fg == 0,
                    forall|j: int|
                        0 <= j < d ==> #[trigger] out@[j] == div_trunc(
                            self.min_weights@[j] + self.max_weights@[j],
                            2,
                        ) as i64,
                    weights_in_range(out@),
                decreases dim - d,
            {
                let sum = self.min_weights[d] + self.max_weights[d];
                let mid = div_trunc_i64(sum, 2);
                proof {
                    lemma_avg_bound(sum as int, 2, WEIGHT_LIMIT as int);
                }
                out.push(mid);
                d = d + 1;
            }
            proof {
                assert(out@ =~= grown_weights(m, c, dim as nat, self.min_weights@, self.max_weights@));
            }
        } else {
            while d < dim
                invariant
                    0 <= d <= dim,
                    self.wf(),
                    m == self.nodes(),
                    dim == self.dimension,
                    out@.len() == d,
                    close_sum@.len() == dim,
                    far_sum@.len() == dim,
                    close_n == cg,
                    far_n == fg,
                    cg == side_count(m, c, 25, true),
                    fg == side_count(m, c, 25, false),
                    !(cg == 1 && fg == 0),
                    forall|j: int|
                        0 <= j < dim ==> #[trigger] close_sum@[j] == side_sum(m, c, 25, j, true),
                    forall|j: int|
                        0 <= j < dim ==> #[trigger] far_sum@[j] == side_sum(m, c, 25, j, false),
                    forall|j: int|
                        0 <= j < d ==> #[trigger] out@[j] == grown_weights(
                            m,
                            c,
                            dim as nat,
                            self.min_weights@,
                            self.max_weights@,
                        )[j],
                    weights_in_range(out@),
                decreases dim - d,
            {
                proof {
                    lemma_side_bounds(m, c, 25, d as int, true, dim as nat);
                    lemma_side_bounds(m, c, 25, d as int, false, dim as nat);
                }
                let w1: i64 = if close_n > 0 {
                    let q = div_trunc_i64(close_sum[d], close_n as i64);
                    proof {
                        lemma_avg_bound(
                            close_sum@[d as int] as int,
                            close_n as int,
                            WEIGHT_LIMIT as int,
                        );
                    }
                    q
                } else {
                    0
                };
                let w2: i64 = if far_n > 0 {
                    let q = div_trunc_i64(far_sum[d], far_n as i64);
                    proof {
                        lemma_avg_bound(
                            far_sum@[d as int] as int,
                            far_n as int,
                            WEIGHT_LIMIT as int,
                        );
                    }
                    q
                } else {
                    0
                };
                let raw = 2 * w1 - w2;
                let cw = if raw < -WEIGHT_LIMIT {
                    -WEIGHT_LIMIT
                } else if raw > WEIGHT_LIMIT {
                    WEIGHT_LIMIT
                } else {
                    raw
                };
                out.push(cw);
                d = d + 1;
            }
            proof {
                assert(out@ =~= grown_weights(m, c, dim as nat, self.min_weights@, self.max_weights@));
            }
        }
        out
    }
}

/// The coordinates of the nodes grown around `c`: its free cardinal sides,
/// in a fixed sweep order.
pub open spec fn grown_coords(m: Map<u128, Node>, c: Coordinate) -> Seq<Coordinate> {
    (if free_dir(m, c, -1, 0) {
        seq![Coordinate((c.0 - 1) as i64, c.1)]
    } else {
        Seq::empty()
    }) + (if free_dir(m, c, 0, -1) {
        seq![Coordinate(c.0, (c.1 - 1) as i64)]
    } else {
        Seq::empty()
    }) + (if free_dir(m, c, 0, 1) {
        seq![Coordinate(c.0, (c.1 + 1) as i64)]
    } else {
        Seq::empty()
    }) + (if free_dir(m, c, 1, 0) {
        seq![Coordinate((c.0 + 1) as i64, c.1)]
    } else {
        Seq::empty()
    })
}

impl Network {
    /// Readies one growth candidate: the free side's coordinate and the
    /// starting weights computed from the current patch around it.
    fn grown_candidate(&self, c: Coordinate, dx: i64, dy: i64) -> (r: Option<(Coordinate, Vec<i64>)>)
        requires
            self.wf(),
            -1 <= dx <= 1,
            -1 <= dy <= 1,
        ensures
            match r {
                Some(cw) => free_dir(self.nodes(), c, dx as int, dy as int) && Some(cw.0)
                    == coordinate_step(c, dx as int, dy as int) && cw.1@ == grown_weights(
                    self.nodes(),
                    cw.0,
                    self.dimension as nat,
                    self.min_weights@,
                    self.max_weights@,
                ) && cw.1@.len() == self.dimension && weights_in_range(cw.1@),
                None => !free_dir(self.nodes(), c, dx as int, dy as int),
            },
    {
        match coordinate_offset(c, dx, dy) {
            Some(cc) => {
                let found = self.index.get(coordinate_key(cc));
                match found {
                    Some(_) => None,
                    None => {
                        let w = self.compute_grown_weights(cc);
                        Some((cc, w))
                    },
                }
            },
            None => None,
        }
    }

    /// Grows the map at a boundary node: a fresh node appears on each free
    /// cardinal side, with weights computed from the patch around its
    /// coordinate as it stood before any of this step's growth.
    fn grow_at(&mut self, key: u128)
        requires
            old(self).wf(),
            old(self).nodes().dom().contains(key),
        ensures
            final(self).wf(),
            final(self).order@ == old(self).order@ + grown_coords(
                old(self).nodes(),
                old(self).nodes()[key].coordinate,
            ).map_values(|cc: Coordinate| key_of(cc)),
            forall|k: u128|
                old(self).nodes().dom().contains(k) ==> final(self).nodes().dom().contains(k)
                    && #[trigger] final(self).nodes()[k] == old(self).nodes()[k],
            forall|k: u128|
                final(self).nodes().dom().contains(k) && !old(self).nodes().dom().contains(k)
                    ==> manhattan(
                    (#[trigger] final(self).nodes()[k]).coordinate,
                    old(self).nodes()[key].coordinate,
                ) == 1 && is_fresh_node(
                    final(self).nodes()[k],
                    final(self).nodes()[k].coordinate,
                    grown_weights(
                        old(self).nodes(),
                        final(self).nodes()[k].coordinate,
                        old(self).dimension as nat,
                        old(self).min_weights@,
                        old(self).max_weights@,
                    ),
                ),
            *final(self) == (Network {
                min_weights: final(self).min_weights,
                max_weights: final(self).max_weights,
                order: final(self).order,
                index: final(self).index,
                inserted: final(self).inserted,
                ..*old(self)
            }),
    {
        let ghost pre = *self;
        let ghost b = pre.nodes()[key].coordinate;
        let bmu = self.index.get(key);
        match bmu {
            Some(bmu) => {
                let bc = bmu.coordinate;
                let c1 = self.grown_candidate(bc, -1, 0);
                let c2 = self.grown_candidate(bc, 0, -1);
                let c3 = self.grown_candidate(bc, 0, 1);
                let c4 = self.grown_candidate(bc, 1, 0);
                proof {
                    assert(bc == b);
                }
                match c1 {
                    Some(cw) => {
                        proof {
                            assert(!self.nodes().dom().contains(key_of(cw.0)));
                        }
                        self.insert(cw.0, cw.1);
                    },
                    None => {},
                }
                match c2 {
                    Some(cw) => {
                        proof {
                            if self.nodes().dom().contains(key_of(cw.0)) {
                                assert(false) by {
                                    match c1 {
                                        Some(cw1) => {
                                            lemma_key_of_injective(cw1.0, cw.0);
                                        },
                                        None => {},
                                    }
                                }
                            }
                        }
                        self.insert(cw.0, cw.1);
                    },
                    None => {},
                }
                match c3 {
                    Some(cw) => {
                        proof {
                            if self.nodes().dom().contains(key_of(cw.0)) {
                                assert(false) by {
                                    match c1 {
                                        Some(cw1) => {
                                            lemma_key_of_injective(cw1.0, cw.0);
                                        },
                                        None => {},
                                    }
                                    match c2 {
                                        Some(cw2) => {
                                            lemma_key_of_injective(cw2.0, cw.0);
                                        },
                                        None => {},
                                    }
                                }
                            }
                        }
                        self.insert(cw.0, cw.1);
                    },
                    None => {},
                }
                match c4 {
                    Some(cw) => {
                        proof {
                            if self.nodes().dom().contains(key_of(cw.0)) {
                                assert(false) by {
                                    match c1 {
                                        Some(cw1) => {
                                            lemma_key_of_injective(cw1.0, cw.0);
                                        },
                                        None => {},
                                    }
                                    match c2 {
                                        Some(cw2) => {
                                            lemma_key_of_injective(cw2.0, cw.0);
                                        },
                                        None => {},
                                    }
                                    match c3 {
                                        Some(cw3) => {
                                            lemma_key_of_injective(cw3.0, cw.0);
                                        },
                                        None => {},
                                    }
                                }
                            }
                        }
                        self.insert(cw.0, cw.1);
                    },
                    None => {},
                }
                proof {
                    assert(self.order@ =~= pre.order@ + grown_coords(pre.nodes(), b).map_values(
                        |cc: Coordinate| key_of(cc),
                    ));
                    assert forall|k: u128|
                        self.nodes().dom().contains(k) && !pre.nodes().dom().contains(
                            k,
                        ) implies manhattan(
                        (#[trigger] self.nodes()[k]).coordinate,
                        b,
                    ) == 1 && is_fresh_node(
                        self.nodes()[k],
                        self.nodes()[k].coordinate,
                        grown_weights(
                            pre.nodes(),
                            self.nodes()[k].coordinate,
                            pre.dimension as nat,
                            pre.min_weights@,
                            pre.max_weights@,
                        ),
                    ) by {}
                }
            },
            None => {
                proof {
                    assert(false);
                }
            },
        }
    }
}

/// The first best matching unit among the first `n` keys of the insertion
/// order: the earliest node whose squared distance to the input is minimal.
pub open spec fn bmu_of_prefix(m: Map<u128, Node>, order: Seq<u128>, w: Seq<i64>, n: int) -> u128
    decreases n,
{
    if n <= 1 {
        order[0]
    } else {
        let prev = bmu_of_prefix(m, order, w, n - 1);
        if dist2(m[order[n - 1]].weights@, w) < dist2(m[prev].weights@, w) {
            order[n - 1]
        } else {
            prev
        }
    }
}

/// Holds when `a` is `b` with its storage replaced by `s`.
pub open spec fn same_but_storage(a: Node, b: Node, s: Seq<Input>) -> bool {
    &&& a.coordinate == b.coordinate
    &&& a.weights == b.weights
    &&& a.error == b.error
    &&& a.total_hits == b.total_hits
    &&& a.last_hits == b.last_hits
    &&& a.storage@ == s
}

impl Network {
    /// The best matching unit for a weight vector: the first node of the
    /// insertion order at minimal squared Euclidean distance.
    pub open spec fn bmu_spec(self, w: Seq<i64>) -> u128 {
        bmu_of_prefix(self.nodes(), self.order@, w, self.order@.len() as int)
    }

    /// Finds the best matching unit for the given weights.
    fn find_bmu(&self, weights: &Vec<i64>) -> (r: u128)
        requires
            self.wf(),
            weights@.len() == self.dimension,
            weights_in_range(weights@),
        ensures
            r == self.bmu_spec(weights@),
            self.nodes().dom().contains(r),
            forall|j: int|
                0 <= j < self.order@.len() ==> dist2(self.nodes()[r].weights@, weights@) <= dist2(
                    self.nodes()[#[trigger] self.order@[j]].weights@,
                    weights@,
                ),
    {
        let ghost m = self.nodes();
        let first = self.order[0];
        proof {
            assert(self.order@.to_set().contains(first));
        }
        let node = self.index.get(first);
        let mut best_key = first;
        let mut best_dist: i64 = match node {
            Some(node) => distance(&node.weights, weights),
            None => {
                proof {
                    assert(false);
                }
                0
            },
        };
        let mut i: usize = 1;
        while i < self.order.len()
            invariant
                1 <= i <= self.order@.len(),
                self.wf(),
                m == self.nodes(),
                weights@.len() == self.dimension,
                weights_in_range(weights@),
                m.dom().contains(best_key),
                best_key == bmu_of_prefix(m, self.order@, weights@, i as int),
                best_dist == dist2(m[best_key].weights@, weights@),
                forall|j: int|
                    0 <= j < i ==> best_dist <= dist2(
                        m[#[trigger] self.order@[j]].weights@,
                        weights@,
                    ),
            decreases self.order@.len() - i,
        {
            let key = self.order[i];
            proof {
                assert(self.order@.to_set().contains(key));
            }
            let node = self.index.get(key);
            match node {
                Some(node) => {
                    let d = distance(&node.weights, weights);
                    if d < best_dist {
                        best_key = key;
                        best_dist = d;
                    }
                },
                None => {
                    proof {
                        assert(false);
                    }
                },
            }
            i = i + 1;
        }
        best_key
    }

    /// Appends the input to a node's storage.
    fn push_to_storage(&mut self, key: u128, input: Input)
        requires
            old(self).wf(),
            old(self).nodes().dom().contains(key),
            input.wf(old(self).dimension as nat),
        ensures
            final(self).wf(),
            final(self).nodes().dom() == old(self).nodes().dom(),
            forall|k: u128|
                old(self).nodes().dom().contains(k) && k != key ==> #[trigger] final(self).nodes()[k] == old(self).nodes()[k],
            same_but_storage(
                final(self).nodes()[key],
                old(self).nodes()[key],
                old(self).nodes()[key].storage@.push(input),
            ),
            *final(self) == (Network { index: final(self).index, ..*old(self) }),
    {
        let node = self.index.get(key);
        match node {
            Some(mut node) => {
                node.storage.push(input);
                self.index.insert(key, node);
                proof {
                    assert(final(self).nodes().dom() =~= old(self).nodes().dom());
                }
            },
            None => {
                proof {
                    assert(false);
                }
            },
        }
    }

    /// Trains the map on one input: finds the best matching unit, adds the
    /// quantisation error (recording a hit for a new input), then either
    /// distributes excess error (interior node over the threshold), grows
    /// the map (boundary node over the threshold) or moves the patch's
    /// weights toward the input, and finally stores the input at the unit.
    ///
    /// The per-case effect on every node is stated exactly on the helpers
    /// this method is composed of.
    fn train(&mut self, input: Input, is_new: bool)
        requires
            old(self).wf(),
            input.wf(old(self).dimension as nat),
        ensures
            final(self).wf(),
            final(self).order@.len() >= old(self).order@.len(),
            final(self).order@.take(old(self).order@.len() as int) == old(self).order@,
            forall|k: u128|
                old(self).nodes().dom().contains(k) ==> final(self).nodes().dom().contains(k),
            forall|k: u128|
                final(self).nodes().dom().contains(k) && !old(self).nodes().dom().contains(k)
                    ==> manhattan(
                    (#[trigger] final(self).nodes()[k]).coordinate,
                    old(self).nodes()[old(self).bmu_spec(input.weights@)].coordinate,
                ) == 1,
            final(self).nodes()[old(self).bmu_spec(input.weights@)].storage@ == old(self).nodes()[old(self).bmu_spec(input.weights@)].storage@.push(input),
            forall|k: u128|
                old(self).nodes().dom().contains(k) && k != old(self).bmu_spec(input.weights@)
                    ==> (#[trigger] final(self).nodes()[k]).storage@ == old(self).nodes()[k].storage@,
            is_new ==> final(self).nodes()[old(self).bmu_spec(input.weights@)].last_hits@
                == spec_hits_after(
                old(self).nodes()[old(self).bmu_spec(input.weights@)].last_hits@,
                old(self).time,
                old(self).rebalance_memory as nat,
            ),
            !is_new ==> final(self).nodes()[old(self).bmu_spec(input.weights@)].last_hits@ == old(self).nodes()[old(self).bmu_spec(input.weights@)].last_hits@,
            trained_case_error_distribution(*old(self), *final(self), input, dist2(
                old(self).nodes()[old(self).bmu_spec(input.weights@)].weights@,
                input.weights@,
            )),
            trained_case_weight_adjustment(*old(self), *final(self), input, dist2(
                old(self).nodes()[old(self).bmu_spec(input.weights@)].weights@,
                input.weights@,
            )),
            trained_case_growth(*old(self), *final(self), input, dist2(
                old(self).nodes()[old(self).bmu_spec(input.weights@)].weights@,
                input.weights@,
            )),
            forall|k: u128|
                old(self).nodes().dom().contains(k) && k != old(self).bmu_spec(input.weights@)
                    ==> (#[trigger] final(self).nodes()[k]).last_hits == old(
                    self,
                ).nodes()[k].last_hits && final(self).nodes()[k].total_hits == old(
                    self,
                ).nodes()[k].total_hits,
            !is_new ==> final(self).nodes()[old(self).bmu_spec(input.weights@)].total_hits == old(
                self,
            ).nodes()[old(self).bmu_spec(input.weights@)].total_hits,
            forall|k: u128|
                final(self).nodes().dom().contains(k) && !old(self).nodes().dom().contains(k)
                    ==> (#[trigger] final(self).nodes()[k]).storage@ == Seq::<Input>::empty()
                    && final(self).nodes()[k].last_hits@ == Seq::<usize>::empty(),
            population_multiset(*final(self)) == population_multiset(*old(self)).insert(input),
            *final(self) == (Network {
                min_weights: final(self).min_weights,
                max_weights: final(self).max_weights,
                order: final(self).order,
                index: final(self).index,
                inserted: final(self).inserted,
                ..*old(self)
            }),
    {
        let ghost pre = *self;
        let ghost input_g = input;
        let b = self.find_bmu(&input.weights);
        let node = self.index.get(b);
        let dist: i64 = match node {
            Some(node) => distance(&node.weights, &input.weights),
            None => {
                proof {
                    assert(false);
                }
                0
            },
        };
        proof {
            lemma_dist2_bound(pre.nodes()[b].weights@, input.weights@);
            assert(pre.nodes()[b].weights@.len() * (4 * WEIGHT_LIMIT * WEIGHT_LIMIT)
                <= 144115188075855872) by (nonlinear_arith)
                requires
                    0 <= pre.nodes()[b].weights@.len() <= 128,
            ;
        }
        self.bump_error_and_hit(b, dist, is_new);
        let ghost s1 = *self;
        proof {
            assert forall|k: u128|
                pre.nodes().dom().contains(k) implies (#[trigger] s1.nodes()[k]).storage@
                == pre.nodes()[k].storage@ by {
                if k != b {
                    assert(s1.nodes()[k] == pre.nodes()[k]);
                }
            }
        }
        let bumped = self.index.get(b);
        match bumped {
            Some(bumped) => {
                let exceeds = bumped.error > self.growing_threshold;
                let boundary = self.is_boundary(bumped.coordinate);
                if exceeds && !boundary {
                    self.distribute_error(b);
                    proof {
                        assert forall|k: u128|
                            pre.nodes().dom().contains(k) && k != b implies #[trigger] same_but_error(
                            self.nodes()[k],
                            pre.nodes()[k],
                            distribution_target(
                                pre.nodes()[k],
                                pre.nodes()[b].coordinate,
                                pre.distribution_factor as int,
                                pre.growing_threshold as int,
                            ),
                        ) by {
                            assert(s1.nodes()[k] == pre.nodes()[k]);
                            assert(same_but_error(
                                self.nodes()[k],
                                s1.nodes()[k],
                                distribution_target(
                                    s1.nodes()[k],
                                    s1.nodes()[b].coordinate,
                                    s1.distribution_factor as int,
                                    s1.growing_threshold as int,
                                ),
                            ));
                        }
                        assert(self.nodes()[b].error == pre.growing_threshold as int / 2) by {
                            assert(same_but_error(
                                self.nodes()[b],
                                s1.nodes()[b],
                                distribution_target(
                                    s1.nodes()[b],
                                    s1.nodes()[b].coordinate,
                                    s1.distribution_factor as int,
                                    s1.growing_threshold as int,
                                ),
                            ));
                        }
                        assert(self.nodes()[b].weights == pre.nodes()[b].weights);
                        assert forall|k: u128|
                            s1.nodes().dom().contains(k) implies (#[trigger] self.nodes()[k]).storage@
                            == s1.nodes()[k].storage@ && self.nodes()[k].last_hits
                            == s1.nodes()[k].last_hits && self.nodes()[k].total_hits
                            == s1.nodes()[k].total_hits by {
                            assert(same_but_error(
                                self.nodes()[k],
                                s1.nodes()[k],
                                distribution_target(
                                    s1.nodes()[k],
                                    s1.nodes()[b].coordinate,
                                    s1.distribution_factor as int,
                                    s1.growing_threshold as int,
                                ),
                            ));
                        }
                        assert(self.order@ == s1.order@);
                    }
                } else if exceeds && boundary {
                    self.grow_at(b);
                    proof {
                        assert forall|k: u128|
                            s1.nodes().dom().contains(k) implies (#[trigger] self.nodes()[k]).storage@
                            == s1.nodes()[k].storage@ && self.nodes()[k].last_hits
                            == s1.nodes()[k].last_hits && self.nodes()[k].total_hits
                            == s1.nodes()[k].total_hits by {
                            assert(self.nodes()[k] == s1.nodes()[k]);
                        }
                        assert(self.order@.take(s1.order@.len() as int) =~= s1.order@);
                        lemma_grown_specs_same(
                            pre.nodes(),
                            s1.nodes(),
                            s1.nodes()[b].coordinate,
                            pre.dimension as nat,
                            pre.min_weights@,
                            pre.max_weights@,
                        );
                        assert forall|k: u128|
                            self.nodes().dom().contains(k) && !pre.nodes().dom().contains(
                                k,
                            ) implies is_fresh_node(
                            #[trigger] self.nodes()[k],
                            self.nodes()[k].coordinate,
                            grown_weights(
                                pre.nodes(),
                                self.nodes()[k].coordinate,
                                pre.dimension as nat,
                                pre.min_weights@,
                                pre.max_weights@,
                            ),
                        ) by {
                            lemma_grown_specs_same(
                                pre.nodes(),
                                s1.nodes(),
                                self.nodes()[k].coordinate,
                                pre.dimension as nat,
                                pre.min_weights@,
                                pre.max_weights@,
                            );
                        }
                        assert(self.order@ == pre.order@ + grown_coords(
                            pre.nodes(),
                            pre.nodes()[b].coordinate,
                        ).map_values(|cc: Coordinate| key_of(cc)));
                    }
                } else {
                    self.adjust_weights(b, &input.weights);
                    proof {
                        assert forall|k: u128|
                            pre.nodes().dom().contains(k) && k != b implies #[trigger] same_but_weights(
                            self.nodes()[k],
                            pre.nodes()[k],
                            adjustment_target(
                                pre.nodes()[k],
                                pre.nodes()[b].coordinate,
                                input.weights@,
                                effective_rate(
                                    pre.learning_rate as int,
                                    pre.order@.len() as int,
                                ),
                            ),
                        ) by {
                            assert(s1.nodes()[k] == pre.nodes()[k]);
                            assert(same_but_weights(
                                self.nodes()[k],
                                s1.nodes()[k],
                                adjustment_target(
                                    s1.nodes()[k],
                                    s1.nodes()[b].coordinate,
                                    input.weights@,
                                    effective_rate(
                                        s1.learning_rate as int,
                                        s1.order@.len() as int,
                                    ),
                                ),
                            ));
                        }
                        assert(self.nodes()[b].weights@ == adjusted_vec(
                            pre.nodes()[b].weights@,
                            input.weights@,
                            effective_rate(pre.learning_rate as int, pre.order@.len() as int),
                        )) by {
                            assert(same_but_weights(
                                self.nodes()[b],
                                s1.nodes()[b],
                                adjustment_target(
                                    s1.nodes()[b],
                                    s1.nodes()[b].coordinate,
                                    input.weights@,
                                    effective_rate(
                                        s1.learning_rate as int,
                                        s1.order@.len() as int,
                                    ),
                                ),
                            ));
                        }
                        assert(self.nodes()[b].error == s1.nodes()[b].error);
                        assert forall|k: u128|
                            s1.nodes().dom().contains(k) implies (#[trigger] self.nodes()[k]).storage@
                            == s1.nodes()[k].storage@ && self.nodes()[k].last_hits
                            == s1.nodes()[k].last_hits && self.nodes()[k].total_hits
                            == s1.nodes()[k].total_hits by {
                            assert(same_but_weights(
                                self.nodes()[k],
                                s1.nodes()[k],
                                adjustment_target(
                                    s1.nodes()[k],
                                    s1.nodes()[b].coordinate,
                                    input.weights@,
                                    effective_rate(
                                        s1.learning_rate as int,
                                        s1.order@.len() as int,
                                    ),
                                ),
                            ));
                        }
                        assert(self.order@ == s1.order@);
                    }
                }
            },
            None => {
                proof {
                    assert(false);
                }
            },
        }
        let ghost s2 = *self;
        self.push_to_storage(b, input);
        proof {
            assert(self.order@.take(pre.order@.len() as int) =~= pre.order@);
            assert(same_but_storage(
                self.nodes()[b],
                s2.nodes()[b],
                s2.nodes()[b].storage@.push(input_g),
            ));
            assert(self.nodes()[b].storage@ == pre.nodes()[b].storage@.push(input_g));
            assert forall|k: u128|
                pre.nodes().dom().contains(k) && k != b implies (#[trigger] self.nodes()[k]).storage@
                == pre.nodes()[k].storage@ by {
                assert(self.nodes()[k] == s2.nodes()[k]);
            }
            assert forall|k: u128|
                self.nodes().dom().contains(k) && !pre.nodes().dom().contains(k) implies (
            #[trigger] self.nodes()[k]).storage@ == Seq::<Input>::empty() by {
                assert(self.nodes()[k] == s2.nodes()[k]);
            }
            lemma_stored_multiset_after_train(
                pre.nodes(),
                pre.order@,
                self.nodes(),
                self.order@,
                b,
                input_g,
            );
        }
    }

    /// Stores an input into the map at the given time: one training step
    /// with a hit recorded. The step's exact per-case effect — error
    /// distribution, growth or weight adjustment — is stated by the three
    /// case predicates.
    pub fn store(&mut self, input: Input, time: usize)
        requires
            old(self).wf(),
            input.wf(old(self).dimension as nat),
        ensures
            final(self).wf(),
            final(self).time == time,
            final(self).dimension == old(self).dimension,
            final(self).order@.len() >= old(self).order@.len(),
            final(self).order@.take(old(self).order@.len() as int) == old(self).order@,
            forall|k: u128|
                old(self).nodes().dom().contains(k) ==> final(self).nodes().dom().contains(k),
            forall|k: u128|
                final(self).nodes().dom().contains(k) && !old(self).nodes().dom().contains(k)
                    ==> manhattan(
                    (#[trigger] final(self).nodes()[k]).coordinate,
                    old(self).nodes()[old(self).bmu_spec(input.weights@)].coordinate,
                ) == 1,
            final(self).nodes()[old(self).bmu_spec(input.weights@)].storage@ == old(
                self,
            ).nodes()[old(self).bmu_spec(input.weights@)].storage@.push(input),
            forall|k: u128|
                old(self).nodes().dom().contains(k) && k != old(self).bmu_spec(input.weights@)
                    ==> (#[trigger] final(self).nodes()[k]).storage@ == old(
                    self,
                ).nodes()[k].storage@,
            final(self).nodes()[old(self).bmu_spec(input.weights@)].last_hits@ == spec_hits_after(
                old(self).nodes()[old(self).bmu_spec(input.weights@)].last_hits@,
                time,
                old(self).rebalance_memory as nat,
            ),
            trained_case_error_distribution(*old(self), *final(self), input, dist2(
                old(self).nodes()[old(self).bmu_spec(input.weights@)].weights@,
                input.weights@,
            )),
            trained_case_weight_adjustment(*old(self), *final(self), input, dist2(
                old(self).nodes()[old(self).bmu_spec(input.weights@)].weights@,
                input.weights@,
            )),
            trained_case_growth(*old(self), *final(self), input, dist2(
                old(self).nodes()[old(self).bmu_spec(input.weights@)].weights@,
                input.weights@,
            )),
            population_multiset(*final(self)) == population_multiset(*old(self)).insert(input),
    {
        self.time = time;
        let ghost mid = *self;
        proof {
            assert(mid.nodes() == old(self).nodes());
            assert(mid.bmu_spec(input.weights@) == old(self).bmu_spec(input.weights@));
            assert(population_multiset(mid) == population_multiset(*old(self)));
        }
        self.train(input, true);
        proof {
            let w = input.weights@;
            assert(trained_case_error_distribution(*old(self), *self, input, dist2(
                old(self).nodes()[old(self).bmu_spec(w)].weights@,
                w,
            ))) by {
                assert(trained_bmu_error(mid, w, dist2(mid.nodes()[mid.bmu_spec(w)].weights@, w))
                    == trained_bmu_error(
                    *old(self),
                    w,
                    dist2(old(self).nodes()[old(self).bmu_spec(w)].weights@, w),
                ));
            }
            assert(trained_case_weight_adjustment(*old(self), *self, input, dist2(
                old(self).nodes()[old(self).bmu_spec(w)].weights@,
                w,
            )));
            assert(trained_case_growth(*old(self), *self, input, dist2(
                old(self).nodes()[old(self).bmu_spec(w)].weights@,
                w,
            ))) by {
                assert(grown_coords(mid.nodes(), mid.nodes()[mid.bmu_spec(w)].coordinate)
                    == grown_coords(
                    old(self).nodes(),
                    old(self).nodes()[old(self).bmu_spec(w)].coordinate,
                ));
            }
        }
    }

    /// Stores a batch of items into the map at the given time, mapping each
    /// to an input first; the updates are applied in input order, and the
    /// stored multiset grows by exactly the mapped inputs.
    pub fn store_batch<T, F: Fn(T) -> Input>(&mut self, item_data: Vec<T>, time: usize, map_func: F)
        requires
            old(self).wf(),
            forall|t: T| #[trigger] map_func.requires((t,)),
            forall|t: T, out: Input|
                #[trigger] map_func.ensures((t,), out) ==> out.wf(old(self).dimension as nat),
        ensures
            final(self).wf(),
            final(self).time == time,
            final(self).dimension == old(self).dimension,
            final(self).order@.len() >= old(self).order@.len(),
            forall|k: u128|
                old(self).nodes().dom().contains(k) ==> final(self).nodes().dom().contains(k),
            exists|ins: Seq<Input>|
                #![trigger ins.to_multiset()]
                ins.len() == item_data@.len() && (forall|j: int|
                    0 <= j < ins.len() ==> map_func.ensures(
                        (item_data@[j],),
                        #[trigger] ins[j],
                    )) && population_multiset(*final(self)) == population_multiset(
                    *old(self),
                ).add(ins.to_multiset()),
    {
        self.time = time;
        let ghost items0 = item_data@;
        let ghost mut produced: Seq<Input> = Seq::empty();
        let mut items = item_data;
        proof {
            broadcast use vstd::multiset::group_multiset_axioms;

            assert(produced.to_multiset() =~= Multiset::<Input>::empty()) by {
                produced.to_multiset_ensures();
                assert forall|v: Input| produced.to_multiset().count(v) == 0 by {
                    if produced.to_multiset().count(v) > 0 {
                        assert(produced.contains(v));
                    }
                }
            }
            assert(items@ =~= items0.skip(0));
            assert(population_multiset(*self).add(produced.to_multiset()) =~= population_multiset(
                *old(self),
            ).add(produced.to_multiset()));
        }
        while items.len() > 0
            invariant
                self.wf(),
                self.time == time,
                self.dimension == old(self).dimension,
                self.order@.len() >= old(self).order@.len(),
                forall|k: u128|
                    old(self).nodes().dom().contains(k) ==> self.nodes().dom().contains(k),
                forall|t: T| #[trigger] map_func.requires((t,)),
                forall|t: T, out: Input|
                    #[trigger] map_func.ensures((t,), out) ==> out.wf(
                        old(self).dimension as nat,
                    ),
                0 <= produced.len() <= items0.len(),
                items@ == items0.skip(produced.len() as int),
                forall|j: int|
                    0 <= j < produced.len() ==> map_func.ensures(
                        (items0[j],),
                        #[trigger] produced[j],
                    ),
                population_multiset(*self) == population_multiset(*old(self)).add(
                    produced.to_multiset(),
                ),
            decreases items@.len(),
        {
            let ghost consumed = produced.len() as int;
            let item = items.remove(0);
            proof {
                assert(items0.skip(consumed).remove(0) =~= items0.skip(consumed + 1));
                assert(item == items0.skip(consumed)[0]);
                assert(item == items0[consumed]);
            }
            let input = map_func(item);
            let ghost input_g = input;
            self.train(input, true);
            proof {
                broadcast use vstd::multiset::group_multiset_axioms;

                let prev = produced;
                produced = produced.push(input_g);
                prev.to_multiset_ensures();
                assert(produced.to_multiset() =~= prev.to_multiset().insert(input_g));
                assert(population_multiset(*self) =~= population_multiset(*old(self)).add(
                    produced.to_multiset(),
                )) by {
                    assert forall|v: Input|
                        population_multiset(*self).count(v) == population_multiset(*old(self)).add(
                        produced.to_multiset(),
                    ).count(v) by {}
                }
                assert forall|j: int|
                    0 <= j < produced.len() implies map_func.ensures(
                    (items0[j],),
                    #[trigger] produced[j],
                ) by {
                    if j < prev.len() {
                        assert(produced[j] == prev[j]);
                    } else {
                        assert(produced[j] == input_g);
                    }
                }
            }
        }
        proof {
            assert(items0.skip(produced.len() as int) =~= Seq::<T>::empty());
            assert(produced.len() == items0.len());
        }
    }
}

impl Network {
    /// Removes the nodes that the filter rejects, never shrinking the map
    /// below four nodes; surviving nodes are untouched.
    fn compact<F: Fn(&Node) -> bool>(&mut self, node_filter: &F)
        requires
            old(self).wf(),
            forall|n: Node| #[trigger] node_filter.requires((&n,)),
        ensures
            final(self).wf(),
            final(self).order@.len() <= old(self).order@.len(),
            forall|k: u128|
                final(self).nodes().dom().contains(k) ==> old(self).nodes().dom().contains(k)
                    && #[trigger] final(self).nodes()[k] == old(self).nodes()[k],
            forall|k: u128|
                old(self).nodes().dom().contains(k) && !final(self).nodes().dom().contains(k)
                    ==> node_filter.ensures((&old(self).nodes()[k],), false),
            forall|k: u128|
                old(self).nodes().dom().contains(k) && !node_filter.ensures(
                    (&old(self).nodes()[k],),
                    true,
                ) && final(self).nodes().dom().contains(k) ==> final(self).order@.len() == 4,
            compact_post(*old(self), *final(self), *node_filter),
            *final(self) == (Network {
                order: final(self).order,
                index: final(self).index,
                ..*old(self)
            }),
    {
        let ghost pre = *self;
        let original = self.order.len();
        let mut kept: Vec<u128> = Vec::new();
        let mut removed: Vec<u128> = Vec::new();
        let ghost mut kept_rejected: bool = false;
        let mut i: usize = 0;
        while i < self.order.len()
            invariant
                0 <= i <= self.order@.len(),
                *self == pre,
                pre.wf(),
                original == pre.order@.len(),
                forall|n: Node| #[trigger] node_filter.requires((&n,)),
                kept@.no_duplicates(),
                removed@.no_duplicates(),
                kept@.len() + removed@.len() == i,
                removed@.len() <= original - 4,
                forall|x: u128| kept@.contains(x) ==> #[trigger] pre.order@.take(i as int).contains(x),
                forall|x: u128|
                    removed@.contains(x) ==> #[trigger] pre.order@.take(i as int).contains(x),
                forall|x: u128| kept@.contains(x) ==> !(#[trigger] removed@.contains(x)),
                forall|j: int|
                    0 <= j < i ==> kept@.contains(#[trigger] pre.order@[j]) || removed@.contains(
                        pre.order@[j],
                    ),
                forall|j: int|
                    0 <= j < removed@.len() ==> pre.nodes().dom().contains(#[trigger] removed@[j])
                        && node_filter.ensures((&pre.nodes()[removed@[j]],), false),
                !kept_rejected ==> forall|j: int|
                    0 <= j < kept@.len() ==> node_filter.ensures(
                        (&pre.nodes()[#[trigger] kept@[j]],),
                        true,
                    ),
                kept_rejected ==> removed@.len() == original - 4,
            decreases self.order@.len() - i,
        {
            let key = self.order[i];
            proof {
                assert(pre.order@.to_set().contains(key));
                assert(!pre.order@.take(i as int).contains(key)) by {
                    if pre.order@.take(i as int).contains(key) {
                        let j = choose|j: int|
                            0 <= j < i && #[trigger] pre.order@.take(i as int)[j] == key;
                        assert(pre.order@[j] == pre.order@[i as int]);
                    }
                }
            }
            let node = self.index.get(key);
            match node {
                Some(node) => {
                    let keep = node_filter(&node);
                    let ghost kept0 = kept@;
                    let ghost removed0 = removed@;
                    if !keep && original - removed.len() > 4 {
                        removed.push(key);
                    } else {
                        kept.push(key);
                        proof {
                            if !keep {
                                kept_rejected = true;
                            }
                        }
                    }
                    proof {
                        assert(node == pre.nodes()[key]);
                        if !kept_rejected {
                            assert forall|j: int|
                                0 <= j < kept@.len() implies node_filter.ensures(
                                (&pre.nodes()[#[trigger] kept@[j]],),
                                true,
                            ) by {
                                if j < kept0.len() {
                                    assert(kept@[j] == kept0[j]);
                                } else {
                                    assert(kept@[j] == key);
                                }
                            }
                        }
                        assert(pre.order@.take(i + 1).drop_last() =~= pre.order@.take(i as int));
                        assert forall|x: u128|
                            kept@.contains(x) implies #[trigger] pre.order@.take(i + 1).contains(
                            x,
                        ) by {
                            if kept0.contains(x) {
                                assert(pre.order@.take(i as int).contains(x));
                                let j = choose|j: int|
                                    0 <= j < i && #[trigger] pre.order@.take(i as int)[j] == x;
                                assert(pre.order@.take(i + 1)[j] == x);
                            } else {
                                assert(x == key);
                                assert(pre.order@.take(i + 1)[i as int] == key);
                            }
                        }
                        assert forall|x: u128|
                            removed@.contains(x) implies #[trigger] pre.order@.take(i + 1).contains(
                            x,
                        ) by {
                            if removed0.contains(x) {
                                assert(pre.order@.take(i as int).contains(x));
                                let j = choose|j: int|
                                    0 <= j < i && #[trigger] pre.order@.take(i as int)[j] == x;
                                assert(pre.order@.take(i + 1)[j] == x);
                            } else {
                                assert(x == key);
                                assert(pre.order@.take(i + 1)[i as int] == key);
                            }
                        }
                        assert forall|x: u128| kept@.contains(x) implies !(removed@.contains(
                            x,
                        )) by {
                            let jx = choose|jx: int|
                                0 <= jx < kept@.len() && #[trigger] kept@[jx] == x;
                            if removed@.contains(x) {
                                let jr = choose|jr: int|
                                    0 <= jr < removed@.len() && #[trigger] removed@[jr] == x;
                                if jx < kept0.len() {
                                    assert(kept0.contains(x));
                                } else {
                                    assert(x == key);
                                }
                                if jr < removed0.len() {
                                    assert(removed0.contains(x));
                                    assert(pre.order@.take(i as int).contains(x));
                                } else {
                                    assert(x == key);
                                }
                                assert(false);
                            }
                        }
                        assert forall|j: int|
                            0 <= j < i + 1 implies kept@.contains(#[trigger] pre.order@[j])
                            || removed@.contains(pre.order@[j]) by {
                            if j < i {
                                if kept0.contains(pre.order@[j]) {
                                    let jj = choose|jj: int|
                                        0 <= jj < kept0.len() && kept0[jj] == pre.order@[j];
                                    assert(kept@[jj] == pre.order@[j]);
                                } else {
                                    assert(removed0.contains(pre.order@[j]));
                                    let jj = choose|jj: int|
                                        0 <= jj < removed0.len() && removed0[jj] == pre.order@[j];
                                    assert(removed@[jj] == pre.order@[j]);
                                }
                            } else {
                                assert(kept@.contains(key) || removed@.contains(key)) by {
                                    if !keep && original - removed0.len() > 4 {
                                        assert(removed@[removed@.len() - 1] == key);
                                    } else {
                                        assert(kept@[kept@.len() - 1] == key);
                                    }
                                }
                            }
                        }
                    }
                },
                None => {
                    proof {
                        assert(false);
                    }
                },
            }
            i = i + 1;
        }
        proof {
            assert(pre.order@.take(original as int) =~= pre.order@);
        }
        let mut j: usize = 0;
        while j < removed.len()
            invariant
                0 <= j <= removed@.len(),
                pre.wf(),
                forall|n: Node| #[trigger] node_filter.requires((&n,)),
                *self == (Network { index: self.index, ..pre }),
                forall|j2: int|
                    0 <= j2 < removed@.len() ==> pre.nodes().dom().contains(
                        #[trigger] removed@[j2],
                    ) && node_filter.ensures((&pre.nodes()[removed@[j2]],), false),
                removed@.no_duplicates(),
                self.nodes() == pre.nodes().remove_keys(removed@.take(j as int).to_set()),
            decreases removed@.len() - j,
        {
            let key = removed[j];
            self.index.remove(key);
            proof {
                assert(self.nodes() =~= pre.nodes().remove_keys(removed@.take(j + 1).to_set())) by {
                    assert(removed@.take(j + 1).drop_last() =~= removed@.take(j as int));
                    assert forall|x: u128|
                        removed@.take(j + 1).to_set().contains(x) <==> removed@.take(
                        j as int,
                    ).to_set().contains(x) || x == key by {
                        if removed@.take(j + 1).contains(x) {
                            let jj = choose|jj: int|
                                0 <= jj < j + 1 && #[trigger] removed@.take(j + 1)[jj] == x;
                            if jj < j {
                                assert(removed@.take(j as int)[jj] == x);
                            }
                        }
                        if removed@.take(j as int).contains(x) {
                            let jj = choose|jj: int|
                                0 <= jj < j && #[trigger] removed@.take(j as int)[jj] == x;
                            assert(removed@.take(j + 1)[jj] == x);
                        }
                        if x == key {
                            assert(removed@.take(j + 1)[j as int] == x);
                        }
                    }
                }
            }
            j = j + 1;
        }
        proof {
            assert(removed@.take(removed@.len() as int) =~= removed@);
        }
        self.order = kept;
        proof {
            assert(self.order@.to_set() =~= self.nodes().dom()) by {
                assert forall|x: u128|
                    self.order@.to_set().contains(x) <==> self.nodes().dom().contains(x) by {
                    if kept@.contains(x) {
                        assert(pre.order@.contains(x));
                        assert(pre.order@.to_set().contains(x));
                        assert(!removed@.to_set().contains(x));
                    }
                    if self.nodes().dom().contains(x) {
                        assert(pre.nodes().dom().contains(x));
                        assert(pre.order@.to_set().contains(x));
                        let jj = choose|jj: int|
                            0 <= jj < pre.order@.len() && #[trigger] pre.order@[jj] == x;
                        assert(kept@.contains(x) || removed@.contains(x));
                        assert(!removed@.to_set().contains(x));
                    }
                }
            }
            assert(self.order@.len() >= 4) by {
                assert(kept@.len() == pre.order@.len() - removed@.len());
            }
            assert(self.wf());
            assert forall|k: u128|
                pre.nodes().dom().contains(k) && !self.nodes().dom().contains(
                    k,
                ) implies node_filter.ensures((&pre.nodes()[k],), false) by {
                assert(removed@.to_set().contains(k));
                let jj = choose|jj: int| 0 <= jj < removed@.len() && #[trigger] removed@[jj] == k;
            }
            assert forall|k: u128|
                pre.nodes().dom().contains(k) && !node_filter.ensures((&pre.nodes()[k],), true)
                    && self.nodes().dom().contains(k) implies self.order@.len() == 4 by {
                assert(kept@.contains(k));
                if !kept_rejected {
                    let jj = choose|jj: int| 0 <= jj < kept@.len() && #[trigger] kept@[jj] == k;
                    assert(node_filter.ensures((&pre.nodes()[k],), true));
                } else {
                    assert(kept@.len() == pre.order@.len() - removed@.len());
                }
            }
        }
    }

    /// Rebalances the map: for the given number of rounds, drains every
    /// node's storage, shuffles the drained inputs globally and replays each
    /// through training without recording hits. The multiset of stored
    /// inputs is preserved, and no node's usage history changes.
    fn rebalance(&mut self, rebalance_count: usize, rng: &mut rand::rngs::StdRng)
        requires
            old(self).wf(),
        ensures
            final(self).wf(),
            final(self).order@.len() >= old(self).order@.len(),
            population_multiset(*final(self)) == population_multiset(*old(self)),
            hits_preserved(*old(self), *final(self)),
            rebalance_post(*old(self), *final(self)),
            *final(self) == (Network {
                min_weights: final(self).min_weights,
                max_weights: final(self).max_weights,
                order: final(self).order,
                index: final(self).index,
                inserted: final(self).inserted,
                ..*old(self)
            }),
    {
        let mut round: usize = 0;
        while round < rebalance_count
            invariant
                self.wf(),
                self.order@.len() >= old(self).order@.len(),
                population_multiset(*self) == population_multiset(*old(self)),
                hits_preserved(*old(self), *self),
                *self == (Network {
                    min_weights: self.min_weights,
                    max_weights: self.max_weights,
                    order: self.order,
                    index: self.index,
                    inserted: self.inserted,
                    ..*old(self)
                }),
            decreases rebalance_count - round,
        {
            let ghost r0 = *self;
            let mut data: Vec<Input> = Vec::new();
            let mut i: usize = 0;
            proof {
                broadcast use vstd::multiset::group_multiset_axioms;

                assert(data@.to_multiset() =~= Multiset::<Input>::empty()) by {
                    data@.to_multiset_ensures();
                    assert forall|v: Input| data@.to_multiset().count(v) == 0 by {
                        if data@.to_multiset().count(v) > 0 {
                            assert(data@.contains(v));
                        }
                    }
                }
                assert(population_multiset(*self).add(data@.to_multiset()) =~= population_multiset(
                    r0,
                ));
            }
            while i < self.order.len()
                invariant
                    0 <= i <= self.order@.len(),
                    self.wf(),
                    r0.wf(),
                    self.order == r0.order,
                    self.nodes().dom() == r0.nodes().dom(),
                    population_multiset(*self).add(data@.to_multiset()) == population_multiset(r0),
                    hits_preserved(r0, *self),
                    *self == (Network { index: self.index, ..r0 }),
                    forall|j: int|
                        0 <= j < data@.len() ==> (#[trigger] data@[j]).wf(self.dimension as nat),
                decreases self.order@.len() - i,
            {
                let key = self.order[i];
                proof {
                    assert(self.order@.to_set().contains(key));
                }
                let ghost mhead = self.nodes();
                let ghost head_net = *self;
                let ghost data0 = data@;
                let node = self.index.get(key);
                match node {
                    Some(mut node) => {
                        let mut stored = node.storage;
                        let ghost stored0 = stored@;
                        node.storage = Vec::new();
                        self.index.insert(key, node);
                        proof {
                            broadcast use vstd::multiset::group_multiset_axioms;

                            assert(self.nodes().dom() =~= mhead.dom());
                            lemma_stored_multiset_set_storage(
                                mhead,
                                self.nodes(),
                                self.order@,
                                self.order@.len() as int,
                                key,
                            );
                            assert(self.order@.take(self.order@.len() as int).contains(key)) by {
                                assert(self.order@.take(self.order@.len() as int) =~= self.order@);
                            }
                            let prev_total = stored_multiset(
                                mhead,
                                self.order@,
                                self.order@.len() as int,
                            );
                            let new_total = stored_multiset(
                                self.nodes(),
                                self.order@,
                                self.order@.len() as int,
                            );
                            let sm = stored0.to_multiset();
                            assert(self.nodes()[key].storage@ =~= Seq::<Input>::empty());
                            assert(self.nodes()[key].storage@.to_multiset()
                                =~= Multiset::<Input>::empty()) by {
                                self.nodes()[key].storage@.to_multiset_ensures();
                                assert forall|v: Input|
                                    self.nodes()[key].storage@.to_multiset().count(v) == 0 by {
                                    if self.nodes()[key].storage@.to_multiset().count(v) > 0 {
                                        assert(self.nodes()[key].storage@.contains(v));
                                    }
                                }
                            }
                            assert(new_total.add(sm) == prev_total.add(
                                self.nodes()[key].storage@.to_multiset(),
                            ));
                            assert(new_total.add(sm) =~= prev_total);
                        }
                        let ghost mut moved: int = 0;
                        while stored.len() > 0
                            invariant
                                0 <= moved <= stored0.len(),
                                stored@ == stored0.skip(moved),
                                data@ == data0 + stored0.take(moved),
                            decreases stored@.len(),
                        {
                            let item = stored.remove(0);
                            data.push(item);
                            proof {
                                assert(stored0.skip(moved).remove(0) =~= stored0.skip(moved + 1));
                                assert(item == stored0.skip(moved)[0]);
                                assert(item == stored0[moved]);
                                assert((data0 + stored0.take(moved)).push(item) =~= data0
                                    + stored0.take(moved + 1));
                                moved = moved + 1;
                            }
                        }
                        proof {
                            broadcast use vstd::multiset::group_multiset_axioms;

                            assert(stored0.skip(moved) =~= Seq::<Input>::empty());
                            assert(moved == stored0.len());
                            assert(stored0.take(moved) =~= stored0);
                            assert(data@ == data0 + stored0);
                            vstd::seq_lib::lemma_multiset_commutative(data0, stored0);
                            assert((data0 + stored0).to_multiset() == data0.to_multiset().add(
                                stored0.to_multiset(),
                            ));
                            let total = population_multiset(r0);
                            let new_total = stored_multiset(
                                self.nodes(),
                                self.order@,
                                self.order@.len() as int,
                            );
                            let dm = data0.to_multiset();
                            let sm2 = stored0.to_multiset();
                            assert(data@.to_multiset() == dm.add(sm2));
                            assert(new_total.add(data@.to_multiset()) =~= total) by {
                                assert forall|v: Input|
                                    new_total.add(data@.to_multiset()).count(v) == total.count(
                                    v,
                                ) by {
                                    assert(dm.add(sm2).count(v) == dm.count(v) + sm2.count(v));
                                    assert(new_total.add(dm.add(sm2)).count(v) == new_total.count(v)
                                        + dm.add(sm2).count(v));
                                    assert(new_total.add(sm2).count(v) == new_total.count(v)
                                        + sm2.count(v));
                                    assert(new_total.add(sm2) == stored_multiset(
                                        mhead,
                                        self.order@,
                                        self.order@.len() as int,
                                    ));
                                    assert(stored_multiset(
                                        mhead,
                                        self.order@,
                                        self.order@.len() as int,
                                    ).add(dm).count(v) == total.count(v));
                                }
                            }
                            assert(hits_preserved(r0, *self)) by {
                                assert forall|k: u128|
                                    r0.nodes().dom().contains(k) implies #[trigger] hit_kept(
                                    r0,
                                    *self,
                                    k,
                                ) by {
                                    assert(hit_kept(r0, head_net, k));
                                    if k != key {
                                        assert(self.nodes()[k] == mhead[k]);
                                    }
                                }
                            }
                            assert forall|j: int|
                                0 <= j < data@.len() implies (#[trigger] data@[j]).wf(
                                self.dimension as nat,
                            ) by {
                                if j < data0.len() {
                                    assert(data@[j] == data0[j]);
                                } else {
                                    assert(data@[j] == stored0[j - data0.len()]);
                                    assert(mhead[key].wf(self.dimension as nat));
                                }
                            }
                        }
                    },
                    None => {
                        proof {
                            assert(false);
                        }
                    },
                }
                i = i + 1;
            }
            let ghost before_shuffle = data@;
            shuffle_inputs(rng, &mut data);
            proof {
                before_shuffle.to_multiset_ensures();
                data@.to_multiset_ensures();
                assert forall|j: int|
                    0 <= j < data@.len() implies (#[trigger] data@[j]).wf(
                    self.dimension as nat,
                ) by {
                    assert(data@.contains(data@[j]));
                    assert(data@.to_multiset().count(data@[j]) > 0);
                    assert(before_shuffle.contains(data@[j]));
                }
            }
            while data.len() > 0
                invariant
                    self.wf(),
                    r0.wf(),
                    self.order@.len() >= r0.order@.len(),
                    population_multiset(*self).add(data@.to_multiset()) == population_multiset(r0),
                    hits_preserved(r0, *self),
                    *self == (Network {
                        min_weights: self.min_weights,
                        max_weights: self.max_weights,
                        order: self.order,
                        index: self.index,
                        inserted: self.inserted,
                        ..r0
                    }),
                    forall|j: int|
                        0 <= j < data@.len() ==> (#[trigger] data@[j]).wf(self.dimension as nat),
                decreases data@.len(),
            {
                let ghost d0 = data@;
                let ghost s_pre = *self;
                let item = data.remove(0);
                let ghost item_g = item;
                self.train(item, false);
                proof {
                    broadcast use vstd::multiset::group_multiset_axioms;

                    d0.to_multiset_ensures();
                    assert(item_g == d0[0]);
                    assert(data@.to_multiset() =~= d0.to_multiset().remove(d0[0]));
                    assert(d0.contains(d0[0]));
                    assert(d0.to_multiset().count(d0[0]) > 0);
                    assert(population_multiset(*self).add(data@.to_multiset())
                        =~= population_multiset(s_pre).add(d0.to_multiset())) by {
                        assert(population_multiset(*self) == population_multiset(s_pre).insert(
                            d0[0],
                        ));
                        assert forall|v: Input|
                            population_multiset(*self).add(data@.to_multiset()).count(v)
                            == population_multiset(s_pre).add(d0.to_multiset()).count(v) by {}
                    }
                    assert(hits_preserved(s_pre, *self)) by {
                        assert forall|k: u128|
                            s_pre.nodes().dom().contains(k) implies #[trigger] hit_kept(
                            s_pre,
                            *self,
                            k,
                        ) by {
                            let b = s_pre.bmu_spec(item_g.weights@);
                            if k != b {
                                assert(self.nodes()[k].last_hits == s_pre.nodes()[k].last_hits);
                                assert(self.nodes()[k].total_hits == s_pre.nodes()[k].total_hits);
                            } else {
                                assert(self.nodes()[b].last_hits@ == s_pre.nodes()[b].last_hits@);
                                assert(self.nodes()[b].total_hits == s_pre.nodes()[b].total_hits);
                            }
                        }
                    }
                    lemma_hits_preserved_trans(r0, s_pre, *self);
                }
            }
            proof {
                broadcast use vstd::multiset::group_multiset_axioms;

                assert(data@.to_multiset() =~= Multiset::<Input>::empty()) by {
                    data@.to_multiset_ensures();
                    assert forall|v: Input| data@.to_multiset().count(v) == 0 by {
                        if data@.to_multiset().count(v) > 0 {
                            assert(data@.contains(v));
                        }
                    }
                }
                assert(population_multiset(*self) =~= population_multiset(r0));
                lemma_hits_preserved_trans(*old(self), r0, *self);
            }
            round = round + 1;
        }
    }

    /// Retrains the whole map: compacts it by the node filter, rebalances
    /// the stored inputs for the given number of rounds, then compacts
    /// again. The map never shrinks below four nodes.
    pub fn retrain<F: Fn(&Node) -> bool>(
        &mut self,
        rebalance_count: usize,
        node_filter: &F,
        rng: &mut rand::rngs::StdRng,
    )
        requires
            old(self).wf(),
            forall|n: Node| #[trigger] node_filter.requires((&n,)),
        ensures
            final(self).wf(),
            final(self).order@.len() >= 4,
            exists|mid1: Network, mid2: Network|
                #![trigger rebalance_post(mid1, mid2)]
                compact_post(*old(self), mid1, *node_filter) && rebalance_post(mid1, mid2)
                    && compact_post(mid2, *final(self), *node_filter),
            *final(self) == (Network {
                min_weights: final(self).min_weights,
                max_weights: final(self).max_weights,
                order: final(self).order,
                index: final(self).index,
                inserted: final(self).inserted,
                ..*old(self)
            }),
    {
        self.compact(node_filter);
        let ghost mid1 = *self;
        self.rebalance(rebalance_count, rng);
        let ghost mid2 = *self;
        self.compact(node_filter);
        proof {
            assert(compact_post(*old(self), mid1, *node_filter) && rebalance_post(mid1, mid2)
                && compact_post(mid2, *final(self), *node_filter));
        }
    }
}

/// A well-formed map never has fewer than four nodes: the floor holds after
/// construction and is kept by every operation, compaction included.
pub proof fn lemma_size_floor(network: Network)
    requires
        network.wf(),
    ensures
        network.order@.len() >= 4,
{
}

/// The error of the best matching unit after one training step's
/// bookkeeping, before any case acts: its old error plus the quantisation
/// error, saturating.
pub open spec fn trained_bmu_error(pre: Network, w: Seq<i64>, dist: int) -> int {
    capped_error(pre.nodes()[pre.bmu_spec(w)].error + dist)
}

/// When a training step distributes error (the unit exceeds the threshold
/// on an interior node), the whole step's effect on every node is exact:
/// the unit's error drops to half the threshold and every patch neighbour's
/// error grows by its own error scaled by the distribution factor over its
/// Manhattan offset, weights and storages untouched but for the unit's
/// stored input.
pub open spec fn trained_case_error_distribution(
    pre: Network,
    post: Network,
    input: Input,
    dist: int,
) -> bool {
    let b = pre.bmu_spec(input.weights@);
    let c = pre.nodes()[b].coordinate;
    (trained_bmu_error(pre, input.weights@, dist) > pre.growing_threshold && !boundary_spec(
        pre.nodes(),
        c,
    )) ==> {
        &&& post.nodes().dom() == pre.nodes().dom()
        &&& post.order@ == pre.order@
        &&& forall|k: u128|
            pre.nodes().dom().contains(k) && k != b ==> #[trigger] same_but_error(
                post.nodes()[k],
                pre.nodes()[k],
                distribution_target(
                    pre.nodes()[k],
                    c,
                    pre.distribution_factor as int,
                    pre.growing_threshold as int,
                ),
            )
        &&& post.nodes()[b].error == pre.growing_threshold as int / 2
        &&& post.nodes()[b].weights == pre.nodes()[b].weights
    }
}

/// When a training step adjusts weights (the unit stays within the
/// threshold), the whole step's effect on every node is exact: the unit and
/// every patch neighbour move toward the input by the learning rate
/// effective at the map's size, errors and storages untouched but for the
/// unit's bookkeeping.
pub open spec fn trained_case_weight_adjustment(
    pre: Network,
    post: Network,
    input: Input,
    dist: int,
) -> bool {
    let b = pre.bmu_spec(input.weights@);
    let c = pre.nodes()[b].coordinate;
    let eta = effective_rate(pre.learning_rate as int, pre.order@.len() as int);
    (trained_bmu_error(pre, input.weights@, dist) <= pre.growing_threshold) ==> {
        &&& post.nodes().dom() == pre.nodes().dom()
        &&& post.order@ == pre.order@
        &&& forall|k: u128|
            pre.nodes().dom().contains(k) && k != b ==> #[trigger] same_but_weights(
                post.nodes()[k],
                pre.nodes()[k],
                adjustment_target(pre.nodes()[k], c, input.weights@, eta),
            )
        &&& post.nodes()[b].weights@ == adjusted_vec(
            pre.nodes()[b].weights@,
            input.weights@,
            eta,
        )
        &&& post.nodes()[b].error == trained_bmu_error(pre, input.weights@, dist)
    }
}

/// Side counts and sums over a patch read only the domain and the weights,
/// so two maps equal in those agree on them.
proof fn lemma_side_specs_same(
    m1: Map<u128, Node>,
    m2: Map<u128, Node>,
    c: Coordinate,
    r: int,
    d: int,
    close: bool,
)
    requires
        m1.dom() == m2.dom(),
        forall|k: u128|
            m1.dom().contains(k) ==> (#[trigger] m2[k]).weights == m1[k].weights,
    ensures
        side_count(m2, c, r, close) == side_count(m1, c, r, close),
        side_sum(m2, c, r, d, close) == side_sum(m1, c, r, d, close),
    decreases r,
{
    if r > 0 {
        lemma_side_specs_same(m1, m2, c, r - 1, d, close);
        assert(present_at(m2, c, r - 1) == present_at(m1, c, r - 1));
        if r - 1 != 12 && present_at(m1, c, r - 1) && rank_is_close(r - 1) == close {
            let cc = rank_coord(c, r - 1).unwrap();
            assert(m2[key_of(cc)].weights == m1[key_of(cc)].weights);
        }
    }
}

/// The starting weights of a grown node, the free sides of a coordinate and
/// the boundary test read only the domain, coordinates and weights of the
/// map, never its errors, hit histories or storages.
pub proof fn lemma_grown_specs_same(
    m1: Map<u128, Node>,
    m2: Map<u128, Node>,
    c: Coordinate,
    dim: nat,
    env_min: Seq<i64>,
    env_max: Seq<i64>,
)
    requires
        m1.dom() == m2.dom(),
        forall|k: u128|
            m1.dom().contains(k) ==> (#[trigger] m2[k]).weights == m1[k].weights
                && m2[k].coordinate == m1[k].coordinate,
    ensures
        grown_weights(m2, c, dim, env_min, env_max) == grown_weights(m1, c, dim, env_min, env_max),
        grown_coords(m2, c) == grown_coords(m1, c),
        boundary_spec(m2, c) == boundary_spec(m1, c),
{
    lemma_side_specs_same(m1, m2, c, 25, 0, true);
    lemma_side_specs_same(m1, m2, c, 25, 0, false);
    assert forall|d: int| 0 <= d < dim implies side_sum(m2, c, 25, d, true) == side_sum(
        m1,
        c,
        25,
        d,
        true,
    ) && side_sum(m2, c, 25, d, false) == side_sum(m1, c, 25, d, false) by {
        lemma_side_specs_same(m1, m2, c, 25, d, true);
        lemma_side_specs_same(m1, m2, c, 25, d, false);
    }
    assert(grown_weights(m2, c, dim, env_min, env_max) =~= grown_weights(
        m1,
        c,
        dim,
        env_min,
        env_max,
    ));
    assert(grown_coords(m2, c) == grown_coords(m1, c));
}

/// When a training step grows the map (the unit exceeds the threshold on a
/// boundary node), the whole step's effect is exact: a fresh node appears
/// on each free cardinal side of the unit, with the midpoint-or-
/// extrapolation starting weights computed from the patch as it stood
/// before the step, and no existing node changes but for the unit's
/// bookkeeping.
pub open spec fn trained_case_growth(pre: Network, post: Network, input: Input, dist: int) -> bool {
    let b = pre.bmu_spec(input.weights@);
    let c = pre.nodes()[b].coordinate;
    (trained_bmu_error(pre, input.weights@, dist) > pre.growing_threshold && boundary_spec(
        pre.nodes(),
        c,
    )) ==> {
        &&& post.order@ == pre.order@ + grown_coords(pre.nodes(), c).map_values(
            |cc: Coordinate| key_of(cc),
        )
        &&& forall|k: u128|
            pre.nodes().dom().contains(k) && k != b ==> #[trigger] post.nodes()[k]
                == pre.nodes()[k]
        &&& post.nodes()[b].error == trained_bmu_error(pre, input.weights@, dist)
        &&& post.nodes()[b].weights == pre.nodes()[b].weights
        &&& forall|k: u128|
            post.nodes().dom().contains(k) && !pre.nodes().dom().contains(k)
                ==> is_fresh_node(
                #[trigger] post.nodes()[k],
                post.nodes()[k].coordinate,
                grown_weights(
                    pre.nodes(),
                    post.nodes()[k].coordinate,
                    pre.dimension as nat,
                    pre.min_weights@,
                    pre.max_weights@,
                ),
            )
    }
}

/// The multiset of all inputs stored across the first `n` nodes of an
/// insertion order.
pub open spec fn stored_multiset(m: Map<u128, Node>, order: Seq<u128>, n: int) -> Multiset<Input>
    decreases n,
{
    if n <= 0 {
        Multiset::empty()
    } else {
        stored_multiset(m, order, n - 1).add(m[order[n - 1]].storage@.to_multiset())
    }
}

/// The multiset of all inputs the map stores.
pub open spec fn population_multiset(network: Network) -> Multiset<Input> {
    stored_multiset(network.nodes(), network.order@, network.order@.len() as int)
}

/// Changing one node's storage moves exactly that storage's multiset.
proof fn lemma_stored_multiset_set_storage(
    m1: Map<u128, Node>,
    m2: Map<u128, Node>,
    order: Seq<u128>,
    n: int,
    key: u128,
)
    requires
        0 <= n <= order.len(),
        order.no_duplicates(),
        m1.dom().contains(key),
        forall|k: u128|
            m1.dom().contains(k) && k != key ==> (#[trigger] m2[k]).storage == m1[k].storage,
        forall|j: int| 0 <= j < n ==> m1.dom().contains(#[trigger] order[j]),
    ensures
        order.take(n).contains(key) ==> stored_multiset(m2, order, n).add(
            m1[key].storage@.to_multiset(),
        ) == stored_multiset(m1, order, n).add(m2[key].storage@.to_multiset()),
        !order.take(n).contains(key) ==> stored_multiset(m2, order, n) == stored_multiset(
            m1,
            order,
            n,
        ),
    decreases n,
{
    broadcast use vstd::multiset::group_multiset_axioms;

    if n > 0 {
        lemma_stored_multiset_set_storage(m1, m2, order, n - 1, key);
        assert(order.take(n).drop_last() =~= order.take(n - 1));
        let last = order[n - 1];
        assert(order.take(n).contains(key) == (order.take(n - 1).contains(key) || last
            == key)) by {
            if order.take(n).contains(key) {
                let j = choose|j: int| 0 <= j < n && #[trigger] order.take(n)[j] == key;
                if j < n - 1 {
                    assert(order.take(n - 1)[j] == key);
                }
            }
            if order.take(n - 1).contains(key) {
                let j = choose|j: int| 0 <= j < n - 1 && #[trigger] order.take(n - 1)[j] == key;
                assert(order.take(n)[j] == key);
            }
            if last == key {
                assert(order.take(n)[n - 1] == key);
            }
        }
        let prev1 = stored_multiset(m1, order, n - 1);
        let prev2 = stored_multiset(m2, order, n - 1);
        let s1m = m1[key].storage@.to_multiset();
        let s2m = m2[key].storage@.to_multiset();
        if last == key {
            assert(!order.take(n - 1).contains(key)) by {
                if order.take(n - 1).contains(key) {
                    let j = choose|j: int|
                        0 <= j < n - 1 && #[trigger] order.take(n - 1)[j] == key;
                    assert(order[j] == order[n - 1]);
                }
            }
            assert(prev2 == prev1);
            assert(stored_multiset(m2, order, n).add(s1m) =~= stored_multiset(m1, order, n).add(
                s2m,
            )) by {
                assert forall|v: Input|
                    prev2.add(s2m).add(s1m).count(v) == prev1.add(s1m).add(s2m).count(v) by {
                    assert(prev2.add(s2m).add(s1m).count(v) == prev2.add(s2m).count(v)
                        + s1m.count(v));
                    assert(prev2.add(s2m).count(v) == prev2.count(v) + s2m.count(v));
                    assert(prev1.add(s1m).add(s2m).count(v) == prev1.add(s1m).count(v)
                        + s2m.count(v));
                    assert(prev1.add(s1m).count(v) == prev1.count(v) + s1m.count(v));
                }
            }
        } else {
            assert(m2[last].storage == m1[last].storage);
            let lastm = m1[last].storage@.to_multiset();
            if order.take(n - 1).contains(key) {
                assert(prev2.add(s1m) == prev1.add(s2m));
                assert(stored_multiset(m2, order, n).add(s1m) =~= stored_multiset(m1, order, n).add(
                    s2m,
                )) by {
                    assert forall|v: Input|
                        prev2.add(lastm).add(s1m).count(v) == prev1.add(lastm).add(s2m).count(
                        v,
                    ) by {
                        assert(prev2.add(s1m).count(v) == prev1.add(s2m).count(v));
                        assert(prev2.add(s1m).count(v) == prev2.count(v) + s1m.count(v));
                        assert(prev1.add(s2m).count(v) == prev1.count(v) + s2m.count(v));
                        assert(prev2.add(lastm).add(s1m).count(v) == prev2.count(v) + lastm.count(v)
                            + s1m.count(v));
                        assert(prev1.add(lastm).add(s2m).count(v) == prev1.count(v) + lastm.count(v)
                            + s2m.count(v));
                    }
                }
            }
        }
    }
}

/// Pushing one input onto one node's storage inserts it into the stored
/// multiset of any order prefix holding that node.
proof fn lemma_stored_prefix_push(
    m1: Map<u128, Node>,
    m2: Map<u128, Node>,
    o1: Seq<u128>,
    o2: Seq<u128>,
    b: u128,
    x: Input,
    i: int,
)
    requires
        0 <= i <= o1.len(),
        o1.no_duplicates(),
        forall|j: int| 0 <= j < o1.len() ==> #[trigger] o2[j] == o1[j],
        forall|j: int| 0 <= j < o1.len() ==> m1.dom().contains(#[trigger] o1[j]),
        m1.dom().contains(b),
        m2[b].storage@ == m1[b].storage@.push(x),
        forall|k: u128|
            m1.dom().contains(k) && k != b ==> (#[trigger] m2[k]).storage@ == m1[k].storage@,
    ensures
        stored_multiset(m2, o2, i) == (if o1.take(i).contains(b) {
            stored_multiset(m1, o1, i).insert(x)
        } else {
            stored_multiset(m1, o1, i)
        }),
    decreases i,
{
    broadcast use vstd::multiset::group_multiset_axioms;

    if i > 0 {
        lemma_stored_prefix_push(m1, m2, o1, o2, b, x, i - 1);
        assert(o1.take(i).drop_last() =~= o1.take(i - 1));
        let last = o1[i - 1];
        assert(o2[i - 1] == last);
        assert(o1.take(i).contains(b) == (o1.take(i - 1).contains(b) || last == b)) by {
            if o1.take(i).contains(b) {
                let j = choose|j: int| 0 <= j < i && #[trigger] o1.take(i)[j] == b;
                if j < i - 1 {
                    assert(o1.take(i - 1)[j] == b);
                }
            }
            if o1.take(i - 1).contains(b) {
                let j = choose|j: int| 0 <= j < i - 1 && #[trigger] o1.take(i - 1)[j] == b;
                assert(o1.take(i)[j] == b);
            }
            if last == b {
                assert(o1.take(i)[i - 1] == b);
            }
        }
        if last == b {
            assert(!o1.take(i - 1).contains(b)) by {
                if o1.take(i - 1).contains(b) {
                    let j = choose|j: int| 0 <= j < i - 1 && #[trigger] o1.take(i - 1)[j] == b;
                    assert(o1[j] == o1[i - 1]);
                }
            }
            m1[b].storage@.to_multiset_ensures();
            assert(m2[b].storage@.to_multiset() =~= m1[b].storage@.to_multiset().insert(x));
            assert(stored_multiset(m2, o2, i) =~= stored_multiset(m1, o1, i).insert(x));
        } else {
            assert(m2[last].storage@ == m1[last].storage@);
            if o1.take(i - 1).contains(b) {
                assert(stored_multiset(m2, o2, i) =~= stored_multiset(m1, o1, i).insert(x));
            }
        }
    }
}

/// Nodes with empty storages contribute nothing to the stored multiset.
proof fn lemma_stored_suffix_empty(m: Map<u128, Node>, o: Seq<u128>, lo: int, hi: int)
    requires
        0 <= lo <= hi <= o.len(),
        forall|j: int| lo <= j < hi ==> m[#[trigger] o[j]].storage@ == Seq::<Input>::empty(),
    ensures
        stored_multiset(m, o, hi) == stored_multiset(m, o, lo),
    decreases hi - lo,
{
    broadcast use vstd::multiset::group_multiset_axioms;

    if hi > lo {
        lemma_stored_suffix_empty(m, o, lo, hi - 1);
        let s = m[o[hi - 1]].storage@;
        s.to_multiset_ensures();
        assert(s.to_multiset().len() == 0);
        assert(s.to_multiset() =~= Multiset::<Input>::empty()) by {
            assert forall|v: Input| s.to_multiset().count(v) == 0 by {
                if s.to_multiset().count(v) > 0 {
                    assert(s.contains(v));
                }
            }
        }
        assert(stored_multiset(m, o, hi) =~= stored_multiset(m, o, hi - 1));
    }
}

/// One training step inserts exactly the stored input into the map's stored
/// multiset: the best matching unit gains it, grown nodes start empty, and
/// no other storage changes.
pub proof fn lemma_stored_multiset_after_train(
    m1: Map<u128, Node>,
    o1: Seq<u128>,
    m2: Map<u128, Node>,
    o2: Seq<u128>,
    b: u128,
    x: Input,
)
    requires
        o1.no_duplicates(),
        o2.no_duplicates(),
        o2.len() >= o1.len(),
        o2.take(o1.len() as int) == o1,
        o1.to_set() == m1.dom(),
        o2.to_set() == m2.dom(),
        m1.dom().contains(b),
        m2[b].storage@ == m1[b].storage@.push(x),
        forall|k: u128|
            m1.dom().contains(k) && k != b ==> (#[trigger] m2[k]).storage@ == m1[k].storage@,
        forall|k: u128|
            m2.dom().contains(k) && !m1.dom().contains(k) ==> (#[trigger] m2[k]).storage@
                == Seq::<Input>::empty(),
    ensures
        stored_multiset(m2, o2, o2.len() as int) == stored_multiset(
            m1,
            o1,
            o1.len() as int,
        ).insert(x),
{
    let n1 = o1.len() as int;
    assert forall|j: int| 0 <= j < n1 implies #[trigger] o2[j] == o1[j] by {
        assert(o2.take(n1)[j] == o1[j]);
    }
    assert forall|j: int| 0 <= j < n1 implies m1.dom().contains(#[trigger] o1[j]) by {
        assert(o1.to_set().contains(o1[j]));
    }
    lemma_stored_prefix_push(m1, m2, o1, o2, b, x, n1);
    assert(o1.take(n1).contains(b)) by {
        assert(o1.to_set().contains(b));
        assert(o1.take(n1) =~= o1);
    }
    assert forall|j: int|
        n1 <= j < o2.len() implies m2[#[trigger] o2[j]].storage@ == Seq::<Input>::empty() by {
        assert(o2.to_set().contains(o2[j]));
        if m1.dom().contains(o2[j]) {
            assert(o1.contains(o2[j]));
            let j2 = choose|j2: int| 0 <= j2 < o1.len() && #[trigger] o1[j2] == o2[j];
            assert(o2[j2] == o2[j]);
            assert(false);
        }
    }
    lemma_stored_suffix_empty(m2, o2, n1, o2.len() as int);
}

/// The node under key `k` survives into `post` with the usage history it
/// has in `pre`.
pub open spec fn hit_kept(pre: Network, post: Network, k: u128) -> bool {
    &&& post.nodes().dom().contains(k)
    &&& post.nodes()[k].last_hits@ == pre.nodes()[k].last_hits@
    &&& post.nodes()[k].total_hits == pre.nodes()[k].total_hits
}

/// Every node of `pre` survives into `post` with its usage history intact.
pub open spec fn hits_preserved(pre: Network, post: Network) -> bool {
    forall|k: u128| pre.nodes().dom().contains(k) ==> #[trigger] hit_kept(pre, post, k)
}

/// Usage-history preservation composes.
pub proof fn lemma_hits_preserved_trans(a: Network, b: Network, c: Network)
    requires
        hits_preserved(a, b),
        hits_preserved(b, c),
    ensures
        hits_preserved(a, c),
{
    assert forall|k: u128|
        a.nodes().dom().contains(k) implies #[trigger] hit_kept(a, c, k) by {
        assert(hit_kept(a, b, k));
        assert(hit_kept(b, c, k));
    }
}

/// What compaction does: survivors are untouched, removals are
/// filter-rejected, and a rejected node survives only when the four-node
/// floor was reached; everything but the node set is framed.
pub open spec fn compact_post<F: Fn(&Node) -> bool>(
    pre: Network,
    post: Network,
    node_filter: F,
) -> bool {
    &&& post.wf()
    &&& post.order@.len() <= pre.order@.len()
    &&& forall|k: u128|
        post.nodes().dom().contains(k) ==> pre.nodes().dom().contains(k)
            && #[trigger] post.nodes()[k] == pre.nodes()[k]
    &&& forall|k: u128|
        pre.nodes().dom().contains(k) && !post.nodes().dom().contains(k)
            ==> node_filter.ensures((&pre.nodes()[k],), false)
    &&& forall|k: u128|
        pre.nodes().dom().contains(k) && !node_filter.ensures((&pre.nodes()[k],), true)
            && post.nodes().dom().contains(k) ==> post.order@.len() == 4
    &&& post == (Network { order: post.order, index: post.index, ..pre })
}

/// What rebalancing does: the stored multiset and every usage history are
/// preserved, the map only grows, and everything but the nodes, order and
/// envelope is framed.
pub open spec fn rebalance_post(pre: Network, post: Network) -> bool {
    &&& post.wf()
    &&& post.order@.len() >= pre.order@.len()
    &&& population_multiset(post) == population_multiset(pre)
    &&& hits_preserved(pre, post)
    &&& post == (Network {
        min_weights: post.min_weights,
        max_weights: post.max_weights,
        order: post.order,
        index: post.index,
        inserted: post.inserted,
        ..pre
    })
}

/// Pushing one more vector narrows the fold to one element-wise step.
pub proof fn lemma_envelope_push(ss: Seq<Seq<i64>>, w: Seq<i64>)
    requires
        ss.len() >= 1,
    ensures
        envelope_min(ss.push(w)) == elem_min(envelope_min(ss), w),
        envelope_max(ss.push(w)) == elem_max(envelope_max(ss), w),
{
    assert(ss.push(w).drop_last() =~= ss);
    assert(ss.push(w).last() == w);
}

} // verus!
