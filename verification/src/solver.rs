//! The evolution driver: a population of candidate solutions held in the
//! growing self-organising map, a selection that favours Pareto-undominated
//! individuals, and a refinement loop that repeatedly mutates a selected
//! parent and stores the child back into the population.

use vstd::prelude::*;
use crate::network::{population_multiset, stored_multiset, Network};
use crate::node::{weights_in_range, Input, Node};

verus! {

/// Defines instant refinement speed type.
pub enum RefinementSpeed {
    /// Slow speed, with a ratio estimation in per-mille.
    Slow(i64),
    /// Moderate speed.
    Moderate,
}

/// Statistics of a refinement process.
pub struct HeuristicStatistics {
    /// How many generations have been produced.
    pub generation: usize,
}

/// A refinement method over a problem's search space.
pub enum RefinementMethod {
    /// Refine the whole problem at once.
    Whole,
    /// Refine a partial view of the problem, of the given share in
    /// per-mille.
    Partial(i64),
}

/// A mutation operator, implemented by the embedding application: produces
/// a new individual from a parent, keeping the fitness dimension and the
/// weight operating range.
pub trait SearchOperator {
    /// Mutates a parent into a new candidate individual.
    fn search(&self, parent: &Input) -> (r: Input)
        ensures
            r.weights@.len() == parent.weights@.len(),
            weights_in_range(r.weights@),
    ;
}

/// Information needed to perform a solution refinement process: the
/// population, a keyed opaque state store and the running statistics.
pub struct RefinementContext {
    /// The population of candidate solutions.
    pub population: Network,
    /// A collection of data associated with the refinement process, keyed
    /// by small integers.
    pub state: Vec<Option<i64>>,
    /// The refinement statistics.
    pub statistics: HeuristicStatistics,
}

impl RefinementContext {
    /// The value stored under a state key.
    pub open spec fn state_at(self, key: int) -> Option<i64> {
        if 0 <= key < self.state@.len() {
            self.state@[key]
        } else {
            None
        }
    }

    /// Creates a new refinement context around a population, with empty
    /// state and statistics.
    pub fn new(population: Network) -> (r: RefinementContext)
        ensures
            r.population == population,
            forall|key: int| #[trigger] r.state_at(key) is None,
            r.statistics.generation == 0,
    {
        RefinementContext {
            population,
            state: Vec::new(),
            statistics: HeuristicStatistics { generation: 0 },
        }
    }

    /// Stores a value in the keyed state.
    pub fn set_state(&mut self, key: i32, value: i64)
        requires
            0 <= key < 1024,
        ensures
            final(self).state_at(key as int) == Some(value),
            forall|k: int|
                k != key ==> #[trigger] final(self).state_at(k) == old(self).state_at(k),
            final(self).population == old(self).population,
            final(self).statistics == old(self).statistics,
    {
        let k = key as usize;
        while self.state.len() <= k
            invariant
                k < 1024,
                forall|j: int|
                    0 <= j < self.state@.len() ==> #[trigger] self.state@[j] == old(
                        self,
                    ).state_at(j),
                self.state@.len() >= old(self).state@.len(),
                self.population == old(self).population,
                self.statistics == old(self).statistics,
            decreases k + 1 - self.state@.len(),
        {
            self.state.push(None);
        }
        self.state.set(k, Some(value));
    }

    /// Reads a value from the keyed state.
    pub fn get_state(&self, key: i32) -> (r: Option<i64>)
        requires
            key >= 0,
        ensures
            r == self.state_at(key as int),
    {
        if (key as usize) < self.state.len() {
            self.state[key as usize]
        } else {
            None
        }
    }
}

/// One fitness vector dominates another when it is no worse on every
/// objective and strictly better on at least one (minimisation).
pub open spec fn spec_dominates(a: Seq<i64>, b: Seq<i64>) -> bool {
    &&& a.len() == b.len()
    &&& forall|i: int| 0 <= i < a.len() ==> #[trigger] a[i] <= b[i]
    &&& exists|i: int| 0 <= i < a.len() && #[trigger] a[i] < b[i]
}

/// The sum of a fitness vector's components: the aggregate fitness.
pub open spec fn fitness_sum(s: Seq<i64>) -> int
    decreases s.len(),
{
    if s.len() == 0 {
        0
    } else {
        fitness_sum(s.drop_last()) + s.last()
    }
}

/// A dominating fitness vector has a strictly smaller aggregate fitness.
pub proof fn lemma_dominates_sum(a: Seq<i64>, b: Seq<i64>)
    requires
        spec_dominates(a, b),
    ensures
        fitness_sum(a) < fitness_sum(b),
{
    let i = choose|i: int| 0 <= i < a.len() && #[trigger] a[i] < b[i];
    lemma_fitness_sum_lt(a, b, i);
}

/// An element-wise bound with one strict component makes the sum strict.
proof fn lemma_fitness_sum_lt(a: Seq<i64>, b: Seq<i64>, i: int)
    requires
        a.len() == b.len(),
        forall|j: int| 0 <= j < a.len() ==> #[trigger] a[j] <= b[j],
        0 <= i < a.len(),
        a[i] < b[i],
    ensures
        fitness_sum(a) < fitness_sum(b),
    decreases a.len(),
{
    let a1 = a.drop_last();
    let b1 = b.drop_last();
    assert(forall|j: int| 0 <= j < a1.len() ==> #[trigger] a1[j] <= b1[j]);
    if i == a.len() - 1 {
        lemma_fitness_sum_le(a1, b1);
    } else {
        lemma_fitness_sum_lt(a1, b1, i);
    }
}

/// An element-wise bound carries over to the sums.
proof fn lemma_fitness_sum_le(a: Seq<i64>, b: Seq<i64>)
    requires
        a.len() == b.len(),
        forall|j: int| 0 <= j < a.len() ==> #[trigger] a[j] <= b[j],
    ensures
        fitness_sum(a) <= fitness_sum(b),
    decreases a.len(),
{
    if a.len() > 0 {
        lemma_fitness_sum_le(a.drop_last(), b.drop_last());
    }
}

/// Tests Pareto dominance of one fitness vector over another.
pub fn dominates(a: &Vec<i64>, b: &Vec<i64>) -> (r: bool)
    requires
        a@.len() == b@.len(),
    ensures
        r == spec_dominates(a@, b@),
{
    let mut all_le = true;
    let mut any_lt = false;
    let mut i: usize = 0;
    while i < a.len()
        invariant
            0 <= i <= a@.len(),
            a@.len() == b@.len(),
            all_le == (forall|j: int| 0 <= j < i ==> #[trigger] a@[j] <= b@[j]),
            any_lt == (exists|j: int| 0 <= j < i && #[trigger] a@[j] < b@[j]),
        decreases a@.len() - i,
    {
        if a[i] > b[i] {
            all_le = false;
        }
        if a[i] < b[i] {
            proof {
                assert(a@[i as int] < b@[i as int]);
            }
            any_lt = true;
        }
        i = i + 1;
    }
    all_le && any_lt
}


/// The weight vectors of all inputs stored across the first `n` nodes of
/// the map's insertion order, oldest node first.
pub open spec fn stored_weights(m: Map<u128, Node>, order: Seq<u128>, n: int) -> Seq<Seq<i64>>
    decreases n,
{
    if n <= 0 {
        Seq::empty()
    } else {
        stored_weights(m, order, n - 1) + m[order[n - 1]].storage@.map_values(
            |inp: Input| inp.weights@,
        )
    }
}

/// The weight vectors of the inputs the population currently stores.
pub open spec fn population_weights(network: Network) -> Seq<Seq<i64>> {
    stored_weights(network.nodes(), network.order@, network.order@.len() as int)
}

/// Collects every stored input of the population, in insertion order of the
/// nodes and of each node's storage.
pub fn all_stored(network: &Network) -> (r: Vec<Input>)
    requires
        network.wf(),
    ensures
        r@.map_values(|inp: Input| inp.weights@) == population_weights(*network),
        forall|j: int|
            0 <= j < r@.len() ==> (#[trigger] r@[j]).wf(network.dimension as nat),
{
    let ghost view_of = |inp: Input| inp.weights@;
    let mut out: Vec<Input> = Vec::new();
    let mut i: usize = 0;
    proof {
        assert(out@.map_values(view_of) =~= stored_weights(network.nodes(), network.order@, 0));
    }
    while i < network.order.len()
        invariant
            0 <= i <= network.order@.len(),
            network.wf(),
            view_of == (|inp: Input| inp.weights@),
            out@.map_values(view_of) == stored_weights(network.nodes(), network.order@, i as int),
            forall|j: int|
                0 <= j < out@.len() ==> (#[trigger] out@[j]).wf(network.dimension as nat),
        decreases network.order@.len() - i,
    {
        let key = network.order[i];
        proof {
            assert(network.order@.to_set().contains(key));
        }
        let node = network.index.get(key);
        match node {
            Some(node) => {
                let ghost stored0 = node.storage@;
                let ghost out0 = out@.map_values(view_of);
                let mut j: usize = 0;
                proof {
                    assert(out@.map_values(view_of) =~= out0 + stored0.map_values(view_of).take(
                        0,
                    ));
                }
                while j < node.storage.len()
                    invariant
                        0 <= j <= node.storage@.len(),
                        node.storage@ == stored0,
                        view_of == (|inp: Input| inp.weights@),
                        out@.map_values(view_of) == out0 + stored0.map_values(view_of).take(
                            j as int,
                        ),
                        network.wf(),
                        node.wf(network.dimension as nat),
                        forall|j2: int|
                            0 <= j2 < out@.len() ==> (#[trigger] out@[j2]).wf(
                                network.dimension as nat,
                            ),
                    decreases node.storage@.len() - j,
                {
                    let item = Input {
                        weights: crate::network::copy_weights(&node.storage[j].weights),
                    };
                    let ghost outpre = out@;
                    out.push(item);
                    proof {
                        assert(item.weights@ == stored0[j as int].weights@);
                        assert(out@.map_values(view_of) =~= outpre.map_values(view_of).push(
                            item.weights@,
                        ));
                        assert(out@.map_values(view_of) =~= out0 + stored0.map_values(
                            view_of,
                        ).take(j + 1));
                    }
                    j = j + 1;
                }
                proof {
                    assert(stored0.map_values(view_of).take(stored0.len() as int)
                        =~= stored0.map_values(view_of));
                    assert(out@.map_values(view_of) =~= stored_weights(
                        network.nodes(),
                        network.order@,
                        i + 1,
                    ));
                }
            },
            None => {
                proof {
                    assert(false);
                }
            },
        }
        i = i + 1;
    }
    out
}

/// Computes the aggregate fitness of a fitness vector.
pub fn fitness_total(v: &Vec<i64>) -> (r: i64)
    requires
        weights_in_range(v@),
        v@.len() <= crate::node::DIM_LIMIT,
    ensures
        r == fitness_sum(v@),
{
    let mut sum: i64 = 0;
    let mut i: usize = 0;
    proof {
        assert(v@.take(0) =~= Seq::<i64>::empty());
    }
    while i < v.len()
        invariant
            0 <= i <= v@.len(),
            weights_in_range(v@),
            v@.len() <= crate::node::DIM_LIMIT,
            sum == fitness_sum(v@.take(i as int)),
            -(i as int) * crate::node::WEIGHT_LIMIT <= sum <= (i as int)
                * crate::node::WEIGHT_LIMIT,
        decreases v@.len() - i,
    {
        proof {
            assert(v@.take(i + 1).drop_last() =~= v@.take(i as int));
            assert(v@.take(i + 1).last() == v@[i as int]);
            assert((i as int) * crate::node::WEIGHT_LIMIT + crate::node::WEIGHT_LIMIT == (i as int
                + 1) * crate::node::WEIGHT_LIMIT) by (nonlinear_arith);
            assert(-(i as int) * crate::node::WEIGHT_LIMIT - crate::node::WEIGHT_LIMIT == -(
            i as int + 1) * crate::node::WEIGHT_LIMIT) by (nonlinear_arith);
            assert((i as int + 1) * crate::node::WEIGHT_LIMIT <= 128
                * crate::node::WEIGHT_LIMIT) by (nonlinear_arith)
                requires
                    0 <= i as int + 1 <= 128,
            ;
        }
        sum = sum + v[i];
        i = i + 1;
    }
    proof {
        assert(v@.take(v@.len() as int) =~= v@);
    }
    sum
}

/// Selects a parent from the population: the stored individual with the
/// smallest aggregate fitness, earliest first. Since dominance implies a
/// strictly smaller aggregate, no stored individual dominates the selected
/// one.
pub fn select_parent(network: &Network) -> (r: Option<Input>)
    requires
        network.wf(),
    ensures
        match r {
            Some(ind) => population_weights(*network).contains(ind.weights@) && ind.wf(
                network.dimension as nat,
            ) && forall|w: Seq<i64>|
                population_weights(*network).contains(w) ==> !spec_dominates(w, ind.weights@),
            None => population_weights(*network).len() == 0,
        },
{
    let ghost view_of = |inp: Input| inp.weights@;
    let flat = all_stored(network);
    if flat.len() == 0 {
        proof {
            assert(population_weights(*network).len() == flat@.map_values(view_of).len());
        }
        return None;
    }
    let mut best: usize = 0;
    let mut best_sum = fitness_total(&flat[0].weights);
    let mut i: usize = 1;
    while i < flat.len()
        invariant
            1 <= i <= flat@.len(),
            flat@.len() > 0,
            0 <= best < i,
            network.wf(),
            view_of == (|inp: Input| inp.weights@),
            flat@.map_values(view_of) == population_weights(*network),
            forall|j: int|
                0 <= j < flat@.len() ==> (#[trigger] flat@[j]).wf(network.dimension as nat),
            best_sum == fitness_sum(flat@[best as int].weights@),
            forall|j: int|
                0 <= j < i ==> best_sum <= fitness_sum((#[trigger] flat@[j]).weights@),
        decreases flat@.len() - i,
    {
        let s = fitness_total(&flat[i].weights);
        if s < best_sum {
            best = i;
            best_sum = s;
        }
        i = i + 1;
    }
    let sel = Input { weights: crate::network::copy_weights(&flat[best].weights) };
    proof {
        assert(sel.weights@ == flat@.map_values(view_of)[best as int]);
        assert(population_weights(*network).contains(sel.weights@));
        assert forall|w: Seq<i64>|
            population_weights(*network).contains(w) implies !spec_dominates(
            w,
            sel.weights@,
        ) by {
            if spec_dominates(w, sel.weights@) {
                lemma_dominates_sum(w, sel.weights@);
                let j = choose|j: int|
                    0 <= j < flat@.map_values(view_of).len() && flat@.map_values(view_of)[j] == w;
                assert(flat@[j].weights@ == w);
                assert(best_sum <= fitness_sum(flat@[j].weights@));
            }
        }
    }
    Some(sel)
}


/// The stored-weights sequence and the stored multiset count the same
/// inputs.
pub proof fn lemma_stored_sizes(m: Map<u128, Node>, order: Seq<u128>, n: int)
    ensures
        stored_weights(m, order, n).len() == stored_multiset(m, order, n).len(),
    decreases n,
{
    broadcast use vstd::multiset::group_multiset_axioms;

    if n > 0 {
        lemma_stored_sizes(m, order, n - 1);
        let s = m[order[n - 1]].storage@;
        s.to_multiset_ensures();
        assert(stored_multiset(m, order, n).len() == stored_multiset(m, order, n - 1).len()
            + s.to_multiset().len());
    }
}

/// Relies on `str::to_string`: hands back the same characters as an owned
/// string.
#[verifier::external_body]
fn str_to_string(s: &str) -> (r: String)
    ensures
        r@ == s@,
{
    s.to_string()
}

/// A vehicle routing problem solver based on an evolutionary algorithm.
pub struct Solver {
    /// How many generations the evolution runs for.
    pub max_generations: usize,
}

impl Solver {
    /// Runs the evolution: for each generation, selects a parent that no
    /// stored individual dominates, asks the operator for a mutated child
    /// and stores it back into the population, advancing the statistics.
    /// Returns the final best individual with its aggregate fitness; with a
    /// non-empty starting population every generation stores one child and
    /// a solution is owed, with an empty one the population is untouched and
    /// an error is reported.
    pub fn solve<O: SearchOperator>(self, ctx: &mut RefinementContext, operator: &O) -> (r: Result<
        (Input, i64),
        String,
    >)
        requires
            old(ctx).population.wf(),
        ensures
            final(ctx).population.wf(),
            final(ctx).population.dimension == old(ctx).population.dimension,
            final(ctx).statistics.generation as int == (if old(ctx).statistics.generation
                + self.max_generations <= usize::MAX {
                old(ctx).statistics.generation + self.max_generations
            } else {
                usize::MAX as int
            }),
            population_weights(old(ctx).population).len() > 0 ==> (r is Ok)
                && population_multiset(final(ctx).population).len() == population_multiset(
                old(ctx).population,
            ).len() + self.max_generations,
            population_weights(old(ctx).population).len() == 0 ==> (r is Err) && final(ctx).population == old(ctx).population,
            match r {
                Ok(sol) => population_weights(final(ctx).population).contains(sol.0.weights@)
                    && sol.1 == fitness_sum(sol.0.weights@) && forall|w: Seq<i64>|
                    population_weights(final(ctx).population).contains(w) ==> !spec_dominates(
                        w,
                        sol.0.weights@,
                    ),
                Err(_) => population_weights(final(ctx).population).len() == 0,
            },
    {
        proof {
            lemma_stored_sizes(
                old(ctx).population.nodes(),
                old(ctx).population.order@,
                old(ctx).population.order@.len() as int,
            );
        }
        let mut generation: usize = 0;
        while generation < self.max_generations
            invariant
                ctx.population.wf(),
                ctx.population.dimension == old(ctx).population.dimension,
                0 <= generation <= self.max_generations,
                ctx.statistics.generation as int == (if old(ctx).statistics.generation
                    + generation <= usize::MAX {
                    old(ctx).statistics.generation + generation
                } else {
                    usize::MAX as int
                }),
                population_weights(old(ctx).population).len() > 0 ==> population_multiset(
                    ctx.population,
                ).len() == population_multiset(old(ctx).population).len() + generation,
                population_weights(old(ctx).population).len() == 0 ==> ctx.population == old(ctx).population,
                *ctx == (RefinementContext {
                    population: ctx.population,
                    statistics: ctx.statistics,
                    ..*old(ctx)
                }),
            decreases self.max_generations - generation,
        {
            proof {
                lemma_stored_sizes(
                    ctx.population.nodes(),
                    ctx.population.order@,
                    ctx.population.order@.len() as int,
                );
            }
            let parent = select_parent(&ctx.population);
            match parent {
                Some(parent) => {
                    proof {
                        broadcast use vstd::multiset::lemma_insert_len;

                        if population_weights(old(ctx).population).len() == 0 {
                            lemma_stored_sizes(
                                old(ctx).population.nodes(),
                                old(ctx).population.order@,
                                old(ctx).population.order@.len() as int,
                            );
                            assert(false);
                        }
                    }
                    let child = operator.search(&parent);
                    ctx.population.store(child, generation);
                },
                None => {
                    proof {
                        if population_weights(old(ctx).population).len() > 0 {
                            lemma_stored_sizes(
                                old(ctx).population.nodes(),
                                old(ctx).population.order@,
                                old(ctx).population.order@.len() as int,
                            );
                            assert(population_multiset(ctx.population).len() > 0);
                            assert(population_weights(ctx.population).len() > 0);
                            assert(false);
                        }
                    }
                },
            }
            let g = ctx.statistics.generation;
            if g < usize::MAX {
                ctx.statistics.generation = g + 1;
            }
            generation = generation + 1;
        }
        proof {
            lemma_stored_sizes(
                ctx.population.nodes(),
                ctx.population.order@,
                ctx.population.order@.len() as int,
            );
        }
        let best = select_parent(&ctx.population);
        match best {
            Some(best) => {
                proof {
                    if population_weights(old(ctx).population).len() == 0 {
                        lemma_stored_sizes(
                            old(ctx).population.nodes(),
                            old(ctx).population.order@,
                            old(ctx).population.order@.len() as int,
                        );
                        assert(false);
                    }
                }
                let cost = fitness_total(&best.weights);
                Ok((best, cost))
            },
            None => {
                proof {
                    if population_weights(old(ctx).population).len() > 0 {
                        lemma_stored_sizes(
                            old(ctx).population.nodes(),
                            old(ctx).population.order@,
                            old(ctx).population.order@.len() as int,
                        );
                        assert(population_multiset(ctx.population).len() > 0);
                        assert(population_weights(ctx.population).len() > 0);
                        assert(false);
                    }
                }
                Err(str_to_string("cannot find any solution"))
            },
        }
    }
}

/// Tries to create a partial refinement method. Partial refinement is not
/// offered by this library, so every call reports failure to the caller.
pub fn create_partial_refinement_method(ctx: &RefinementContext) -> (r: Result<
    RefinementMethod,
    String,
>)
    ensures
        r is Err,
{
    let _ = ctx;
    Err(str_to_string("partial refinement method is not available"))
}

} // verus!
