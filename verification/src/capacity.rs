//! The capacity constraint module: per-route cached load state and the hard
//! admissibility checks of the insertion heuristic. A demand is a signed
//! scalar: positive picks goods up along the tour, negative delivers goods
//! loaded at the start. The module owns the current, maximum-future and
//! maximum-past capacity state keys.

use vstd::prelude::*;
use crate::constraints::{CURRENT_CAPACITY_KEY, MAX_FUTURE_CAPACITY_KEY, MAX_PAST_CAPACITY_KEY};
use crate::route::{
    Activity, Route, RouteContext, RouteState, DEMAND_LIMIT, ROUTE_LEN_LIMIT,
};

verus! {

/// The violation code of the capacity constraint.
pub const CAPACITY_CONSTRAINT_CODE: i32 = 2;

/// Largest magnitude a load value can reach on a well-formed route.
pub const LOAD_LIMIT: i64 = 9007199254740992;

/// A job cannot enter a route at all.
#[derive(Clone, Copy, PartialEq, Eq, Structural, Debug)]
pub struct RouteConstraintViolation {
    /// The violated constraint's code.
    pub code: i32,
}

/// A job cannot enter a route at one position; `stopped` tells the
/// evaluator that scanning further positions of this route is futile.
#[derive(Clone, Copy, PartialEq, Eq, Structural, Debug)]
pub struct ActivityConstraintViolation {
    /// The violated constraint's code.
    pub code: i32,
    /// Whether the scan over further positions should stop.
    pub stopped: bool,
}

/// A candidate insertion point: the insertion index, the tour positions of
/// the previous and next stops (position zero is the route's start), and
/// the activity to insert.
pub struct ActivityContext {
    /// The insertion index within the tour.
    pub index: usize,
    /// Tour position of the stop before the candidate.
    pub prev: usize,
    /// Tour position of the stop after the candidate.
    pub next: usize,
    /// The activity to insert.
    pub target: Activity,
}

/// The picked-up amount of a signed demand.
pub open spec fn pickup_of(d: int) -> int {
    if d > 0 {
        d
    } else {
        0
    }
}

/// The delivered amount of a signed demand.
pub open spec fn delivery_of(d: int) -> int {
    if d < 0 {
        -d
    } else {
        0
    }
}

/// The load a vehicle must leave with: the sum of all delivered amounts.
pub open spec fn delivery_sum(ds: Seq<i64>) -> int
    decreases ds.len(),
{
    if ds.len() == 0 {
        0
    } else {
        delivery_sum(ds.drop_last()) + delivery_of(ds.last() as int)
    }
}

/// The sum of the first `i` demands.
pub open spec fn prefix_demand(ds: Seq<i64>, i: int) -> int
    decreases i,
{
    if i <= 0 {
        0
    } else {
        prefix_demand(ds, i - 1) + ds[i - 1]
    }
}

/// The vehicle's load at tour position `p`: position 0 is the start,
/// positions 1 to `n` follow the activities, and position `n + 1` is the
/// end, which carries the same load as the last activity.
pub open spec fn load_at(ds: Seq<i64>, p: int) -> int {
    if p <= 0 {
        delivery_sum(ds)
    } else if p <= ds.len() {
        delivery_sum(ds) + prefix_demand(ds, p)
    } else {
        delivery_sum(ds) + prefix_demand(ds, ds.len() as int)
    }
}

/// The larger of two values.
pub open spec fn int_max(a: int, b: int) -> int {
    if a >= b {
        a
    } else {
        b
    }
}

/// The largest load at or after tour position `p`.
pub open spec fn max_future(ds: Seq<i64>, p: int) -> int
    decreases ds.len() + 2 - p,
{
    if p >= ds.len() + 1 {
        load_at(ds, ds.len() as int + 1)
    } else {
        int_max(load_at(ds, p), max_future(ds, p + 1))
    }
}

/// The largest load at or before tour position `p`.
pub open spec fn max_past(ds: Seq<i64>, p: int) -> int
    decreases p,
{
    if p <= 0 {
        load_at(ds, 0)
    } else {
        int_max(load_at(ds, p), max_past(ds, p - 1))
    }
}

/// All demands lie within the demand operating range.
pub open spec fn demands_in_range(ds: Seq<i64>) -> bool {
    forall|i: int| 0 <= i < ds.len() ==> -DEMAND_LIMIT <= #[trigger] ds[i] <= DEMAND_LIMIT
}

/// The delivery sum of bounded demands is bounded.
pub proof fn lemma_delivery_sum_bound(ds: Seq<i64>)
    requires
        demands_in_range(ds),
    ensures
        0 <= delivery_sum(ds) <= ds.len() * DEMAND_LIMIT,
    decreases ds.len(),
{
    if ds.len() > 0 {
        assert(demands_in_range(ds.drop_last()));
        lemma_delivery_sum_bound(ds.drop_last());
        assert((ds.len() - 1) * DEMAND_LIMIT + DEMAND_LIMIT == ds.len() * DEMAND_LIMIT)
            by (nonlinear_arith);
    }
}

/// A prefix sum of bounded demands is bounded.
pub proof fn lemma_prefix_bound(ds: Seq<i64>, i: int)
    requires
        demands_in_range(ds),
        0 <= i <= ds.len(),
    ensures
        -(i * DEMAND_LIMIT) <= prefix_demand(ds, i) <= i * DEMAND_LIMIT,
    decreases i,
{
    if i > 0 {
        lemma_prefix_bound(ds, i - 1);
        assert((i - 1) * DEMAND_LIMIT + DEMAND_LIMIT == i * DEMAND_LIMIT) by (nonlinear_arith);
        assert(-((i - 1) * DEMAND_LIMIT) - DEMAND_LIMIT == -(i * DEMAND_LIMIT))
            by (nonlinear_arith);
        assert(-DEMAND_LIMIT <= ds[i - 1] <= DEMAND_LIMIT);
    }
}

/// A load on a well-formed route is bounded.
pub proof fn lemma_load_bound(ds: Seq<i64>, p: int)
    requires
        demands_in_range(ds),
        ds.len() <= ROUTE_LEN_LIMIT,
    ensures
        -LOAD_LIMIT <= load_at(ds, p) <= LOAD_LIMIT,
{
    lemma_delivery_sum_bound(ds);
    lemma_prefix_bound(ds, ds.len() as int);
    if 0 < p <= ds.len() {
        lemma_prefix_bound(ds, p);
        assert(p * DEMAND_LIMIT <= ROUTE_LEN_LIMIT * DEMAND_LIMIT) by (nonlinear_arith)
            requires
                0 <= p <= ROUTE_LEN_LIMIT,
        ;
    }
    assert(ds.len() * DEMAND_LIMIT <= ROUTE_LEN_LIMIT * DEMAND_LIMIT) by (nonlinear_arith)
        requires
            0 <= ds.len() <= ROUTE_LEN_LIMIT,
    ;
}

/// The largest future load is one of the loads, so it is bounded too.
pub proof fn lemma_max_future_bound(ds: Seq<i64>, p: int)
    requires
        demands_in_range(ds),
        ds.len() <= ROUTE_LEN_LIMIT,
        p >= 0,
    ensures
        -LOAD_LIMIT <= max_future(ds, p) <= LOAD_LIMIT,
    decreases ds.len() + 2 - p,
{
    if p >= ds.len() + 1 {
        lemma_load_bound(ds, ds.len() as int + 1);
    } else {
        lemma_load_bound(ds, p);
        lemma_max_future_bound(ds, p + 1);
    }
}

/// The largest past load is one of the loads, so it is bounded too.
pub proof fn lemma_max_past_bound(ds: Seq<i64>, p: int)
    requires
        demands_in_range(ds),
        ds.len() <= ROUTE_LEN_LIMIT,
    ensures
        -LOAD_LIMIT <= max_past(ds, p) <= LOAD_LIMIT,
    decreases p,
{
    if p <= 0 {
        lemma_load_bound(ds, 0);
    } else {
        lemma_load_bound(ds, p);
        lemma_max_past_bound(ds, p - 1);
    }
}

/// Every load at or after `p` is at most the largest future load at `p`.
pub proof fn lemma_load_le_max_future(ds: Seq<i64>, p: int, q: int)
    requires
        p <= q <= ds.len() + 1,
    ensures
        load_at(ds, q) <= max_future(ds, p),
    decreases q - p,
{
    if p < q {
        lemma_load_le_max_future(ds, p + 1, q);
    } else {
        if p >= ds.len() + 1 {
        }
    }
}

/// Every load at or before `p` is at most the largest past load at `p`.
pub proof fn lemma_load_le_max_past(ds: Seq<i64>, p: int, q: int)
    requires
        0 <= q <= p,
    ensures
        load_at(ds, q) <= max_past(ds, p),
    decreases p - q,
{
    if q < p {
        lemma_load_le_max_past(ds, p - 1, q);
    }
}

/// A bound on every load at or after `p` bounds the largest future load.
pub proof fn lemma_max_future_le(ds: Seq<i64>, p: int, c: int)
    requires
        0 <= p <= ds.len() + 1,
        forall|q: int| p <= q <= ds.len() + 1 ==> #[trigger] load_at(ds, q) <= c,
    ensures
        max_future(ds, p) <= c,
    decreases ds.len() + 2 - p,
{
    if p >= ds.len() + 1 {
        assert(load_at(ds, ds.len() as int + 1) <= c);
    } else {
        lemma_max_future_le(ds, p + 1, c);
    }
}

/// The capacity prefix-sum recurrence: each stop's load is the previous
/// stop's load plus the demand served there, and the end repeats the last.
pub proof fn lemma_capacity_recurrence(ds: Seq<i64>, p: int)
    requires
        1 <= p <= ds.len(),
    ensures
        load_at(ds, p) == load_at(ds, p - 1) + ds[p - 1],
{
}

/// The synthetic end carries the same load as the last stop.
pub proof fn lemma_end_load(ds: Seq<i64>)
    ensures
        load_at(ds, ds.len() as int + 1) == load_at(ds, ds.len() as int),
{
}

/// The capacity state keys are filled for every tour position, with the
/// loads, largest future loads and largest past loads of the route.
pub open spec fn capacity_states_set(s: RouteState, route: Route) -> bool {
    &&& forall|p: int|
        0 <= p <= route.demands().len() + 1 ==> #[trigger] s.activity_state_at(
            CURRENT_CAPACITY_KEY as int,
            p,
        ) == Some(load_at(route.demands(), p) as i64)
    &&& forall|p: int|
        0 <= p <= route.demands().len() + 1 ==> #[trigger] s.activity_state_at(
            MAX_FUTURE_CAPACITY_KEY as int,
            p,
        ) == Some(max_future(route.demands(), p) as i64)
    &&& forall|p: int|
        0 <= p <= route.demands().len() + 1 ==> #[trigger] s.activity_state_at(
            MAX_PAST_CAPACITY_KEY as int,
            p,
        ) == Some(max_past(route.demands(), p) as i64)
}

/// What recomputing the capacity state does to the store: the module's
/// three keys are filled for every tour position, and every other slot is
/// untouched, the module's keys beyond the tour positions included.
pub open spec fn accept_post(before: RouteState, after: RouteState, route: Route) -> bool {
    &&& capacity_states_set(after, route)
    &&& forall|k: int, j: int|
        k != CURRENT_CAPACITY_KEY && k != MAX_FUTURE_CAPACITY_KEY && k
            != MAX_PAST_CAPACITY_KEY ==> #[trigger] after.activity_state_at(k, j)
            == before.activity_state_at(k, j)
    &&& forall|k: int, j: int|
        !(0 <= j <= route.demands().len() + 1) ==> #[trigger] after.activity_state_at(k, j)
            == before.activity_state_at(k, j)
    &&& forall|k: int| #[trigger] after.route_state_at(k) == before.route_state_at(k)
}

/// Recomputes the capacity state of a route: the load after each stop, and
/// the largest load at or after and at or before each stop. State under
/// other keys is untouched, so recomputing an unchanged route changes
/// nothing.
pub fn accept_route_state(ctx: &mut RouteContext)
    requires
        old(ctx).route.wf(),
    ensures
        final(ctx).route == old(ctx).route,
        accept_post(old(ctx).state, final(ctx).state, old(ctx).route),
{
    let ghost ds = old(ctx).route.demands();
    let n = ctx.route.activities.len();
    proof {
        assert(ds.len() == n);
        assert(demands_in_range(ds)) by {
            assert forall|i: int|
                0 <= i < ds.len() implies -DEMAND_LIMIT <= #[trigger] ds[i] <= DEMAND_LIMIT by {
                assert(ds[i] == ctx.route.activities@[i].demand);
            }
        }
    }
    let mut dsum: i64 = 0;
    let mut i: usize = 0;
    proof {
        assert(ds.take(0) =~= Seq::<i64>::empty());
    }
    while i < n
        invariant
            0 <= i <= n,
            ctx.route.wf(),
            n == ctx.route.activities@.len(),
            ds == ctx.route.demands(),
            demands_in_range(ds),
            dsum == delivery_sum(ds.take(i as int)),
            0 <= dsum <= i * DEMAND_LIMIT,
        decreases n - i,
    {
        let d = ctx.route.activities[i].demand;
        proof {
            assert(ds[i as int] == d);
            assert(ds.take(i + 1).drop_last() =~= ds.take(i as int));
            assert(ds.take(i + 1).last() == d);
            assert(i * DEMAND_LIMIT + DEMAND_LIMIT == (i + 1) * DEMAND_LIMIT) by (nonlinear_arith);
            assert((i + 1) * DEMAND_LIMIT <= ROUTE_LEN_LIMIT * DEMAND_LIMIT) by (nonlinear_arith)
                requires
                    0 <= i + 1 <= ROUTE_LEN_LIMIT,
            ;
        }
        if d < 0 {
            dsum = dsum - d;
        }
        i = i + 1;
    }
    proof {
        assert(ds.take(n as int) =~= ds);
    }
    let mut loads: Vec<i64> = Vec::new();
    loads.push(dsum);
    let mut cur: i64 = dsum;
    let mut i: usize = 0;
    while i < n
        invariant
            0 <= i <= n,
            ctx.route.wf(),
            n == ctx.route.activities@.len(),
            ds == ctx.route.demands(),
            demands_in_range(ds),
            cur == load_at(ds, i as int),
            loads@.len() == i + 1,
            forall|p: int| 0 <= p <= i ==> #[trigger] loads@[p] == load_at(ds, p) as i64,
        decreases n - i,
    {
        let d = ctx.route.activities[i].demand;
        proof {
            assert(ds[i as int] == d);
            lemma_load_bound(ds, i as int);
            lemma_load_bound(ds, i + 1);
            lemma_capacity_recurrence(ds, i + 1);
        }
        cur = cur + d;
        loads.push(cur);
        i = i + 1;
    }
    proof {
        lemma_end_load(ds);
    }
    loads.push(cur);
    proof {
        assert(loads@[n + 1] == load_at(ds, n + 1) as i64);
    }
    let mut mf = crate::network::copy_weights(&loads);
    let mut p: usize = n + 1;
    while p > 0
        invariant
            0 <= p <= n + 1,
            n == ds.len(),
            demands_in_range(ds),
            ds.len() <= ROUTE_LEN_LIMIT,
            loads@.len() == n + 2,
            mf@.len() == n + 2,
            forall|q: int| 0 <= q <= n + 1 ==> #[trigger] loads@[q] == load_at(ds, q) as i64,
            forall|q: int| p <= q <= n + 1 ==> #[trigger] mf@[q] == max_future(ds, q) as i64,
            forall|q: int| 0 <= q < p ==> #[trigger] mf@[q] == loads@[q],
        decreases p,
    {
        p = p - 1;
        let ghost prev_mf = mf@;
        if p < n + 1 {
            proof {
                lemma_load_bound(ds, p as int);
                lemma_max_future_bound(ds, p + 1);
            }
            let a = mf[p];
            let b = mf[p + 1];
            if b > a {
                mf.set(p, b);
            }
            proof {
                assert forall|q: int|
                    p <= q <= n + 1 implies #[trigger] mf@[q] == max_future(ds, q) as i64 by {
                    if q == p {
                        assert(max_future(ds, p as int) == int_max(
                            load_at(ds, p as int),
                            max_future(ds, p + 1),
                        ));
                    } else {
                        assert(mf@[q] == prev_mf[q]);
                    }
                }
            }
        } else {
            proof {
                assert(max_future(ds, n + 1) == load_at(ds, n + 1));
            }
        }
    }
    let mut mp = crate::network::copy_weights(&loads);
    let mut p: usize = 1;
    while p < n + 2
        invariant
            1 <= p <= n + 2,
            n == ds.len(),
            demands_in_range(ds),
            ds.len() <= ROUTE_LEN_LIMIT,
            loads@.len() == n + 2,
            mp@.len() == n + 2,
            forall|q: int| 0 <= q <= n + 1 ==> #[trigger] loads@[q] == load_at(ds, q) as i64,
            forall|q: int| 0 <= q < p ==> #[trigger] mp@[q] == max_past(ds, q) as i64,
            forall|q: int| p <= q <= n + 1 ==> #[trigger] mp@[q] == loads@[q],
        decreases n + 2 - p,
    {
        let ghost prev_mp = mp@;
        proof {
            lemma_load_bound(ds, p as int);
            lemma_max_past_bound(ds, p - 1);
        }
        let a = mp[p];
        let b = mp[p - 1];
        if b > a {
            mp.set(p, b);
        }
        proof {
            assert forall|q: int|
                0 <= q <= p implies #[trigger] mp@[q] == max_past(ds, q) as i64 by {
                if q == p {
                    assert(max_past(ds, p as int) == int_max(
                        load_at(ds, p as int),
                        max_past(ds, p - 1),
                    ));
                } else {
                    assert(mp@[q] == prev_mp[q]);
                }
            }
        }
        p = p + 1;
    }
    let ghost state0 = ctx.state;
    let mut p: usize = 0;
    while p < n + 2
        invariant
            0 <= p <= n + 2,
            n == ds.len(),
            ds == ctx.route.demands(),
            ctx.route == old(ctx).route,
            n <= ROUTE_LEN_LIMIT,
            loads@.len() == n + 2,
            mf@.len() == n + 2,
            mp@.len() == n + 2,
            forall|q: int| 0 <= q <= n + 1 ==> #[trigger] loads@[q] == load_at(ds, q) as i64,
            forall|q: int| 0 <= q <= n + 1 ==> #[trigger] mf@[q] == max_future(ds, q) as i64,
            forall|q: int| 0 <= q <= n + 1 ==> #[trigger] mp@[q] == max_past(ds, q) as i64,
            forall|q: int|
                0 <= q < p ==> #[trigger] ctx.state.activity_state_at(
                    CURRENT_CAPACITY_KEY as int,
                    q,
                ) == Some(load_at(ds, q) as i64),
            forall|q: int|
                0 <= q < p ==> #[trigger] ctx.state.activity_state_at(
                    MAX_FUTURE_CAPACITY_KEY as int,
                    q,
                ) == Some(max_future(ds, q) as i64),
            forall|q: int|
                0 <= q < p ==> #[trigger] ctx.state.activity_state_at(
                    MAX_PAST_CAPACITY_KEY as int,
                    q,
                ) == Some(max_past(ds, q) as i64),
            forall|k: int, j: int|
                k != CURRENT_CAPACITY_KEY && k != MAX_FUTURE_CAPACITY_KEY && k
                    != MAX_PAST_CAPACITY_KEY ==> #[trigger] ctx.state.activity_state_at(k, j)
                    == state0.activity_state_at(k, j),
            forall|k: int, j: int|
                !(0 <= j <= n + 1) ==> #[trigger] ctx.state.activity_state_at(k, j)
                    == state0.activity_state_at(k, j),
            forall|k: int|
                #[trigger] ctx.state.route_state_at(k) == state0.route_state_at(k),
        decreases n + 2 - p,
    {
        ctx.state.put_activity_state(CURRENT_CAPACITY_KEY, p, loads[p]);
        ctx.state.put_activity_state(MAX_FUTURE_CAPACITY_KEY, p, mf[p]);
        ctx.state.put_activity_state(MAX_PAST_CAPACITY_KEY, p, mp[p]);
        p = p + 1;
    }
}

/// Evaluates whether a job of the given demand can enter the route at all.
/// The cheap reject is the per-position admissibility test taken at the
/// start of the tour: a pickup must fit over the largest load anywhere
/// ahead (the route's maximum), a delivery over the starting load. A
/// textbook reading that compares only the route's own extremes, ignoring
/// the job's demand, would accept a job whose demand alone exceeds the
/// capacity on an empty route; the test here includes the demand, rejecting
/// exactly when no insertion right after the start can fit it.
pub fn evaluate_hard_route(ctx: &RouteContext, demand: i64) -> (r: Option<RouteConstraintViolation>)
    requires
        ctx.route.wf(),
        capacity_states_set(ctx.state, ctx.route),
        -DEMAND_LIMIT <= demand <= DEMAND_LIMIT,
    ensures
        r == (if pickup_of(demand as int) + max_future(ctx.route.demands(), 0)
            > ctx.route.capacity || delivery_of(demand as int) + max_past(ctx.route.demands(), 0)
            > ctx.route.capacity {
            Some(RouteConstraintViolation { code: CAPACITY_CONSTRAINT_CODE })
        } else {
            None
        }),
{
    let ghost ds = ctx.route.demands();
    proof {
        assert(demands_in_range(ds)) by {
            assert forall|i: int|
                0 <= i < ds.len() implies -DEMAND_LIMIT <= #[trigger] ds[i] <= DEMAND_LIMIT by {
                assert(ds[i] == ctx.route.activities@[i].demand);
            }
        }
        lemma_max_future_bound(ds, 0);
        lemma_max_past_bound(ds, 0);
    }
    let mf0 = ctx.state.get_activity_state(MAX_FUTURE_CAPACITY_KEY, 0);
    let mp0 = ctx.state.get_activity_state(MAX_PAST_CAPACITY_KEY, 0);
    match (mf0, mp0) {
        (Some(mf0), Some(mp0)) => {
            let pick = if demand > 0 {
                demand
            } else {
                0
            };
            let deli = if demand < 0 {
                -demand
            } else {
                0
            };
            if pick + mf0 > ctx.route.capacity || deli + mp0 > ctx.route.capacity {
                Some(RouteConstraintViolation { code: CAPACITY_CONSTRAINT_CODE })
            } else {
                None
            }
        },
        _ => {
            proof {
                assert(false);
            }
            None
        },
    }
}

/// Evaluates whether the candidate activity can be inserted after the stop
/// at `activity_ctx.prev`: a pickup must fit over every load from that stop
/// to the route's end, a delivery over every load from the start to that
/// stop. The scan is stopped when the route's aggregate demand can never
/// accommodate the candidate, at any position.
pub fn evaluate_hard_activity(ctx: &RouteContext, activity_ctx: &ActivityContext) -> (r: Option<
    ActivityConstraintViolation,
>)
    requires
        ctx.route.wf(),
        capacity_states_set(ctx.state, ctx.route),
        activity_ctx.prev <= ctx.route.activities@.len(),
        -DEMAND_LIMIT <= activity_ctx.target.demand <= DEMAND_LIMIT,
    ensures
        r == (if activity_ctx.target.demand > 0 && max_future(
            ctx.route.demands(),
            activity_ctx.prev as int,
        ) + activity_ctx.target.demand > ctx.route.capacity {
            Some(
                ActivityConstraintViolation {
                    code: CAPACITY_CONSTRAINT_CODE,
                    stopped: load_at(ctx.route.demands(), ctx.route.demands().len() as int + 1)
                        + activity_ctx.target.demand > ctx.route.capacity,
                },
            )
        } else if activity_ctx.target.demand < 0 && max_past(
            ctx.route.demands(),
            activity_ctx.prev as int,
        ) + delivery_of(activity_ctx.target.demand as int) > ctx.route.capacity {
            Some(
                ActivityConstraintViolation {
                    code: CAPACITY_CONSTRAINT_CODE,
                    stopped: load_at(ctx.route.demands(), 0) + delivery_of(
                        activity_ctx.target.demand as int,
                    ) > ctx.route.capacity,
                },
            )
        } else {
            None
        }),
{
    let ghost ds = ctx.route.demands();
    let n = ctx.route.activities.len();
    proof {
        assert(demands_in_range(ds)) by {
            assert forall|i: int|
                0 <= i < ds.len() implies -DEMAND_LIMIT <= #[trigger] ds[i] <= DEMAND_LIMIT by {
                assert(ds[i] == ctx.route.activities@[i].demand);
            }
        }
        lemma_max_future_bound(ds, activity_ctx.prev as int);
        lemma_max_past_bound(ds, activity_ctx.prev as int);
        lemma_load_bound(ds, ds.len() as int + 1);
        lemma_load_bound(ds, 0);
    }
    let d = activity_ctx.target.demand;
    if d > 0 {
        let mfp = ctx.state.get_activity_state(MAX_FUTURE_CAPACITY_KEY, activity_ctx.prev);
        let end_load = ctx.state.get_activity_state(CURRENT_CAPACITY_KEY, n + 1);
        match (mfp, end_load) {
            (Some(mfp), Some(end_load)) => {
                if mfp + d > ctx.route.capacity {
                    Some(
                        ActivityConstraintViolation {
                            code: CAPACITY_CONSTRAINT_CODE,
                            stopped: end_load + d > ctx.route.capacity,
                        },
                    )
                } else {
                    None
                }
            },
            _ => {
                proof {
                    assert(false);
                }
                None
            },
        }
    } else if d < 0 {
        let mpp = ctx.state.get_activity_state(MAX_PAST_CAPACITY_KEY, activity_ctx.prev);
        let start_load = ctx.state.get_activity_state(CURRENT_CAPACITY_KEY, 0);
        match (mpp, start_load) {
            (Some(mpp), Some(start_load)) => {
                if mpp + (-d) > ctx.route.capacity {
                    Some(
                        ActivityConstraintViolation {
                            code: CAPACITY_CONSTRAINT_CODE,
                            stopped: start_load + (-d) > ctx.route.capacity,
                        },
                    )
                } else {
                    None
                }
            },
            _ => {
                proof {
                    assert(false);
                }
                None
            },
        }
    } else {
        None
    }
}


/// Recomputing the state of an unchanged route is idempotent: the second
/// run leaves every slot of the store, under every key and position, as the
/// first run left it.
pub proof fn lemma_accept_idempotent(
    s0: RouteState,
    s1: RouteState,
    s2: RouteState,
    route: Route,
)
    requires
        accept_post(s0, s1, route),
        accept_post(s1, s2, route),
    ensures
        forall|k: int, j: int|
            #[trigger] s2.activity_state_at(k, j) == s1.activity_state_at(k, j),
        forall|k: int| #[trigger] s2.route_state_at(k) == s1.route_state_at(k),
{
    assert forall|k: int, j: int|
        #[trigger] s2.activity_state_at(k, j) == s1.activity_state_at(k, j) by {
        if 0 <= j <= route.demands().len() + 1 && (k == CURRENT_CAPACITY_KEY || k
            == MAX_FUTURE_CAPACITY_KEY || k == MAX_PAST_CAPACITY_KEY) {
            assert(s1.activity_state_at(CURRENT_CAPACITY_KEY as int, j) == Some(
                load_at(route.demands(), j) as i64,
            ));
            assert(s2.activity_state_at(CURRENT_CAPACITY_KEY as int, j) == Some(
                load_at(route.demands(), j) as i64,
            ));
            assert(s1.activity_state_at(MAX_FUTURE_CAPACITY_KEY as int, j) == Some(
                max_future(route.demands(), j) as i64,
            ));
            assert(s2.activity_state_at(MAX_FUTURE_CAPACITY_KEY as int, j) == Some(
                max_future(route.demands(), j) as i64,
            ));
            assert(s1.activity_state_at(MAX_PAST_CAPACITY_KEY as int, j) == Some(
                max_past(route.demands(), j) as i64,
            ));
            assert(s2.activity_state_at(MAX_PAST_CAPACITY_KEY as int, j) == Some(
                max_past(route.demands(), j) as i64,
            ));
        }
    }
}

/// Inserting a demand shifts the prefix sums: sums up to the insertion
/// point are unchanged, later ones gain the new demand.
proof fn lemma_prefix_insert(ds: Seq<i64>, d: i64, p: int, i: int)
    requires
        0 <= p <= ds.len(),
        0 <= i <= ds.len() + 1,
    ensures
        prefix_demand(ds.insert(p, d), i) == if i <= p {
            prefix_demand(ds, i)
        } else {
            prefix_demand(ds, i - 1) + d
        },
    decreases i,
{
    let ds2 = ds.insert(p, d);
    if i > 0 {
        lemma_prefix_insert(ds, d, p, i - 1);
        if i - 1 < p {
            assert(ds2[i - 1] == ds[i - 1]);
        } else if i - 1 == p {
            assert(ds2[i - 1] == d);
        } else {
            assert(ds2[i - 1] == ds[i - 2]);
        }
    }
}

/// Inserting a demand adds its delivered amount to the delivery sum.
proof fn lemma_delivery_sum_insert(ds: Seq<i64>, d: i64, p: int)
    requires
        0 <= p <= ds.len(),
    ensures
        delivery_sum(ds.insert(p, d)) == delivery_sum(ds) + delivery_of(d as int),
    decreases ds.len(),
{
    let ds2 = ds.insert(p, d);
    if p == ds.len() {
        assert(ds2.drop_last() =~= ds);
        assert(ds2.last() == d);
    } else {
        assert(ds2.drop_last() =~= ds.drop_last().insert(p, d));
        assert(ds2.last() == ds.last());
        lemma_delivery_sum_insert(ds.drop_last(), d, p);
    }
}

/// Inserting a demand at position `p` raises the loads before the insertion
/// point by its delivered amount and the loads after it by its picked-up
/// amount.
proof fn lemma_load_insert(ds: Seq<i64>, d: i64, p: int, q: int)
    requires
        0 <= p <= ds.len(),
        0 <= q <= ds.len() + 2,
    ensures
        load_at(ds.insert(p, d), q) == if q <= p {
            load_at(ds, q) + delivery_of(d as int)
        } else {
            load_at(ds, q - 1) + pickup_of(d as int)
        },
{
    let ds2 = ds.insert(p, d);
    lemma_delivery_sum_insert(ds, d, p);
    if q <= p {
        if q > 0 {
            lemma_prefix_insert(ds, d, p, q);
        }
    } else {
        lemma_prefix_insert(ds, d, p, if q <= ds2.len() {
            q
        } else {
            ds2.len() as int
        });
        assert(delivery_of(d as int) + d == pickup_of(d as int));
    }
}

/// Insertion safety: on a route whose loads all fit the capacity, an
/// insertion point that the hard activity check accepts yields, once
/// committed, a route whose recomputed loads all fit the capacity again.
pub proof fn lemma_insertion_safety(ds: Seq<i64>, d: i64, p: int, cap: int)
    requires
        0 <= p <= ds.len(),
        max_future(ds, 0) <= cap,
        d > 0 ==> max_future(ds, p) + d <= cap,
        d < 0 ==> max_past(ds, p) + delivery_of(d as int) <= cap,
    ensures
        max_future(ds.insert(p, d), 0) <= cap,
{
    let ds2 = ds.insert(p, d);
    assert forall|q: int| 0 <= q <= ds2.len() + 1 implies #[trigger] load_at(ds2, q) <= cap by {
        lemma_load_insert(ds, d, p, q);
        if q <= p {
            if d < 0 {
                lemma_load_le_max_past(ds, p, q);
            } else {
                lemma_load_le_max_future(ds, 0, q);
            }
        } else {
            if d > 0 {
                lemma_load_le_max_future(ds, p, q - 1);
            } else {
                lemma_load_le_max_future(ds, 0, q - 1);
            }
        }
    }
    lemma_max_future_le(ds2, 0, cap);
}

} // verus!
