//! State keys and dimension keys shared by the constraint modules. The
//! integer values are a stable interface that state readers rely on.

use vstd::prelude::*;
use crate::route::{Activity, Route, RouteContext, ROUTE_LEN_LIMIT, TIME_LIMIT};

verus! {

/// A key which tracks latest arrival.
pub const LATEST_ARRIVAL_KEY: i32 = 1;

/// A key which tracks waiting time.
pub const WAITING_KEY: i32 = 2;

/// A key which tracks total distance.
pub const TOTAL_DISTANCE_KEY: i32 = 3;

/// A key which tracks total duration.
pub const TOTAL_DURATION_KEY: i32 = 4;

/// A key which tracks a duration limit.
pub const LIMIT_DURATION_KEY: i32 = 5;

/// A key which tracks current vehicle capacity.
pub const CURRENT_CAPACITY_KEY: i32 = 11;

/// A key which tracks maximum vehicle capacity ahead in route.
pub const MAX_FUTURE_CAPACITY_KEY: i32 = 12;

/// A key which tracks maximum capacity backward in route.
pub const MAX_PAST_CAPACITY_KEY: i32 = 13;

/// A key which tracks reload intervals.
pub const RELOAD_INTERVALS_KEY: i32 = 14;

/// A key which tracks max load in tour.
pub const MAX_LOAD_KEY: i32 = 15;

/// A key which tracks total value.
pub const TOTAL_VALUE_KEY: i32 = 16;

/// A key which tracks tour order statistics.
pub const TOUR_ORDER_KEY: i32 = 17;

/// A key used to track job id.
pub const JOB_ID_DIMEN_KEY: i32 = 1;

/// A key used to track vehicle id.
pub const VEHICLE_ID_DIMEN_KEY: i32 = 2;

/// A key used to track a weak reference to a multi job.
pub const MULTI_REF_DIMEN_KEY: i32 = 3;

/// A key to track vehicle capacity.
pub const CAPACITY_DIMEN_KEY: i32 = 4;

/// A key to track job demand.
pub const DEMAND_DIMEN_KEY: i32 = 5;

/// A key to track areas.
pub const AREA_DIMEN_KEY: i32 = 6;

/// A key to track order.
pub const ORDER_DIMEN_KEY: i32 = 7;

/// A key to track value.
pub const VALUE_DIMEN_KEY: i32 = 8;

/// A key to track clustered jobs.
pub const CLUSTER_JOBS_DIMEN_KEY: i32 = 9;


/// Travel costs between places, implemented by the embedding application:
/// a duration and a distance for each leg, departure-dependent. Every
/// implementation must keep its values within the time operating range.
pub trait TransportCost {
    /// The travel duration of a leg departing at the given time.
    fn duration(&self, from: u64, to: u64, departure: i64) -> (r: i64)
        ensures
            0 <= r <= TIME_LIMIT,
    ;

    /// The travel distance of a leg departing at the given time.
    fn distance(&self, from: u64, to: u64, departure: i64) -> (r: i64)
        ensures
            0 <= r <= TIME_LIMIT,
    ;
}

/// Holds when `a` is `b` with only its schedule changed.
pub open spec fn same_but_schedule(a: Activity, b: Activity) -> bool {
    &&& a.demand == b.demand
    &&& a.place == b.place
    &&& a.tw_start == b.tw_start
    &&& a.tw_end == b.tw_end
    &&& a.duration == b.duration
}

/// A departure following the scheduling rule: service starts at the
/// arrival, or at the window's opening where the vehicle arrives early, and
/// the stop is left after its service duration.
pub open spec fn departs_by_rule(a: Activity) -> bool {
    a.departure == (if a.arrival >= a.tw_start {
        a.arrival as int
    } else {
        a.tw_start as int
    }) + a.duration
}

/// The whole schedule is consistent: each stop is reached no earlier than
/// the previous stop was left, and left by the scheduling rule; the end is
/// reached after the last stop.
pub open spec fn schedule_consistent(start: Activity, acts: Seq<Activity>, end: Activity) -> bool {
    &&& forall|i: int|
        0 <= i < acts.len() ==> (#[trigger] acts[i]).arrival >= (if i == 0 {
            start.departure
        } else {
            acts[i - 1].departure
        }) && departs_by_rule(acts[i])
    &&& end.arrival >= (if acts.len() == 0 {
        start.departure as int
    } else {
        acts[acts.len() - 1].departure as int
    })
    &&& departs_by_rule(end)
}

/// The sum of a sequence of leg values.
pub open spec fn seq_total(s: Seq<i64>) -> int
    decreases s.len(),
{
    if s.len() == 0 {
        0
    } else {
        seq_total(s.drop_last()) + s.last()
    }
}

/// A total distance explained by per-leg values: some sequence of one
/// distance per leg (the last leg reaches the end), each within the time
/// range, sums to it.
pub open spec fn legs_explain(acts: Seq<Activity>, total: int) -> bool {
    exists|dists: Seq<i64>|
        #![trigger seq_total(dists)]
        dists.len() == acts.len() + 1 && (forall|i: int|
            0 <= i < dists.len() ==> 0 <= #[trigger] dists[i] <= TIME_LIMIT) && total == seq_total(
            dists,
        )
}

/// The total waiting time of a schedule: at each stop, the time between an
/// early arrival and the window's opening.
pub open spec fn waiting_sum(acts: Seq<Activity>) -> int
    decreases acts.len(),
{
    if acts.len() == 0 {
        0
    } else {
        waiting_sum(acts.drop_last()) + (if acts.last().arrival < acts.last().tw_start {
            acts.last().tw_start - acts.last().arrival
        } else {
            0
        })
    }
}

/// Walks the tour from the start, asking the transport for each leg's
/// duration and distance, and assigns each stop its arrival and rule-based
/// departure. Returns the total distance travelled and the total waiting
/// time.
#[verifier::rlimit(100)]
fn schedule_tour<T: TransportCost>(route: &mut Route, transport: &T) -> (r: (
    i64,
    i64,
    Ghost<Seq<i64>>,
))
    requires
        old(route).wf(),
        0 <= old(route).start.departure <= TIME_LIMIT,
    ensures
        r.2@.len() == final(route).activities@.len() + 1,
        forall|j: int| 0 <= j < r.2@.len() ==> 0 <= #[trigger] r.2@[j] <= TIME_LIMIT,
        r.0 == seq_total(r.2@),
        final(route).wf(),
        final(route).capacity == old(route).capacity,
        final(route).start == old(route).start,
        same_but_schedule(final(route).end, old(route).end),
        final(route).activities@.len() == old(route).activities@.len(),
        forall|i: int|
            0 <= i < old(route).activities@.len() ==> same_but_schedule(
                #[trigger] final(route).activities@[i],
                old(route).activities@[i],
            ),
        schedule_consistent(final(route).start, final(route).activities@, final(route).end),
        final(route).end.departure >= final(route).start.departure,
        final(route).end.departure - final(route).start.departure <= 4611686018427387904,
        r.0 >= 0,
        r.1 == waiting_sum(final(route).activities@),
        0 <= waiting_sum(final(route).activities@) <= 4611686018427387904,
{
    let ghost acts0 = old(route).activities@;
    let n = route.activities.len();
    let mut prev_place = route.start.place;
    let mut prev_dep = route.start.departure;
    let mut total_distance: i64 = 0;
    let mut waiting: i64 = 0;
    let ghost mut dists_g: Seq<i64> = Seq::empty();
    let mut i: usize = 0;
    proof {
        assert(waiting_sum(route.activities@.take(0)) == 0);
        assert(seq_total(dists_g) == 0);
    }
    while i < n
        invariant
            0 <= i <= n,
            n == route.activities@.len(),
            acts0.len() == n,
            n <= ROUTE_LEN_LIMIT,
            route.capacity == old(route).capacity,
            route.start == old(route).start,
            route.end == old(route).end,
            0 <= old(route).start.departure <= TIME_LIMIT,
            forall|j: int| i <= j < n ==> #[trigger] route.activities@[j] == acts0[j],
            forall|j: int| 0 <= j < n ==> (#[trigger] acts0[j]).wf(),
            forall|j: int|
                0 <= j < i ==> same_but_schedule(#[trigger] route.activities@[j], acts0[j]),
            forall|j: int|
                0 <= j < i ==> (#[trigger] route.activities@[j]).arrival >= (if j == 0 {
                    route.start.departure
                } else {
                    route.activities@[j - 1].departure
                }) && departs_by_rule(route.activities@[j]),
            prev_place == (if i == 0 {
                route.start.place
            } else {
                route.activities@[i - 1].place
            }),
            prev_dep == (if i == 0 {
                route.start.departure
            } else {
                route.activities@[i - 1].departure
            }),
            0 <= prev_dep <= (1 + 2 * (i as int)) * TIME_LIMIT,
            prev_dep >= route.start.departure,
            0 <= total_distance <= (i as int) * TIME_LIMIT,
            waiting == waiting_sum(route.activities@.take(i as int)),
            0 <= waiting <= (i as int) * TIME_LIMIT,
            dists_g.len() == i,
            forall|j: int| 0 <= j < i ==> 0 <= #[trigger] dists_g[j] <= TIME_LIMIT,
            total_distance == seq_total(dists_g),
        decreases n - i,
    {
        let a = route.activities[i];
        let dur = transport.duration(prev_place, a.place, prev_dep);
        let dist = transport.distance(prev_place, a.place, prev_dep);
        proof {
            assert((1 + 2 * (i as int)) * TIME_LIMIT + 2 * TIME_LIMIT == (1 + 2 * (i as int + 1))
                * TIME_LIMIT) by (nonlinear_arith);
            assert((1 + 2 * (i as int + 1)) * TIME_LIMIT <= (1 + 2 * (ROUTE_LEN_LIMIT as int))
                * TIME_LIMIT) by (nonlinear_arith)
                requires
                    0 <= i as int + 1 <= ROUTE_LEN_LIMIT,
            ;
            assert((i as int) * TIME_LIMIT + TIME_LIMIT == (i as int + 1) * TIME_LIMIT)
                by (nonlinear_arith);
            assert((i as int + 1) * TIME_LIMIT <= (ROUTE_LEN_LIMIT as int) * TIME_LIMIT)
                by (nonlinear_arith)
                requires
                    0 <= i as int + 1 <= ROUTE_LEN_LIMIT,
            ;
            assert(a.wf());
        }
        let arrival = prev_dep + dur;
        let service_start = if arrival >= a.tw_start {
            arrival
        } else {
            a.tw_start
        };
        let departure = service_start + a.duration;
        let updated = Activity { arrival, departure, ..a };
        let ghost before = route.activities@;
        route.activities.set(i, updated);
        proof {
            let ghost dists_prev = dists_g;
            dists_g = dists_g.push(dist);
            assert(dists_g.drop_last() =~= dists_prev);
        }
        if arrival < a.tw_start {
            waiting = waiting + (a.tw_start - arrival);
        }
        total_distance = total_distance + dist;
        prev_place = updated.place;
        prev_dep = departure;
        proof {
            assert(route.activities@.take(i + 1).drop_last() =~= before.take(i as int));
            assert(route.activities@.take(i + 1).last() == updated);
            assert(waiting == waiting_sum(route.activities@.take(i + 1)));
            assert(seq_total(dists_g) == seq_total(dists_g.drop_last()) + dist);
        }
        i = i + 1;
    }
    proof {
        assert(route.activities@.take(n as int) =~= route.activities@);
        assert((1 + 2 * (n as int)) * TIME_LIMIT + 3 * TIME_LIMIT <= 4611686018427387904)
            by (nonlinear_arith)
            requires
                0 <= n <= ROUTE_LEN_LIMIT,
        ;
        assert((n as int) * TIME_LIMIT + TIME_LIMIT <= 4611686018427387904) by (nonlinear_arith)
            requires
                0 <= n <= ROUTE_LEN_LIMIT,
        ;
    }
    let e = route.end;
    let dur = transport.duration(prev_place, e.place, prev_dep);
    let dist = transport.distance(prev_place, e.place, prev_dep);
    let arrival = prev_dep + dur;
    let service_start = if arrival >= e.tw_start {
        arrival
    } else {
        e.tw_start
    };
    let departure = service_start + e.duration;
    route.end = Activity { arrival, departure, ..e };
    total_distance = total_distance + dist;
    proof {
        let ghost dists0 = dists_g;
        dists_g = dists_g.push(dist);
        assert(dists_g.drop_last() =~= dists0);
        assert(seq_total(dists_g) == seq_total(dists0) + dist);
        assert forall|j: int|
            0 <= j < dists_g.len() implies 0 <= #[trigger] dists_g[j] <= TIME_LIMIT by {
            if j < n {
                assert(dists_g[j] == dists0[j]);
            }
        }
    }
    (total_distance, waiting, Ghost(dists_g))
}

/// Updates the route schedule: recomputes every stop's arrival and
/// departure via the transport's legs, then refreshes the total-distance,
/// total-duration and waiting route states. Only schedules and those three
/// states change.
#[verifier::rlimit(100)]
pub fn update_route_schedule<T: TransportCost>(ctx: &mut RouteContext, transport: &T)
    requires
        old(ctx).route.wf(),
        0 <= old(ctx).route.start.departure <= TIME_LIMIT,
    ensures
        final(ctx).route.capacity == old(ctx).route.capacity,
        final(ctx).route.start == old(ctx).route.start,
        same_but_schedule(final(ctx).route.end, old(ctx).route.end),
        final(ctx).route.activities@.len() == old(ctx).route.activities@.len(),
        forall|i: int|
            0 <= i < old(ctx).route.activities@.len() ==> same_but_schedule(
                #[trigger] final(ctx).route.activities@[i],
                old(ctx).route.activities@[i],
            ),
        schedule_consistent(
            final(ctx).route.start,
            final(ctx).route.activities@,
            final(ctx).route.end,
        ),
        final(ctx).route.end.departure >= final(ctx).route.start.departure,
        final(ctx).state.route_state_at(TOTAL_DURATION_KEY as int) == Some(
            (final(ctx).route.end.departure - final(ctx).route.start.departure) as i64,
        ),
        final(ctx).state.route_state_at(WAITING_KEY as int) == Some(
            waiting_sum(final(ctx).route.activities@) as i64,
        ),
        (final(ctx).state.route_state_at(TOTAL_DISTANCE_KEY as int) matches Some(v) && v >= 0
            && legs_explain(final(ctx).route.activities@, v as int)),
        forall|k: int|
            k != TOTAL_DISTANCE_KEY && k != TOTAL_DURATION_KEY && k != WAITING_KEY
                ==> #[trigger] final(ctx).state.route_state_at(k) == old(
                ctx,
            ).state.route_state_at(k),
        forall|k: int, j: int|
            #[trigger] final(ctx).state.activity_state_at(k, j) == old(
                ctx,
            ).state.activity_state_at(k, j),
{
    let totals = schedule_tour(&mut ctx.route, transport);
    let total_duration = ctx.route.end.departure - ctx.route.start.departure;
    ctx.state.put_route_state(TOTAL_DISTANCE_KEY, totals.0);
    ctx.state.put_route_state(TOTAL_DURATION_KEY, total_duration);
    ctx.state.put_route_state(WAITING_KEY, totals.1);
    proof {
        assert(legs_explain(ctx.route.activities@, totals.0 as int)) by {
            assert(totals.0 == seq_total(totals.2@));
        }
    }
}

} // verus!
