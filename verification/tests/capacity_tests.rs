use vrp_core::capacity::{
    accept_route_state, evaluate_hard_activity, evaluate_hard_route, ActivityContext,
    ActivityConstraintViolation, RouteConstraintViolation, CAPACITY_CONSTRAINT_CODE,
};
use vrp_core::constraints::{
    CURRENT_CAPACITY_KEY, MAX_FUTURE_CAPACITY_KEY, MAX_PAST_CAPACITY_KEY,
};
use vrp_core::route::{Activity, Route, RouteContext};

fn route_with_demands(demands: &[i64], capacity: i64) -> RouteContext {
    let route = Route {
        start: Activity::with_demand(0),
        end: Activity::with_demand(0),
        activities: demands.iter().map(|d| Activity::with_demand(*d)).collect(),
        capacity,
    };
    RouteContext::new(route)
}

fn current_at(ctx: &RouteContext, index: usize) -> i64 {
    ctx.state.get_activity_state(CURRENT_CAPACITY_KEY, index).unwrap()
}

#[test]
fn capacity_prefix_sums_mixed_demands() {
    let mut ctx = route_with_demands(&[-1, 2, -3], 10);
    accept_route_state(&mut ctx);
    // (start, end, a1, a2, a3)
    assert_eq!(current_at(&ctx, 0), 4);
    assert_eq!(current_at(&ctx, 4), 2);
    assert_eq!(current_at(&ctx, 1), 3);
    assert_eq!(current_at(&ctx, 2), 5);
    assert_eq!(current_at(&ctx, 3), 2);
}

#[test]
fn capacity_prefix_sums_pickup_first() {
    let mut ctx = route_with_demands(&[1, -2, 3], 10);
    accept_route_state(&mut ctx);
    assert_eq!(current_at(&ctx, 0), 2);
    assert_eq!(current_at(&ctx, 4), 4);
    assert_eq!(current_at(&ctx, 1), 3);
    assert_eq!(current_at(&ctx, 2), 1);
    assert_eq!(current_at(&ctx, 3), 4);
}

#[test]
fn capacity_prefix_sums_with_zero_demands() {
    let mut ctx = route_with_demands(&[0, 1, 0], 10);
    accept_route_state(&mut ctx);
    assert_eq!(current_at(&ctx, 0), 0);
    assert_eq!(current_at(&ctx, 4), 1);
    assert_eq!(current_at(&ctx, 1), 0);
    assert_eq!(current_at(&ctx, 2), 1);
    assert_eq!(current_at(&ctx, 3), 1);
}

#[test]
fn capacity_max_future_and_past() {
    let mut ctx = route_with_demands(&[-1, 2, -3], 10);
    accept_route_state(&mut ctx);
    // loads are (4, 3, 5, 2, 2); max future from start is 5, max past at end 5
    assert_eq!(ctx.state.get_activity_state(MAX_FUTURE_CAPACITY_KEY, 0).unwrap(), 5);
    assert_eq!(ctx.state.get_activity_state(MAX_FUTURE_CAPACITY_KEY, 3).unwrap(), 2);
    assert_eq!(ctx.state.get_activity_state(MAX_PAST_CAPACITY_KEY, 4).unwrap(), 5);
    assert_eq!(ctx.state.get_activity_state(MAX_PAST_CAPACITY_KEY, 1).unwrap(), 4);
}

#[test]
fn route_level_demand_reject() {
    let mut ctx = route_with_demands(&[], 10);
    accept_route_state(&mut ctx);
    assert_eq!(
        evaluate_hard_route(&ctx, 11),
        Some(RouteConstraintViolation { code: CAPACITY_CONSTRAINT_CODE })
    );
    assert_eq!(evaluate_hard_route(&ctx, 10), None);
    assert_eq!(evaluate_hard_route(&ctx, 9), None);
}

#[test]
fn route_level_delivery_reject() {
    let mut ctx = route_with_demands(&[], 10);
    accept_route_state(&mut ctx);
    assert_eq!(
        evaluate_hard_route(&ctx, -11),
        Some(RouteConstraintViolation { code: CAPACITY_CONSTRAINT_CODE })
    );
    assert_eq!(evaluate_hard_route(&ctx, -10), None);
}

fn activity_ctx(demand: i64, prev: usize, next: usize) -> ActivityContext {
    ActivityContext { index: 0, prev, next, target: Activity::with_demand(demand) }
}

#[test]
fn activity_level_insertion_overload() {
    let mut ctx = route_with_demands(&[1, 1], 10);
    accept_route_state(&mut ctx);
    let violation = evaluate_hard_activity(&ctx, &activity_ctx(10, 1, 2));
    assert_eq!(
        violation,
        Some(ActivityConstraintViolation { code: CAPACITY_CONSTRAINT_CODE, stopped: true })
    );
    assert_eq!(evaluate_hard_activity(&ctx, &activity_ctx(1, 1, 2)), None);
}

#[test]
fn activity_level_insertion_order_sensitivity() {
    // delivery then pickup leaves room in the middle
    let mut ctx = route_with_demands(&[-5, 5], 10);
    accept_route_state(&mut ctx);
    assert_eq!(evaluate_hard_activity(&ctx, &activity_ctx(1, 1, 2)), None);

    // pickup then delivery peaks at the middle
    let mut ctx = route_with_demands(&[5, -5], 10);
    accept_route_state(&mut ctx);
    let violation = evaluate_hard_activity(&ctx, &activity_ctx(1, 1, 2));
    assert_eq!(
        violation,
        Some(ActivityConstraintViolation { code: CAPACITY_CONSTRAINT_CODE, stopped: false })
    );
}

#[test]
fn activity_level_delivery_cases() {
    let mut ctx = route_with_demands(&[-5, -5], 10);
    accept_route_state(&mut ctx);
    let violation = evaluate_hard_activity(&ctx, &activity_ctx(-1, 1, 2));
    assert_eq!(
        violation,
        Some(ActivityConstraintViolation { code: CAPACITY_CONSTRAINT_CODE, stopped: true })
    );

    let mut ctx = route_with_demands(&[4, -5], 10);
    accept_route_state(&mut ctx);
    assert_eq!(evaluate_hard_activity(&ctx, &activity_ctx(-1, 1, 2)), None);
}

#[test]
fn accept_route_state_is_idempotent() {
    let mut ctx = route_with_demands(&[3, -2, 7], 9);
    accept_route_state(&mut ctx);
    let first: Vec<Option<i64>> = (0..5)
        .flat_map(|p| {
            vec![
                ctx.state.get_activity_state(CURRENT_CAPACITY_KEY, p),
                ctx.state.get_activity_state(MAX_FUTURE_CAPACITY_KEY, p),
                ctx.state.get_activity_state(MAX_PAST_CAPACITY_KEY, p),
            ]
        })
        .collect();
    accept_route_state(&mut ctx);
    let second: Vec<Option<i64>> = (0..5)
        .flat_map(|p| {
            vec![
                ctx.state.get_activity_state(CURRENT_CAPACITY_KEY, p),
                ctx.state.get_activity_state(MAX_FUTURE_CAPACITY_KEY, p),
                ctx.state.get_activity_state(MAX_PAST_CAPACITY_KEY, p),
            ]
        })
        .collect();
    assert_eq!(first, second);
}

#[test]
fn state_store_keeps_other_keys() {
    let mut ctx = route_with_demands(&[1], 10);
    ctx.state.put_route_state(3, 77);
    ctx.state.put_activity_state(5, 1, 42);
    accept_route_state(&mut ctx);
    assert_eq!(ctx.state.get_route_state(3), Some(77));
    assert_eq!(ctx.state.get_activity_state(5, 1), Some(42));
    ctx.state.remove(5);
    assert_eq!(ctx.state.get_activity_state(5, 1), None);
    ctx.state.clear();
    assert_eq!(ctx.state.get_route_state(3), None);
    assert_eq!(ctx.state.get_activity_state(CURRENT_CAPACITY_KEY, 0), None);
}
