use vrp_core::constraints::{
    update_route_schedule, TransportCost, TOTAL_DISTANCE_KEY, TOTAL_DURATION_KEY, WAITING_KEY,
};
use vrp_core::network::{Network, NetworkConfig};
use vrp_core::node::Input;
use vrp_core::rng::seeded_rng;
use vrp_core::route::{Activity, Route, RouteContext};
use vrp_core::solver::{
    create_partial_refinement_method, dominates, RefinementContext, RefinementSpeed,
    SearchOperator, Solver,
};

struct FixedCost;

impl TransportCost for FixedCost {
    fn duration(&self, _from: u64, _to: u64, _departure: i64) -> i64 {
        10
    }

    fn distance(&self, _from: u64, _to: u64, _departure: i64) -> i64 {
        7
    }
}

fn place_at(place: u64, tw_start: i64) -> Activity {
    Activity { demand: 0, place, tw_start, tw_end: 1000, arrival: 0, departure: 0, duration: 0 }
}

#[test]
fn schedule_walks_the_tour() {
    let route = Route {
        start: place_at(0, 0),
        end: place_at(3, 0),
        activities: vec![place_at(1, 0), place_at(2, 0)],
        capacity: 10,
    };
    let mut ctx = RouteContext::new(route);
    update_route_schedule(&mut ctx, &FixedCost);
    assert_eq!(ctx.route.activities[0].arrival, 10);
    assert_eq!(ctx.route.activities[0].departure, 10);
    assert_eq!(ctx.route.activities[1].arrival, 20);
    assert_eq!(ctx.route.activities[1].departure, 20);
    assert_eq!(ctx.route.end.arrival, 30);
    assert_eq!(ctx.state.get_route_state(TOTAL_DISTANCE_KEY), Some(21));
    assert_eq!(ctx.state.get_route_state(TOTAL_DURATION_KEY), Some(30));
    assert_eq!(ctx.state.get_route_state(WAITING_KEY), Some(0));
}

#[test]
fn schedule_waits_for_time_windows() {
    let route = Route {
        start: place_at(0, 0),
        end: place_at(2, 0),
        activities: vec![place_at(1, 50)],
        capacity: 10,
    };
    let mut ctx = RouteContext::new(route);
    update_route_schedule(&mut ctx, &FixedCost);
    // arrives at 10, waits until the window opens at 50
    assert_eq!(ctx.route.activities[0].arrival, 10);
    assert_eq!(ctx.route.activities[0].departure, 50);
    assert_eq!(ctx.state.get_route_state(WAITING_KEY), Some(40));
    assert_eq!(ctx.state.get_route_state(TOTAL_DURATION_KEY), Some(60));
}

#[test]
fn dominance_is_elementwise() {
    assert!(dominates(&vec![1, 2], &vec![2, 2]));
    assert!(!dominates(&vec![2, 2], &vec![2, 2]));
    assert!(!dominates(&vec![1, 3], &vec![2, 2]));
}

struct Improver;

impl SearchOperator for Improver {
    fn search(&self, parent: &Input) -> Input {
        let weights = parent.weights.iter().map(|w| if *w > 0 { w - 1 } else { 0 }).collect();
        Input { weights }
    }
}

fn seeded_population() -> Network {
    let mut rng = seeded_rng(21);
    let roots = vec![
        Input::new(vec![5, 5]),
        Input::new(vec![5, 9]),
        Input::new(vec![9, 9]),
        Input::new(vec![9, 5]),
    ];
    let config = NetworkConfig {
        growing_threshold: 1000000000000000,
        distribution_factor: 250,
        learning_rate: 100,
        rebalance_memory: 10,
        has_initial_error: false,
    };
    Network::new(roots, config, &mut rng)
}

#[test]
fn solve_returns_an_undominated_solution() {
    let mut ctx = RefinementContext::new(seeded_population());
    let solver = Solver { max_generations: 6 };
    let result = solver.solve(&mut ctx, &Improver);
    let (best, cost) = result.expect("a population seeded with four roots always has a solution");
    assert_eq!(cost, best.weights.iter().sum::<i64>());
    // six generations of decrementing the cheapest parent reach a strictly
    // better aggregate than the best seed (5 + 5 = 10)
    assert!(cost < 10);
    assert_eq!(ctx.statistics.generation, 6);
}

#[test]
fn refinement_context_keeps_keyed_state() {
    let mut ctx = RefinementContext::new(seeded_population());
    assert_eq!(ctx.get_state(4), None);
    ctx.set_state(4, -3);
    ctx.set_state(9, 12);
    assert_eq!(ctx.get_state(4), Some(-3));
    assert_eq!(ctx.get_state(9), Some(12));
    assert_eq!(ctx.get_state(5), None);
    let _speed = RefinementSpeed::Moderate;
}

#[test]
fn partial_refinement_method_reports_failure() {
    let ctx = RefinementContext::new(seeded_population());
    assert!(create_partial_refinement_method(&ctx).is_err());
}
