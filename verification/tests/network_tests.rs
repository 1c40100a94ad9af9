use vrp_core::network::{Network, NetworkConfig};
use vrp_core::node::{Coordinate, Input};
use vrp_core::rng::seeded_rng;

fn corners() -> Vec<Input> {
    // unit square corners in per-mille fixed point, in the seeding order
    // (0,0), (0,1), (1,1), (1,0)
    vec![
        Input::new(vec![0, 0]),
        Input::new(vec![0, 1000]),
        Input::new(vec![1000, 1000]),
        Input::new(vec![1000, 0]),
    ]
}

fn config(growing_threshold: i64) -> NetworkConfig {
    NetworkConfig {
        growing_threshold,
        distribution_factor: 250,
        learning_rate: 100,
        rebalance_memory: 10,
        has_initial_error: false,
    }
}

fn total_stored(network: &Network) -> usize {
    network.get_nodes().iter().map(|n| n.storage.len()).sum()
}

#[test]
fn seeding_creates_four_corner_nodes() {
    let mut rng = seeded_rng(7);
    let network = Network::new(corners(), config(1000), &mut rng);
    assert_eq!(network.size(), 4);
    assert_eq!(network.get_current_time(), 0);
    for c in [Coordinate(0, 0), Coordinate(0, 1), Coordinate(1, 1), Coordinate(1, 0)] {
        assert!(network.find(&c).is_some());
    }
    assert!(network.find(&Coordinate(2, 2)).is_none());
    // each seed node stores its root input
    assert_eq!(total_stored(&network), 4);
    // noise keeps every weight within five percent of its root value
    let node = network.find(&Coordinate(1, 1)).unwrap();
    for w in node.weights.iter() {
        assert!(*w >= 950 && *w <= 1050);
    }
}

#[test]
fn outlier_grows_boundary_nodes() {
    let mut rng = seeded_rng(7);
    let mut network = Network::new(corners(), config(1), &mut rng);
    network.store(Input::new(vec![10000, 10000]), 1);
    // the best matching unit is the corner nearest the outlier, (1, 1);
    // its free cardinal sides (2, 1) and (1, 2) each grow a node
    assert_eq!(network.size(), 6);
    assert!(network.find(&Coordinate(2, 1)).is_some());
    assert!(network.find(&Coordinate(1, 2)).is_some());
    assert_eq!(network.get_current_time(), 1);
    // growth locality: every coordinate sits one step from another node
    let coords = network.get_coordinates();
    for c in coords.iter() {
        let adjacent = coords
            .iter()
            .any(|d| (c.0 - d.0).abs() + (c.1 - d.1).abs() == 1);
        assert!(adjacent);
    }
    // the outlier was stored at its best matching unit
    assert_eq!(total_stored(&network), 5);
}

#[test]
fn interior_store_adjusts_without_growth() {
    let mut rng = seeded_rng(11);
    let mut network = Network::new(corners(), config(1000000000000000), &mut rng);
    network.store(Input::new(vec![400, 400]), 1);
    assert_eq!(network.size(), 4);
    assert_eq!(total_stored(&network), 5);
}

#[test]
fn network_size_never_drops_below_four() {
    let mut rng = seeded_rng(13);
    let mut network = Network::new(corners(), config(1), &mut rng);
    network.store(Input::new(vec![10000, 10000]), 1);
    assert!(network.size() >= 4);
    // a filter that rejects every node still leaves four
    network.retrain(1, &|_n: &vrp_core::node::Node| false, &mut rng);
    assert_eq!(network.size(), 4);
    // a filter that keeps every node changes nothing
    let before = network.size();
    network.retrain(1, &|_n: &vrp_core::node::Node| true, &mut rng);
    assert!(network.size() >= before);
}

#[test]
fn weight_envelope_covers_created_nodes() {
    let mut rng = seeded_rng(17);
    let mut network = Network::new(corners(), config(1), &mut rng);
    network.store(Input::new(vec![10000, 10000]), 1);
    // the envelope is the element-wise extreme of every weight vector a
    // node was created with, so each grown node's starting weights lie
    // within it; seed nodes may have drifted by later adjustment
    for c in [Coordinate(2, 1), Coordinate(1, 2)] {
        let node = network.find(&c).unwrap();
        for (d, w) in node.weights.iter().enumerate() {
            assert!(network.min_weights[d] <= *w);
            assert!(network.max_weights[d] >= *w);
        }
    }
}

#[test]
fn same_seed_and_inputs_give_identical_networks() {
    let run = || {
        let mut rng = seeded_rng(99);
        let mut network = Network::new(corners(), config(50), &mut rng);
        for (t, v) in [(1, vec![100, 900]), (2, vec![5000, 5000]), (3, vec![-700, 300])]
            .into_iter()
            .enumerate()
        {
            network.store(Input::new(v.1), t + 1);
        }
        network
    };
    let a = run();
    let b = run();
    assert_eq!(a.size(), b.size());
    let ca = a.get_coordinates();
    let cb = b.get_coordinates();
    assert_eq!(ca, cb);
    let na = a.get_nodes();
    let nb = b.get_nodes();
    for (x, y) in na.iter().zip(nb.iter()) {
        assert_eq!(x.weights, y.weights);
        assert_eq!(x.error, y.error);
        assert_eq!(x.total_hits, y.total_hits);
        assert_eq!(x.storage.len(), y.storage.len());
    }
}

#[test]
fn store_batch_applies_updates_in_order() {
    let mut rng = seeded_rng(3);
    let mut network = Network::new(corners(), config(1000000000000000), &mut rng);
    network.store_batch(vec![100i64, 200, 300], 5, |v: i64| Input::new(vec![v, v]));
    assert_eq!(network.get_current_time(), 5);
    assert_eq!(total_stored(&network), 7);
    assert_eq!(network.size(), 4);
}

#[test]
fn iter_matches_coordinates_and_nodes() {
    let mut rng = seeded_rng(5);
    let network = Network::new(corners(), config(1000), &mut rng);
    let pairs = network.iter();
    assert_eq!(pairs.len(), 4);
    for (c, n) in pairs.iter() {
        assert_eq!(*c, n.coordinate);
    }
}
