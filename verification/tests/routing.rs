use pirx::circuit::GridPosition;
use pirx::routing::{build_position_index, ManhattanRouting, RoutingKind, RoutingModel, ScalarRouting};

fn two_qubit_index() -> Vec<(u32, u32)> {
    vec![(0, 0), (0, 1)]
}

#[test]
fn scalar_single_qubit_zero_cost() {
    let r = ScalarRouting { overhead_cycles: 5 };
    assert_eq!(r.latency(&[0], &[]), 0);
}

#[test]
fn scalar_two_qubit_fixed_cost() {
    let r = ScalarRouting { overhead_cycles: 5 };
    assert_eq!(r.latency(&[0, 1], &two_qubit_index()), 5);
}

#[test]
fn manhattan_single_qubit_zero_cost() {
    let r = ManhattanRouting { cycles_per_hop: 1 };
    assert_eq!(r.latency(&[0], &two_qubit_index()), 0);
}

#[test]
fn manhattan_adjacent_qubits() {
    let r = ManhattanRouting { cycles_per_hop: 1 };
    assert_eq!(r.latency(&[0, 1], &two_qubit_index()), 1);
}

#[test]
fn manhattan_distant_qubits() {
    let r = ManhattanRouting { cycles_per_hop: 1 };
    let positions = vec![(0, 0), (5, 7)];
    assert_eq!(r.latency(&[0, 1], &positions), 12);
}

#[test]
fn manhattan_cycles_per_hop_multiplier() {
    let r = ManhattanRouting { cycles_per_hop: 3 };
    let positions = vec![(0, 0), (2, 1)];
    assert_eq!(r.latency(&[0, 1], &positions), 9);
}

#[test]
fn manhattan_missing_position_returns_zero() {
    let r = ManhattanRouting { cycles_per_hop: 1 };
    assert_eq!(r.latency(&[0, 5], &two_qubit_index()), 0);
}

#[test]
fn build_index_maps_positions() {
    let positions = vec![
        GridPosition { qubit: 0, row: 3, col: 7 },
        GridPosition { qubit: 2, row: 1, col: 4 },
    ];
    let idx = build_position_index(&positions, 3);
    assert_eq!(idx, vec![(3, 7), (0, 0), (1, 4)]);
}

#[test]
fn manhattan_latency_saturates() {
    let r = ManhattanRouting { cycles_per_hop: u32::MAX };
    let positions = vec![(0, 0), (u32::MAX, u32::MAX)];
    assert_eq!(r.latency(&[0, 1], &positions), u32::MAX);
}

#[test]
fn manhattan_reversed_coordinates_use_distance() {
    let r = ManhattanRouting { cycles_per_hop: 2 };
    let positions = vec![(4, 9), (1, 2)];
    assert_eq!(r.latency(&[0, 1], &positions), 20);
}

#[test]
fn routing_kind_dispatches() {
    let scalar = RoutingKind::Scalar(ScalarRouting { overhead_cycles: 5 });
    let manhattan = RoutingKind::Manhattan(ManhattanRouting { cycles_per_hop: 2 });
    let positions = vec![(0, 0), (1, 1)];
    assert_eq!(scalar.latency(&[0, 1], &positions), 5);
    assert_eq!(manhattan.latency(&[0, 1], &positions), 4);
}

#[test]
fn build_index_ignores_out_of_range_and_later_entry_wins() {
    let positions = vec![
        GridPosition { qubit: 1, row: 3, col: 3 },
        GridPosition { qubit: 7, row: 9, col: 9 },
        GridPosition { qubit: 1, row: 5, col: 6 },
    ];
    let idx = build_position_index(&positions, 2);
    assert_eq!(idx, vec![(0, 0), (5, 6)]);
}
