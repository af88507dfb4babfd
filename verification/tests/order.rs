use bevy_bhtn::order::{linearize, topo_order_count, LINEARIZATION_CAP};

fn preds_of(edges: &[(u8, u8)], n: usize) -> Vec<u64> {
    let mut preds = vec![0u64; n];
    for &(a, b) in edges {
        preds[b as usize] |= 1 << a;
    }
    preds
}

#[test]
fn order_zero_is_the_declaration_order_when_it_is_topological() {
    // Edges 0→2, 1→2: declaration order [0, 1, 2] is topological.
    let preds = preds_of(&[(0, 2), (1, 2)], 3);
    assert_eq!(
        linearize(&preds, 0).map(|o| o.to_vec()),
        Some(vec![0, 1, 2])
    );
    // The only other order puts 1 before 0.
    assert_eq!(
        linearize(&preds, 1).map(|o| o.to_vec()),
        Some(vec![1, 0, 2])
    );
    assert_eq!(linearize(&preds, 2), None, "exactly two orders exist");
}

#[test]
fn unconstrained_sets_enumerate_every_permutation() {
    let preds = preds_of(&[], 3);
    assert_eq!(topo_order_count(&preds, 1000), 6);
    let mut seen = std::collections::HashSet::new();
    for k in 0..6 {
        let order = linearize(&preds, k).expect("order exists");
        assert_eq!(order.len(), 3);
        seen.insert(order.to_vec());
    }
    assert_eq!(seen.len(), 6, "all orders distinct");
    assert_eq!(linearize(&preds, 6), None);
}

#[test]
fn counts_are_capped() {
    let preds = preds_of(&[], 4);
    assert_eq!(topo_order_count(&preds, 1000), 24);
    assert_eq!(topo_order_count(&preds, 5), 5, "cap reached");
    // 5 unconstrained members admit 120 orders — above the cap.
    let five = preds_of(&[], 5);
    assert_eq!(
        topo_order_count(&five, LINEARIZATION_CAP),
        LINEARIZATION_CAP,
        "capped at the linearization limit"
    );
}

#[test]
fn cyclic_constraints_have_zero_orders() {
    // 0→1 and 1→0: no complete order exists.
    let preds = preds_of(&[(0, 1), (1, 0)], 2);
    assert_eq!(topo_order_count(&preds, 10), 0);
    assert_eq!(linearize(&preds, 0), None);
    // A self-edge is a cycle too.
    let self_loop = preds_of(&[(0, 0)], 1);
    assert_eq!(topo_order_count(&self_loop, 10), 0);
}

#[test]
fn enumeration_is_deterministic_and_lexicographic() {
    let preds = preds_of(&[], 3);
    let orders: Vec<Vec<u8>> = (0..6)
        .map(|k| linearize(&preds, k).expect("order").to_vec())
        .collect();
    let mut sorted = orders.clone();
    sorted.sort();
    assert_eq!(orders, sorted, "ascending-position choice order");
    assert_eq!(orders[0], vec![0, 1, 2]);
}

#[test]
fn a_set_without_members_has_the_empty_order() {
    assert_eq!(topo_order_count(&[], 10), 1);
    assert_eq!(topo_order_count(&[], 1), 1);
    assert_eq!(linearize(&[], 0).map(|o| o.to_vec()), Some(vec![]));
    assert_eq!(linearize(&[], 1), None);
}

#[test]
fn a_cap_of_nothing_counts_nothing() {
    assert_eq!(topo_order_count(&[], 0), 0);
    assert_eq!(topo_order_count(&preds_of(&[], 1), 0), 0);
    assert_eq!(topo_order_count(&preds_of(&[], 3), 1), 1);
}
