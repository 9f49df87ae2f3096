use graph_description::render;

#[test]
fn empty_graph_is_empty() {
    assert_eq!(render(&vec![], &vec![]), "");
}

#[test]
fn unconnected_nodes_each_print_once() {
    assert_eq!(render(&vec![1, 2], &vec![]), "(node ) (node ) ");
}

#[test]
fn self_loop_is_not_a_root() {
    assert_eq!(render(&vec![1], &vec![(1, 1)]), "");
}

#[test]
fn linear_chain_nests() {
    let conns = vec![(1, 2), (2, 3)];
    assert_eq!(render(&vec![1, 2, 3], &conns), "(node (node (node ) ) ) ");
}

#[test]
fn cycle_below_a_consumer_is_cut() {
    let conns = vec![(1, 2), (2, 3), (3, 2), (4, 1)];
    assert_eq!(
        render(&vec![1, 2, 3, 4], &conns),
        "(node (node (node (node ...) ) ) ) "
    );
}

#[test]
fn same_inputs_same_output() {
    let nodes = vec![5, 3, 9, 1];
    let conns = vec![(5, 3), (9, 5), (9, 1), (1, 3)];
    let first = render(&nodes, &conns);
    let second = render(&nodes, &conns);
    assert_eq!(first, second);
    assert_eq!(first, "(node (node (node ) ) (node ...) ) ");
}

#[test]
fn node_order_and_repeats_do_not_matter() {
    let conns = vec![(2, 1)];
    let a = render(&vec![1, 2, 3], &conns);
    let b = render(&vec![3, 2, 2, 1, 3], &conns);
    assert_eq!(a, b);
    assert_eq!(a, "(node (node ) ) (node ) ");
}

#[test]
fn roots_follow_ascending_ids() {
    // 30 takes from 10, 20 takes from nothing: roots are 20 and 30.
    let conns = vec![(30, 10)];
    assert_eq!(render(&vec![30, 10, 20], &conns), "(node ) (node (node ) ) ");
}

#[test]
fn shared_producer_expanded_once() {
    let conns = vec![(1, 2), (1, 3), (2, 4), (3, 4)];
    assert_eq!(
        render(&vec![1, 2, 3, 4], &conns),
        "(node (node (node ) ) (node ...) ) "
    );
}

#[test]
fn isolated_cycle_is_omitted() {
    let conns = vec![(1, 2), (2, 1)];
    assert_eq!(render(&vec![1, 2, 3], &conns), "(node ) ");
}

#[test]
fn producers_keep_connection_order() {
    let conns = vec![(1, 3), (1, 2), (3, 4)];
    assert_eq!(
        render(&vec![1, 2, 3, 4], &conns),
        "(node (node (node ) ) (node ) ) "
    );
}

#[test]
fn repeated_connection_prints_seen_marker() {
    let conns = vec![(1, 2), (1, 2)];
    assert_eq!(render(&vec![1, 2], &conns), "(node (node ) ...) ");
}

#[test]
fn largest_identifiers() {
    let conns = vec![(u64::MAX, 0)];
    assert_eq!(render(&vec![0, u64::MAX], &conns), "(node (node ) ) ");
}

#[test]
fn long_cycle_with_consumer_terminates() {
    // 0 takes from 1, 1 from 2, ..., 99 from 0; 100 takes from 0.
    let mut conns: Vec<(u64, u64)> = (0..100u64).map(|k| (k, (k + 1) % 100)).collect();
    conns.push((100, 0));
    let nodes: Vec<u64> = (0..=100u64).collect();
    let mut expected = String::new();
    for _ in 0..101 {
        expected.push_str("(node ");
    }
    expected.push_str("...");
    for _ in 0..101 {
        expected.push_str(") ");
    }
    assert_eq!(render(&nodes, &conns), expected);
}
