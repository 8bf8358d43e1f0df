use repartition_classes::dinic::Dinic;

#[test]
fn breadth_first_levels_are_least_distances() {
    let mut d = Dinic::new(4);
    d.add_edge(0, 1, 1);
    d.add_edge(1, 2, 1);
    d.add_edge(0, 2, 1);
    d.add_edge(2, 3, 0);
    let mut level = vec![0i32; 4];
    assert!(!d.bfs(0, 3, &mut level));
    assert_eq!(level, vec![0, 1, 1, -1]);
    assert!(d.bfs(0, 2, &mut level));
}

#[test]
fn maximum_flow_of_a_small_network() {
    let mut d = Dinic::new(4);
    d.add_edge(0, 1, 3);
    d.add_edge(0, 2, 2);
    d.add_edge(1, 2, 1);
    d.add_edge(1, 3, 1);
    d.add_edge(2, 3, 3);
    assert_eq!(d.max_flow(0, 3), 4);
}

#[test]
fn capacities_beyond_32_bits_are_carried() {
    let mut d = Dinic::new(3);
    d.add_edge(0, 1, 5_000_000_000);
    d.add_edge(1, 2, 6_000_000_000);
    assert_eq!(d.max_flow(0, 2), 5_000_000_000);
}
