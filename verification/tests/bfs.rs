use algorithms::bfs::Graph;

#[test]
fn test_bfs_all_nodes_visited() {
    let mut graph = Graph::new(5);
    graph.add_edge(0, 1);
    graph.add_edge(0, 4);
    graph.add_edge(1, 2);
    graph.add_edge(1, 3);
    graph.add_edge(1, 4);
    graph.add_edge(2, 3);
    graph.add_edge(3, 4);

    let visited_order = graph.bfs_with_return(0);
    assert_eq!(visited_order, vec![0, 1, 4, 2, 3]);
}

#[test]
fn test_bfs_different_start() {
    let mut graph = Graph::new(3);
    graph.add_edge(0, 1);
    graph.add_edge(1, 2);

    let visited_order = graph.bfs_with_return(2);
    assert_eq!(visited_order, vec![2, 1, 0]);
}

#[test]
fn test_bfs_with_cycle() {
    let mut graph = Graph::new(3);
    graph.add_edge(0, 1);
    graph.add_edge(1, 2);
    graph.add_edge(2, 0);

    let visited_order = graph.bfs_with_return(0);
    assert_eq!(visited_order, vec![0, 1, 2]);
}

#[test]
fn test_bfs_single_node() {
    let mut graph = Graph::new(1);

    let visited_order = graph.bfs_with_return(0);
    assert_eq!(visited_order, vec![0]);
}

#[test]
fn bfs_of_a_graph_without_vertices() {
    let graph = Graph::new(0);
    assert_eq!(graph.bfs_with_return(0), Vec::<usize>::new());
    assert_eq!(graph.bfs_with_return(5), Vec::<usize>::new());
}

#[test]
fn bfs_leaves_out_what_cannot_be_reached() {
    let mut graph = Graph::new(5);
    graph.add_edge(0, 1);
    graph.add_edge(2, 3);
    assert_eq!(graph.bfs_with_return(0), vec![0, 1]);
    assert_eq!(graph.bfs_with_return(3), vec![3, 2]);
    assert_eq!(graph.bfs_with_return(4), vec![4]);
}

#[test]
fn bfs_follows_the_order_of_the_edges() {
    let mut first = Graph::new(4);
    first.add_edge(0, 1);
    first.add_edge(0, 2);
    first.add_edge(0, 3);
    assert_eq!(first.bfs_with_return(0), vec![0, 1, 2, 3]);

    let mut second = Graph::new(4);
    second.add_edge(0, 3);
    second.add_edge(0, 2);
    second.add_edge(0, 1);
    assert_eq!(second.bfs_with_return(0), vec![0, 3, 2, 1]);
}

#[test]
fn bfs_goes_level_by_level() {
    let mut graph = Graph::new(7);
    graph.add_edge(0, 1);
    graph.add_edge(1, 3);
    graph.add_edge(0, 2);
    graph.add_edge(3, 6);
    graph.add_edge(2, 4);
    graph.add_edge(2, 5);
    assert_eq!(graph.bfs_with_return(0), vec![0, 1, 2, 3, 4, 5, 6]);
}

#[test]
fn bfs_with_a_loop_and_a_doubled_edge() {
    let mut graph = Graph::new(3);
    graph.add_edge(0, 0);
    graph.add_edge(0, 2);
    graph.add_edge(0, 2);
    graph.add_edge(2, 1);
    assert_eq!(graph.bfs_with_return(0), vec![0, 2, 1]);
    assert_eq!(graph.bfs_with_return(1), vec![1, 2, 0]);
}

#[test]
fn bfs_is_the_same_each_time() {
    let mut graph = Graph::new(5);
    graph.add_edge(4, 0);
    graph.add_edge(4, 2);
    graph.add_edge(2, 1);
    graph.add_edge(0, 3);
    let once = graph.bfs_with_return(4);
    let twice = graph.bfs_with_return(4);
    assert_eq!(once, vec![4, 0, 2, 3, 1]);
    assert_eq!(once, twice);
}
