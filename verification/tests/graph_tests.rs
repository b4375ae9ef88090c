use merge_dfs::graph::Graph;
use merge_dfs::graph::StackWrapper;

#[test]
fn test_dfs_simple() {
    let mut graph = Graph::new(3);
    graph.add_edge(0, 1);
    graph.add_edge(1, 2);

    let visit_order = graph.dfs(0);
    assert_eq!(visit_order, vec![0, 1, 2]);
}

#[test]
fn test_dfs_with_cycle() {
    let mut graph = Graph::new(4);
    graph.add_edge(0, 1);
    graph.add_edge(0, 2);
    graph.add_edge(1, 2);
    graph.add_edge(2, 3);
    graph.add_edge(3, 3);

    let visit_order = graph.dfs(0);
    assert_eq!(visit_order, vec![0, 1, 2, 3]);
}

#[test]
fn test_dfs_disconnected_graph() {
    let mut graph = Graph::new(5);
    graph.add_edge(0, 1);
    graph.add_edge(0, 2);
    graph.add_edge(3, 4);

    let visit_order = graph.dfs(0);
    assert_eq!(visit_order, vec![0, 1, 2]);
    let visit_order_disconnected = graph.dfs(3);
    assert_eq!(visit_order_disconnected, vec![3, 4]);
}

#[test]
fn dfs_single_vertex() {
    let graph = Graph::new(1);
    assert_eq!(graph.dfs(0), vec![0]);
}

#[test]
fn dfs_isolated_start() {
    let mut graph = Graph::new(4);
    graph.add_edge(1, 2);
    assert_eq!(graph.dfs(0), vec![0]);
    assert_eq!(graph.dfs(3), vec![3]);
}

#[test]
fn dfs_follows_insertion_order_of_edges() {
    // The first-added neighbor of the start vertex is visited first.
    let mut graph = Graph::new(3);
    graph.add_edge(0, 2);
    graph.add_edge(0, 1);
    assert_eq!(graph.dfs(0), vec![0, 2, 1]);
}

#[test]
fn dfs_goes_deep_before_wide() {
    // 0 joins 1 and 3; 1 joins 2. The walk finishes 1's branch before 3.
    let mut graph = Graph::new(4);
    graph.add_edge(0, 1);
    graph.add_edge(0, 3);
    graph.add_edge(1, 2);
    assert_eq!(graph.dfs(0), vec![0, 1, 2, 3]);
}

#[test]
fn dfs_undirected_edges_work_both_ways() {
    let mut graph = Graph::new(3);
    graph.add_edge(2, 1);
    graph.add_edge(1, 0);
    assert_eq!(graph.dfs(0), vec![0, 1, 2]);
}

#[test]
fn stack_wrapper_is_last_in_first_out() {
    let mut stack = StackWrapper::new();
    assert_eq!(stack.pop(), None);
    stack.push(1);
    stack.push(2);
    stack.push(3);
    assert_eq!(stack.pop(), Some(3));
    assert_eq!(stack.pop(), Some(2));
    stack.push(4);
    assert_eq!(stack.pop(), Some(4));
    assert_eq!(stack.pop(), Some(1));
    assert_eq!(stack.pop(), None);
}
