use dfs_engine::dfs::Dfs;
use dfs_engine::graph::AdjacencyGraph;
use dfs_engine::provide::VisitLog;

fn complete_digraph(n: usize) -> AdjacencyGraph {
    let mut graph = AdjacencyGraph::with_vertices(n);
    for i in 0..n {
        for j in 0..n {
            if i != j {
                graph.add_edge(i, j);
            }
        }
    }
    graph
}

fn drain(graph: &AdjacencyGraph, src: usize) -> Vec<usize> {
    let mut dfs = Dfs::init(src);
    let mut order: Vec<usize> = Vec::new();
    while let Some(v) = dfs.next(graph) {
        order.push(v);
    }
    order
}

#[test]
fn dense_graph() {
    let graph = complete_digraph(5);
    for src_index in 0..5 {
        let mut dfs = Dfs::init(src_index);
        let mut count = 0usize;
        while let Some(_) = dfs.next(&graph) {
            count += 1;
        }
        assert_eq!(count, 5);
    }
}

#[test]
fn dense_graph_visits_each_vertex_once() {
    let graph = complete_digraph(5);
    for src_index in 0..5 {
        let mut order = drain(&graph, src_index);
        assert_eq!(order[0], src_index);
        order.sort();
        assert_eq!(order, vec![0, 1, 2, 3, 4]);
    }
}

#[test]
fn concrete_depth_first_order() {
    // 0 -> 1, 2 ; 1 -> 4 ; 2 -> 3. The last-scheduled neighbor is expanded
    // first, so the run dives through 2 and 3 before coming back to 1.
    let mut graph = AdjacencyGraph::with_vertices(5);
    graph.add_edge(0, 1);
    graph.add_edge(0, 2);
    graph.add_edge(1, 4);
    graph.add_edge(2, 3);
    assert_eq!(drain(&graph, 0), vec![0, 2, 3, 1, 4]);
}

#[test]
fn diamond_emits_shared_vertex_once() {
    // 0 -> 1, 2 ; 1 -> 3 ; 2 -> 3: vertex 3 has two ways in but comes out once.
    let mut graph = AdjacencyGraph::with_vertices(4);
    graph.add_edge(0, 1);
    graph.add_edge(0, 2);
    graph.add_edge(1, 3);
    graph.add_edge(2, 3);
    let order = drain(&graph, 0);
    assert_eq!(order, vec![0, 2, 3, 1]);
}

#[test]
fn cycle_terminates_and_covers() {
    // A directed cycle over 4 vertices: the visited filter breaks the loop.
    let mut graph = AdjacencyGraph::with_vertices(4);
    graph.add_edge(0, 1);
    graph.add_edge(1, 2);
    graph.add_edge(2, 3);
    graph.add_edge(3, 0);
    assert_eq!(drain(&graph, 1), vec![1, 2, 3, 0]);
}

#[test]
fn isolated_vertex_never_emitted() {
    // 0 <-> 1 form a component; vertex 2 has no incoming edge at all.
    let mut graph = AdjacencyGraph::with_vertices(3);
    graph.add_edge(0, 1);
    graph.add_edge(1, 0);
    let order = drain(&graph, 0);
    assert_eq!(order, vec![0, 1]);
    assert!(!order.contains(&2));
}

#[test]
fn source_with_no_edges_yields_itself() {
    let graph = AdjacencyGraph::with_vertices(3);
    assert_eq!(drain(&graph, 2), vec![2]);
}

#[test]
fn unknown_source_yields_one_vertex() {
    // A source the provider does not know has no neighbors: a one-vertex run.
    let graph = AdjacencyGraph::with_vertices(3);
    assert_eq!(drain(&graph, 7), vec![7]);
}

#[test]
fn self_loop_emitted_once() {
    // A vertex with an edge to itself is emitted exactly once: it is
    // recorded as visited before its neighbors are filtered.
    let mut graph = AdjacencyGraph::with_vertices(2);
    graph.add_edge(0, 0);
    graph.add_edge(0, 1);
    graph.add_edge(1, 1);
    assert_eq!(drain(&graph, 0), vec![0, 1]);

    let mut dfs = Dfs::init(0);
    let mut log = VisitLog::new();
    dfs.traverse_with(&graph, &mut log);
    let seen: Vec<usize> = log.entries.iter().map(|e| e.vertex).collect();
    assert_eq!(seen, vec![0, 1]);
    assert_eq!(dfs.next(&graph), None);
}

#[test]
fn stepping_matches_traverse_with() {
    let mut graph = AdjacencyGraph::with_vertices(6);
    graph.add_edge(0, 1);
    graph.add_edge(0, 2);
    graph.add_edge(1, 3);
    graph.add_edge(2, 3);
    graph.add_edge(3, 4);
    graph.add_edge(4, 0);
    graph.add_edge(2, 5);
    let stepped = drain(&graph, 0);

    let mut dfs = Dfs::init(0);
    let mut log = VisitLog::new();
    dfs.traverse_with(&graph, &mut log);
    let seen: Vec<usize> = log.entries.iter().map(|e| e.vertex).collect();
    assert_eq!(seen, stepped);
}

#[test]
fn traverse_with_on_dense_graph_from_every_source() {
    let graph = complete_digraph(5);
    for src_index in 0..5 {
        let mut dfs = Dfs::init(src_index);
        let mut log = VisitLog::new();
        dfs.traverse_with(&graph, &mut log);
        let mut seen: Vec<usize> = log.entries.iter().map(|e| e.vertex).collect();
        assert_eq!(seen, drain(&graph, src_index));
        seen.sort();
        assert_eq!(seen, vec![0, 1, 2, 3, 4]);
    }
}

#[test]
fn exhaustion_is_stable() {
    let mut graph = AdjacencyGraph::with_vertices(2);
    graph.add_edge(0, 1);
    let mut dfs = Dfs::init(0);
    while let Some(_) = dfs.next(&graph) {}
    for _ in 0..3 {
        assert_eq!(dfs.next(&graph), None);
    }
    // A drained engine also runs an empty traversal: the visitor hears nothing.
    let mut log = VisitLog::new();
    dfs.traverse_with(&graph, &mut log);
    assert!(log.entries.is_empty());
    assert_eq!(dfs.next(&graph), None);
}

#[test]
fn callback_sees_pre_expansion_state() {
    // 0 -> 1, 2: the visitor must see the frontier already missing the
    // popped vertex but not yet holding its neighbors, and the visited
    // record not yet holding the popped vertex.
    let mut graph = AdjacencyGraph::with_vertices(3);
    graph.add_edge(0, 1);
    graph.add_edge(0, 2);
    let mut dfs = Dfs::init(0);
    let mut log = VisitLog::new();
    dfs.traverse_with(&graph, &mut log);

    assert_eq!(log.entries.len(), 3);
    assert_eq!(log.entries[0].vertex, 0);
    assert_eq!(log.entries[0].neighbors, vec![1, 2]);
    assert_eq!(log.entries[0].frontier, Vec::<usize>::new());
    assert_eq!(log.entries[0].visited, Vec::<usize>::new());
    assert_eq!(log.entries[1].vertex, 2);
    assert_eq!(log.entries[1].neighbors, Vec::<usize>::new());
    assert_eq!(log.entries[1].frontier, vec![1]);
    assert_eq!(log.entries[1].visited, vec![0]);
    assert_eq!(log.entries[2].vertex, 1);
    assert_eq!(log.entries[2].neighbors, Vec::<usize>::new());
    assert_eq!(log.entries[2].frontier, Vec::<usize>::new());
    assert_eq!(log.entries[2].visited, vec![0, 2]);
}
