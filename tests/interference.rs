use fluido::interference::InterferenceGraphBuilder;

fn path_sets() -> Vec<Vec<usize>> {
    vec![vec![0, 1], vec![1, 2], vec![2, 3], vec![3, 4]]
}

#[test]
fn test_interference_graph_builder() {
    let liveness_analysis = path_sets();
    let builder = InterferenceGraphBuilder::new(&liveness_analysis);
    let graph = builder.build();

    assert_eq!(graph.node_count(), 5);
    assert_eq!(graph.edge_count(), 4);
}

#[test]
fn test_try_coloring_success() {
    let liveness_analysis = path_sets();
    let builder = InterferenceGraphBuilder::new(&liveness_analysis);
    let graph = builder.build();

    let coloring = graph.try_coloring(5);
    assert!(coloring.is_some());
    let coloring = coloring.unwrap();
    assert_eq!(coloring.len(), 5);
}

#[test]
fn test_try_coloring_failure() {
    let liveness_analysis = path_sets();
    let builder = InterferenceGraphBuilder::new(&liveness_analysis);
    let graph = builder.build();

    let coloring = graph.try_coloring(1);
    assert!(coloring.is_none());
}

#[test]
fn test_find_min_color_count() {
    let liveness_analysis = path_sets();
    let builder = InterferenceGraphBuilder::new(&liveness_analysis);
    let graph = builder.build();

    let min_colors = graph.find_min_color_count();
    assert_eq!(min_colors, 2);
}

#[test]
fn long_path_needs_two_colors() {
    let sets: Vec<Vec<usize>> = (0..12).map(|i| vec![i, i + 1]).collect();
    let graph = InterferenceGraphBuilder::new(&sets).build();
    assert_eq!(graph.find_min_color_count(), 2);
}

#[test]
fn triangle_needs_three_colors() {
    let sets: Vec<Vec<usize>> = vec![vec![0, 1, 2], vec![]];
    let graph = InterferenceGraphBuilder::new(&sets).build();
    assert_eq!(graph.node_count(), 3);
    assert_eq!(graph.edge_count(), 3);
    assert!(graph.try_coloring(2).is_none());
    assert_eq!(graph.find_min_color_count(), 3);
}

#[test]
fn odd_cycle_needs_three_colors() {
    let sets: Vec<Vec<usize>> = vec![vec![0, 1], vec![1, 2], vec![2, 3], vec![3, 4], vec![4, 0]];
    let graph = InterferenceGraphBuilder::new(&sets).build();
    assert_eq!(graph.find_min_color_count(), 3);
}

#[test]
fn graph_without_edges_needs_one_color() {
    let sets: Vec<Vec<usize>> = vec![vec![]];
    let builder = InterferenceGraphBuilder::new(&sets);
    assert_eq!(builder.number_of_variables_used(), 1);
    let graph = builder.build();
    assert_eq!(graph.edge_count(), 0);
    assert_eq!(graph.find_min_color_count(), 1);
}
