use breplot::grid::{insert_sorted, CellGrid};
use breplot::mesh::silhouette_edges;

#[test]
fn registered_triangle_is_a_candidate_of_overlapping_queries() {
    let mut g = CellGrid::new(4);
    assert_eq!(g.size(), 4);
    g.insert(7, 1, 1, 2, 2);
    g.insert(3, 0, 0, 0, 0);
    g.insert(5, 2, 0, 3, 3);
    assert_eq!(g.candidates(0, 0, 3, 3), vec![3, 5, 7]);
    assert_eq!(g.candidates(2, 2, 2, 2), vec![5, 7]);
    assert_eq!(g.candidates(0, 0, 0, 0), vec![3]);
    assert_eq!(g.candidates(0, 3, 1, 3), Vec::<usize>::new());
    // A reversed rectangle covers no cell.
    assert_eq!(g.candidates(3, 3, 0, 0), Vec::<usize>::new());
}

#[test]
fn empty_grid_has_no_candidates() {
    let g = CellGrid::new(2);
    assert!(g.candidates(0, 0, 1, 1).is_empty());
}

#[test]
fn cell_index_clamps_to_the_grid() {
    let g = CellGrid::new(8);
    assert_eq!(g.cell_index(-3), 0);
    assert_eq!(g.cell_index(0), 0);
    assert_eq!(g.cell_index(5), 5);
    assert_eq!(g.cell_index(8), 7);
    assert_eq!(g.cell_index(1000), 7);
}

#[test]
fn sorted_insertion_keeps_one_of_each() {
    let mut v = vec![1, 4, 9];
    insert_sorted(&mut v, 4);
    assert_eq!(v, vec![1, 4, 9]);
    insert_sorted(&mut v, 0);
    insert_sorted(&mut v, 6);
    insert_sorted(&mut v, 12);
    assert_eq!(v, vec![0, 1, 4, 6, 9, 12]);
}

#[test]
fn edge_between_front_and_back_triangle_is_a_silhouette() {
    // Two triangles share the edge 1-2; the first faces the viewer.
    let indices = [0, 1, 2, 2, 1, 3];
    let front = [Some(true), Some(false)];
    assert_eq!(silhouette_edges(&indices, &front), vec![(1, 2)]);
}

#[test]
fn edge_between_two_front_triangles_is_not_a_silhouette() {
    let indices = [0, 1, 2, 2, 1, 3];
    assert!(silhouette_edges(&indices, &[Some(true), Some(true)]).is_empty());
}

#[test]
fn undrawn_triangles_do_not_count() {
    let indices = [0, 1, 2, 2, 1, 3];
    assert!(silhouette_edges(&indices, &[Some(true), None]).is_empty());
}

#[test]
fn edge_of_three_triangles_is_not_a_silhouette() {
    let indices = [0, 1, 2, 2, 1, 3, 1, 2, 4];
    let front = [Some(true), Some(false), Some(false)];
    assert!(silhouette_edges(&indices, &front).is_empty());
}

#[test]
fn every_silhouette_edge_is_reported_once() {
    // A fan around vertex 0 with alternating orientation.
    let indices = [0, 1, 2, 0, 2, 3, 0, 3, 4];
    let front = [Some(true), Some(false), Some(true)];
    let mut edges = silhouette_edges(&indices, &front);
    edges.sort();
    assert_eq!(edges, vec![(0, 2), (0, 3)]);
}
