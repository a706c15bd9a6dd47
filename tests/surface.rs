use single_variable_function_mesh::error::MeshError;
use single_variable_function_mesh::sampling::ZERO_KEY;
use single_variable_function_mesh::surface::{
    layer_count, on_lower_half, surface_indices, surface_vertex_count, surface_vertices, MIN_RING,
};

#[test]
fn single_layer_is_a_fan_to_the_top_pole() {
    assert_eq!(surface_indices(3, 1), Ok(vec![1, 2, 4, 2, 3, 4, 3, 1, 4]));
}

#[test]
fn two_layers_exact_buffer() {
    let expected: Vec<u32> = vec![
        2, 1, 0, 3, 2, 0, 1, 3, 0, // bottom cap
        2, 5, 4, 1, 2, 4, //
        3, 6, 5, 2, 3, 5, //
        1, 4, 6, 3, 1, 6, // side walls
        4, 5, 7, 5, 6, 7, 6, 4, 7, // top cap
    ];
    assert_eq!(surface_indices(3, 2), Ok(expected));
}

#[test]
fn indices_stay_in_range() {
    for (n, layers) in [(3usize, 1usize), (4, 3), (10, 7), (38, 17)] {
        let total = surface_vertex_count(n, layers).unwrap();
        let indices = surface_indices(n, layers).unwrap();
        assert_eq!(indices.len() % 3, 0);
        let expected_triangles = if layers > 1 { 2 * n * layers } else { n };
        assert_eq!(indices.len() / 3, expected_triangles);
        assert!(indices.iter().all(|&i| (i as u64) < total));
        assert!(indices.iter().any(|&i| i as u64 == total - 1));
    }
}

#[test]
fn walls_wrap_at_the_seam() {
    let n = 5usize;
    let layers = 3usize;
    let indices = surface_indices(n, layers).unwrap();
    let walls = &indices[3 * n..3 * n + 6 * n * (layers - 1)];
    for seg in 1..layers {
        let quad = (seg - 1) * n + (n - 1);
        let first = &walls[6 * quad..6 * quad + 3];
        let second = &walls[6 * quad + 3..6 * quad + 6];
        let lower_first = ((seg - 1) * n + 1) as u32;
        let upper_first = (seg * n + 1) as u32;
        assert_eq!(first[0], lower_first);
        assert_eq!(first[1], upper_first);
        assert_eq!(second[1], lower_first);
        assert!(walls.iter().all(|&i| (i as usize) <= layers * n));
    }
}

#[test]
fn every_wall_edge_is_shared_by_two_triangles() {
    let n = 6usize;
    let layers = 4usize;
    let indices = surface_indices(n, layers).unwrap();
    let walls = &indices[3 * n..3 * n + 6 * n * (layers - 1)];
    for seg in 1..layers {
        for c in 0..n {
            let a = ((seg - 1) * n + c + 1) as u32;
            let b = (seg * n + c + 1) as u32;
            let count = walls.chunks(3).filter(|t| t.contains(&a) && t.contains(&b)).count();
            assert_eq!(count, 2);
        }
    }
}

#[test]
fn surface_errors() {
    assert_eq!(surface_indices(2, 1), Err(MeshError::InvalidParameter));
    assert_eq!(surface_indices(MIN_RING, 0), Err(MeshError::InvalidParameter));
}

#[test]
fn vertex_count_of_surfaces() {
    assert_eq!(surface_vertex_count(20, 1), Some(22));
    assert_eq!(surface_vertex_count(34, 17), Some(580));
    assert_eq!(surface_vertex_count(65536, 65536), None);
    assert_eq!(surface_vertex_count(2, 2147483647), Some(4294967296));
    assert_eq!(surface_vertex_count(1, 4294967295), None);
}

#[test]
fn layer_counts() {
    assert_eq!(layer_count(20, ZERO_KEY, ZERO_KEY), Ok(1));
    assert_eq!(layer_count(18, ZERO_KEY - 5, ZERO_KEY + 5), Ok(17));
    assert_eq!(layer_count(2, ZERO_KEY - 5, ZERO_KEY + 5), Err(MeshError::InvalidParameter));
    assert_eq!(layer_count(18, ZERO_KEY + 5, ZERO_KEY - 5), Err(MeshError::InvalidRange));
}

#[test]
fn lower_half_of_a_ring() {
    assert!(!on_lower_half(20, 19));
    assert!(on_lower_half(20, 20));
    assert!(on_lower_half(20, 37));
}

#[test]
fn vertices_follow_index_order() {
    let place = |layer: usize, k: usize| (10 * layer + k) as u32;
    let v = surface_vertices(3, 2, 100u32, 200u32, &place);
    assert_eq!(v, vec![100, 0, 1, 2, 10, 11, 12, 200]);
    let flat = surface_vertices(4, 1, 7u32, 9u32, &place);
    assert_eq!(flat, vec![7, 0, 1, 2, 3, 9]);
}
