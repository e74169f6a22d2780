use geosplit::adjacency::{EdgeAdjacencyIndex, TriangleInfo};
use geosplit::vector3::{Edge, Vector3};

fn vec3(x: f32, y: f32, z: f32) -> Vector3 {
    Vector3::new(x.to_bits(), y.to_bits(), z.to_bits())
}

fn info(idx: usize) -> TriangleInfo {
    TriangleInfo { tri_idx: idx, tri_normal: vec3(0.0, 0.0, 1.0) }
}

#[test]
fn test_index_insert_and_get() {
    let a = vec3(0.0, 0.0, 0.0);
    let b = vec3(1.0, 0.0, 0.0);
    let c = vec3(0.0, 1.0, 0.0);

    let mut index = EdgeAdjacencyIndex::new();
    assert!(index.get(&Edge::new(a, b)).is_none());

    index.insert(Edge::new(a, b), info(0));
    index.insert(Edge::new(a, b), info(2));
    index.insert(Edge::new(b, c), info(1));

    let ab = index.get(&Edge::new(a, b)).expect("edge a->b must be present");
    let ids: Vec<usize> = ab.iter().map(|t| t.tri_idx).collect();
    assert_eq!(ids, vec![0, 2]);

    let bc = index.get(&Edge::new(b, c)).expect("edge b->c must be present");
    assert_eq!(bc.len(), 1);
    assert_eq!(bc[0].tri_idx, 1);
}

#[test]
fn test_index_is_directed() {
    let a = vec3(0.0, 0.0, 0.0);
    let b = vec3(1.0, 0.0, 0.0);

    let mut index = EdgeAdjacencyIndex::new();
    index.insert(Edge::new(a, b), info(0));

    assert!(index.get(&Edge::new(a, b)).is_some());
    assert!(index.get(&Edge::new(b, a)).is_none());
}

#[test]
fn test_index_keys_on_exact_bits() {
    // Signed zeros have different encodings, so they key different vertices.
    let pos_zero = vec3(0.0, 0.0, 0.0);
    let neg_zero = vec3(-0.0, 0.0, 0.0);
    let b = vec3(1.0, 0.0, 0.0);

    let mut index = EdgeAdjacencyIndex::new();
    index.insert(Edge::new(pos_zero, b), info(0));

    assert!(index.get(&Edge::new(pos_zero, b)).is_some());
    assert!(index.get(&Edge::new(neg_zero, b)).is_none());
}
