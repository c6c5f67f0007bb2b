use rge_core::mesh::{MeshTopology, TopologyFaceId};
use rge_core::ring_mesh::{revolve_full_indices, revolve_partial_indices, sweep_indices};

#[test]
fn extrude_square_profile_yields_8_vertices_12_triangles() {
    let idx = sweep_indices(4, 2);
    let mesh = MeshTopology::new(8, idx.clone()).expect("valid");
    assert_eq!(mesh.vertex_count(), 8);
    assert_eq!(mesh.triangle_count(), 12);
    assert_eq!(idx.len(), 36);
    // Bottom cap first, facing down; then the top cap; then the walls.
    assert_eq!(&idx[..6], &[0, 2, 1, 0, 3, 2]);
    assert_eq!(&idx[6..12], &[4, 5, 6, 4, 6, 7]);
    assert_eq!(&idx[12..18], &[0, 1, 5, 0, 5, 4]);
    assert_eq!(&idx[30..36], &[3, 0, 4, 3, 4, 7]);
}

#[test]
fn extrude_triangle_profile_yields_6_vertices_8_triangles() {
    let idx = sweep_indices(3, 2);
    assert_eq!(idx.len() / 3, 8);
    assert!(idx.iter().all(|&i| i < 6));
}

#[test]
fn extrude_pentagon_profile_yields_10_vertices_16_triangles() {
    let idx = sweep_indices(5, 2);
    assert_eq!(idx.len() / 3, 16);
    assert!(idx.iter().all(|&i| i < 10));
}

#[test]
fn sweep_triangle_along_3_point_z_path_yields_9_verts_14_tris() {
    let idx = sweep_indices(3, 3);
    assert_eq!(idx.len() / 3, 14);
    assert!(MeshTopology::new(9, idx).is_ok());
}

#[test]
fn sweep_square_along_4_point_z_path_yields_16_verts_28_tris() {
    let idx = sweep_indices(4, 4);
    assert_eq!(idx.len() / 3, 28);
    assert!(MeshTopology::new(16, idx).is_ok());
}

#[test]
fn revolve_full_square_profile_six_segments() {
    let (idx, labels) = revolve_full_indices(4, 6);
    assert_eq!(idx.len(), 144);
    assert_eq!(labels.len(), 48);
    let mesh = MeshTopology::with_labels(24, idx.clone(), labels).expect("valid");
    assert_eq!(mesh.triangle_count(), 48);
    assert_eq!(mesh.face_count(), Some(4));
    // The last ring wraps back to the first.
    let last_quad = &idx[idx.len() - 6..];
    assert_eq!(last_quad, &[23, 20, 0, 23, 0, 3]);
    let per_face = mesh.face_labels().unwrap().iter().filter(|f| **f == TopologyFaceId(2)).count();
    assert_eq!(per_face, 12);
}

#[test]
fn revolve_partial_has_walls_then_two_caps() {
    let idx = revolve_partial_indices(4, 3);
    // 2 * 4 * 3 wall triangles + 2 * 2 cap triangles.
    assert_eq!(idx.len() / 3, 24 + 4);
    assert!(MeshTopology::new(16, idx.clone()).is_ok());
    let caps = &idx[idx.len() - 12..];
    assert_eq!(caps, &[0, 2, 1, 0, 3, 2, 12, 13, 14, 12, 14, 15]);
}
