use rge_core::mesh::{MeshTopology, TopologyFaceId};
use rge_core::weld::{weld_polygons, Bits3, WeldError};

fn v(x: f32, y: f32, z: f32) -> Bits3 {
    (x.to_bits(), y.to_bits(), z.to_bits())
}

#[test]
fn shared_vertices_are_welded_in_first_seen_order() {
    let quad = vec![v(0.0, 0.0, 0.0), v(1.0, 0.0, 0.0), v(1.0, 1.0, 0.0), v(0.0, 1.0, 0.0)];
    let tri = vec![v(1.0, 0.0, 0.0), v(2.0, 0.0, 0.0), v(1.0, 1.0, 0.0)];
    let (ps, idx, labels) = weld_polygons(&vec![quad, tri], &vec![TopologyFaceId(1), TopologyFaceId(2)]).unwrap();
    assert_eq!(ps.len(), 5);
    assert_eq!(idx, vec![0, 1, 2, 0, 2, 3, 1, 4, 2]);
    assert_eq!(labels, vec![TopologyFaceId(1), TopologyFaceId(1), TopologyFaceId(2)]);
    let mesh = MeshTopology::with_labels(ps.len(), idx, labels).expect("valid mesh");
    assert_eq!(mesh.face_count(), Some(2));
}

#[test]
fn collapsed_fan_triangles_and_small_polygons_are_dropped() {
    // The third vertex repeats the first: both fan triangles touching it collapse.
    let poly = vec![v(0.0, 0.0, 0.0), v(1.0, 0.0, 0.0), v(0.0, 0.0, 0.0), v(0.0, 1.0, 0.0)];
    let segment = vec![v(5.0, 5.0, 5.0), v(6.0, 5.0, 5.0)];
    let (ps, idx, labels) = weld_polygons(&vec![poly, segment], &vec![(), ()]).unwrap();
    assert_eq!(ps.len(), 3);
    assert!(idx.is_empty());
    assert!(labels.is_empty());
}

#[test]
fn non_finite_vertex_is_reported_with_its_place() {
    let good = vec![v(0.0, 0.0, 0.0), v(1.0, 0.0, 0.0), v(0.0, 1.0, 0.0)];
    let bad = vec![v(0.0, 0.0, 0.0), v(f32::NAN, 0.0, 0.0), v(0.0, 1.0, 0.0)];
    let err = weld_polygons(&vec![good, bad], &vec![(), ()]).unwrap_err();
    assert_eq!(err, WeldError::NonFiniteVertex { polygon: 1, vertex: 1 });
    // Polygons with fewer than 3 vertices are skipped before any check.
    let tiny = vec![v(f32::INFINITY, 0.0, 0.0)];
    assert!(weld_polygons(&vec![tiny], &vec![()]).is_ok());
}
