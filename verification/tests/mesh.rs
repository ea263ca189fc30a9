use raytracing2::mesh::{
    build_triangle_indices, dedup_vertices, parse_index, Face, Index, Mesh, MeshId, TriangleId,
};
use raytracing2::utility::MaterialId;

#[test]
fn mesh_get_triangle_returns_named_vertices() {
    let mesh = Mesh {
        vertices: vec!["a", "b", "c", "d"],
        indices: vec![0, 1, 2, 2, 3, 0],
        material: MaterialId(7),
    };
    let (a, b, c) = mesh.get_triangle(TriangleId(0));
    assert_eq!((*a, *b, *c), ("a", "b", "c"));
    let (a, b, c) = mesh.get_triangle(TriangleId(3));
    assert_eq!((*a, *b, *c), ("c", "d", "a"));
}

#[test]
fn mesh_iter_triangles_steps_by_three() {
    let mesh = Mesh {
        vertices: vec![0u8, 1, 2, 3, 4],
        indices: vec![0, 1, 2, 2, 3, 4, 4, 0, 1],
        material: MaterialId(0),
    };
    let ids = mesh.iter_triangles();
    assert_eq!(ids.len(), 3);
    assert_eq!(ids[0], TriangleId(0));
    assert_eq!(ids[1], TriangleId(3));
    assert_eq!(ids[2], TriangleId(6));
}

#[test]
fn mesh_ids_to_index() {
    assert_eq!(TriangleId(12).to_index(), 12);
    assert_eq!(MeshId(3).to_index(), 3);
}

fn index(position: u32, normal: Option<u32>, texcoord: Option<u32>) -> Index {
    Index { position, normal, texcoord }
}

#[test]
fn dedup_keeps_first_occurrences() {
    let a = index(0, None, None);
    let b = index(1, Some(4), None);
    let c = index(0, None, Some(2));
    let vertices = vec![a, b, a, c, b, a];
    let (unique, remap) = dedup_vertices(&vertices);
    assert_eq!(unique, vec![a, b, c]);
    assert_eq!(remap, vec![0, 1, 0, 2, 1, 0]);
}

#[test]
fn dedup_distinguishes_optional_fields() {
    let plain = index(3, None, None);
    let with_normal = index(3, Some(0), None);
    let with_uv = index(3, None, Some(0));
    let (unique, remap) = dedup_vertices(&vec![plain, with_normal, with_uv, plain]);
    assert_eq!(unique.len(), 3);
    assert_eq!(remap, vec![0, 1, 2, 0]);
}

#[test]
fn triangle_indices_from_faces() {
    let remap = vec![5, 6, 7, 8, 9, 10];
    let faces = vec![
        Face { first_vertex: 0, num_vertices: 3 },
        Face { first_vertex: 3, num_vertices: 3 },
    ];
    let indices = build_triangle_indices(&faces, &remap).unwrap();
    assert_eq!(indices, vec![5, 6, 7, 8, 9, 10]);
}

#[test]
fn triangle_indices_reject_quads() {
    let remap = vec![0, 1, 2, 3];
    let faces = vec![Face { first_vertex: 0, num_vertices: 4 }];
    assert!(build_triangle_indices(&faces, &remap).is_none());
}

#[test]
fn triangle_indices_reject_out_of_range_faces() {
    let remap = vec![0, 1];
    let faces = vec![Face { first_vertex: 0, num_vertices: 3 }];
    assert!(build_triangle_indices(&faces, &remap).is_none());
}

fn parse_ok(s: &str) -> (Index, usize) {
    raytracing2::mesh::parse_index(s.as_bytes()).expect("token should parse")
}

#[test]
fn parse_index_full_triplet() {
    let (idx, consumed) = parse_ok("1/2/3");
    assert_eq!(idx, index(0, Some(2), Some(1)));
    assert_eq!(consumed, 5);
}

#[test]
fn parse_index_position_only() {
    let (idx, consumed) = parse_ok("17");
    assert_eq!(idx, index(16, None, None));
    assert_eq!(consumed, 2);
}

#[test]
fn parse_index_missing_texcoord() {
    let (idx, consumed) = parse_ok("4//9");
    assert_eq!(idx, index(3, Some(8), None));
    assert_eq!(consumed, 4);
}

#[test]
fn parse_index_stops_at_non_digit() {
    let (idx, consumed) = parse_ok("7a");
    assert_eq!(idx, index(6, None, None));
    assert_eq!(consumed, 1);
    let (idx, consumed) = parse_ok("5/abc");
    assert_eq!(idx, index(4, None, None));
    assert_eq!(consumed, 2);
}

#[test]
fn parse_index_extra_fields_ignored() {
    let (idx, consumed) = parse_ok("1/2/3/4");
    assert_eq!(idx, index(0, Some(2), Some(1)));
    assert_eq!(consumed, 7);
}

#[test]
fn parse_index_rejects_bad_tokens() {
    // No position index at all.
    assert!(parse_index(b"").is_none());
    assert!(parse_index(b"/2/3").is_none());
    assert!(parse_index(b"abc").is_none());
    // Indices are one-based.
    assert!(parse_index(b"0").is_none());
    assert!(parse_index(b"1/0").is_none());
    // A value too large for u32 is no index.
    assert!(parse_index(b"99999999999").is_none());
}
