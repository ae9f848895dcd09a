use rengine::comp::mesh::{MeshBuilder, CUBE_CORNERS, CUBE_FACES};

fn cube_indices(base: u16) -> Vec<u16> {
    let mut out = Vec::new();
    for face in 0..6u16 {
        let b = base + 4 * face;
        out.extend_from_slice(&[b, b + 1, b + 2, b, b + 2, b + 3]);
    }
    out
}

#[test]
fn pseudocube_on_empty_builder_indexes_six_faces() {
    let corners: Vec<u8> = (0..24).collect();
    let builder: MeshBuilder<u8> = MeshBuilder::new().pseudocube(corners.clone());
    assert_eq!(builder.vertex_count(), 24);
    let (vertices, indices) = builder.into_parts();
    assert_eq!(vertices, corners);
    assert_eq!(indices.len(), 36);
    assert_eq!(&indices[..6], &[0, 1, 2, 0, 2, 3]);
    assert_eq!(&indices[30..], &[20, 21, 22, 20, 22, 23]);
    assert_eq!(indices, cube_indices(0));
}

#[test]
fn pseudocube_after_quad_starts_at_next_index() {
    let builder: MeshBuilder<u8> = MeshBuilder::new().quad_with_uvs(100, 101, 102, 103);
    assert_eq!(builder.next_index(), 4);
    let corners: Vec<u8> = (0..24).collect();
    let (vertices, indices) = builder.pseudocube(corners).into_parts();
    let mut expected_vertices = vec![100u8, 101, 102, 103];
    expected_vertices.extend(0..24u8);
    assert_eq!(vertices, expected_vertices);
    let mut expected_indices = vec![0u16, 1, 2, 0, 2, 3];
    expected_indices.extend(cube_indices(4));
    assert_eq!(indices, expected_indices);
    assert_eq!(&indices[6..12], &[4, 5, 6, 4, 6, 7]);
    assert_eq!(*indices.last().unwrap(), 27);
}

#[test]
fn two_pseudocubes_do_not_share_corners() {
    let first: Vec<u8> = (0..24).collect();
    let second: Vec<u8> = (24..48).collect();
    let (vertices, indices) = MeshBuilder::new().pseudocube(first).pseudocube(second).into_parts();
    assert_eq!(vertices, (0..48).collect::<Vec<u8>>());
    let mut expected = cube_indices(0);
    expected.extend(cube_indices(24));
    assert_eq!(indices, expected);
}

#[test]
fn quad_with_uvs_indexes_two_triangles() {
    let (vertices, indices) = MeshBuilder::new()
        .quad_with_uvs('a', 'b', 'c', 'd')
        .quad_with_uvs('e', 'f', 'g', 'h')
        .into_parts();
    assert_eq!(vertices, vec!['a', 'b', 'c', 'd', 'e', 'f', 'g', 'h']);
    assert_eq!(indices, vec![0, 1, 2, 0, 2, 3, 4, 5, 6, 4, 6, 7]);
}

#[test]
fn cube_has_six_faces_of_four_corners() {
    assert_eq!(CUBE_FACES, 6);
    assert_eq!(CUBE_CORNERS, 4 * CUBE_FACES);
}

#[test]
fn new_mesh_builder_is_empty() {
    let builder: MeshBuilder<u8> = MeshBuilder::new();
    assert_eq!(builder.vertex_count(), 0);
    assert_eq!(builder.next_index(), 0);
    let (vertices, indices) = builder.into_parts();
    assert!(vertices.is_empty());
    assert!(indices.is_empty());
}
