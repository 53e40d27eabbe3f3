use pathtrace::mesh::{material_for_id, triangle_vertices};

#[test]
fn triangle_vertices_follow_the_index_buffer() {
    let vertices = [10u32, 11, 12, 13, 14];
    let indices = [0u32, 1, 2, 4, 3, 0];
    assert_eq!(triangle_vertices(&vertices, &indices, 0), Some((10, 11, 12)));
    assert_eq!(triangle_vertices(&vertices, &indices, 1), Some((14, 13, 10)));
}

#[test]
fn triangle_past_the_index_buffer_is_rejected() {
    let vertices = [10u32, 11, 12];
    let indices = [0u32, 1, 2, 0, 1];
    assert_eq!(triangle_vertices(&vertices, &indices, 1), None);
    assert_eq!(triangle_vertices(&vertices, &indices, u32::MAX), None);
    assert_eq!(triangle_vertices(&vertices, &[], 0), None);
}

#[test]
fn triangle_with_a_bad_vertex_index_is_rejected() {
    let vertices = [10u32, 11, 12];
    assert_eq!(triangle_vertices(&vertices, &[0, 1, 3], 0), None);
    assert_eq!(triangle_vertices(&vertices, &[3, 1, 2], 0), None);
}

#[test]
fn material_lookup_checks_the_id() {
    let materials = [(1u8, 2u8), (3, 4)];
    assert_eq!(material_for_id(&materials, 0), Some((1, 2)));
    assert_eq!(material_for_id(&materials, 1), Some((3, 4)));
    assert_eq!(material_for_id(&materials, 2), None);
    assert_eq!(material_for_id(&materials, u32::MAX), None);
}
