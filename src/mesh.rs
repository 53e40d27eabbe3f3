//! Validated lookups into the scene's flat storage buffers: the three
//! vertices of a triangle of an indexed mesh, and a material by its id.
use vstd::prelude::*;

verus! {

/// Whether triangle `primitive_id` of the index buffer `indices` exists and
/// each of its three indices names a vertex of a buffer of `vertex_count`.
pub open spec fn triangle_in_bounds(indices: Seq<u32>, vertex_count: nat, primitive_id: u32) -> bool {
    &&& 3 * primitive_id + 2 < indices.len()
    &&& indices[3 * primitive_id] < vertex_count
    &&& indices[3 * primitive_id + 1] < vertex_count
    &&& indices[3 * primitive_id + 2] < vertex_count
}

/// The three vertices of triangle `primitive_id`: the index buffer holds a
/// triple of vertex indices per triangle. `None` when the triangle or one of
/// its vertices lies outside the buffers.
pub fn triangle_vertices<V: Copy>(vertices: &[V], indices: &[u32], primitive_id: u32) -> (r: Option<(V, V, V)>)
    ensures
        r.is_some() == triangle_in_bounds(indices@, vertices@.len(), primitive_id),
        r.is_some() ==> r.unwrap() == (
            vertices@[indices@[3 * primitive_id] as int],
            vertices@[indices@[3 * primitive_id + 1] as int],
            vertices@[indices@[3 * primitive_id + 2] as int],
        ),
{
    let base = primitive_id as u64 * 3;
    if base + 2 >= indices.len() as u64 {
        return None;
    }
    let base = base as usize;
    let i0 = indices[base] as usize;
    let i1 = indices[base + 1] as usize;
    let i2 = indices[base + 2] as usize;
    if i0 >= vertices.len() || i1 >= vertices.len() || i2 >= vertices.len() {
        return None;
    }
    Some((vertices[i0], vertices[i1], vertices[i2]))
}

/// The material that a hit record's `material_id` refers to, or `None` when
/// the id lies outside the material buffer.
pub fn material_for_id<M: Copy>(materials: &[M], material_id: u32) -> (r: Option<M>)
    ensures
        r.is_some() == (material_id < materials@.len()),
        r.is_some() ==> r.unwrap() == materials@[material_id as int],
{
    let id = material_id as usize;
    if id < materials.len() {
        Some(materials[id])
    } else {
        None
    }
}

} // verus!
