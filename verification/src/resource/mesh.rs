//! Mesh topology: wireframe edges derived from triangle faces, and the index
//! layout of the built-in circle mesh.

use vstd::prelude::*;

verus! {

/// The integer type used for vertex indices.
pub type VertexIndex = u16;

/// The three edges of face `f`, in order: `f0-f1`, `f1-f2`, `f2-f0`.
pub open spec fn face_edge(f: [VertexIndex; 3], e: int) -> [VertexIndex; 2] {
    if e == 0 {
        [f[0], f[1]]
    } else if e == 1 {
        [f[1], f[2]]
    } else {
        [f[2], f[0]]
    }
}

/// The wireframe edge list of a triangle list: three edges per face, face by face.
pub fn edges_from_faces(faces: &Vec<[VertexIndex; 3]>) -> (edges: Vec<[VertexIndex; 2]>)
    requires
        faces.len() * 3 <= usize::MAX,
    ensures
        edges.len() == 3 * faces.len(),
        forall|k: int, e: int|
            0 <= k < faces.len() && 0 <= e < 3 ==> #[trigger] edges@[3 * k + e] == face_edge(
                faces@[k],
                e,
            ),
{
    let mut edges: Vec<[VertexIndex; 2]> = Vec::new();
    let mut i: usize = 0;
    while i < faces.len()
        invariant
            0 <= i <= faces.len(),
            faces.len() * 3 <= usize::MAX,
            edges.len() == 3 * i,
            forall|k: int, e: int|
                0 <= k < i && 0 <= e < 3 ==> #[trigger] edges@[3 * k + e] == face_edge(
                    faces@[k],
                    e,
                ),
        decreases faces.len() - i,
    {
        let f = faces[i];
        edges.push([f[0], f[1]]);
        edges.push([f[1], f[2]]);
        edges.push([f[2], f[0]]);
        proof {
            assert forall|k: int, e: int| 0 <= k < i + 1 && 0 <= e < 3 implies #[trigger] edges@[3
                * k + e] == face_edge(faces@[k], e) by {
                if k == i {
                    assert(edges@[3 * k + e] == face_edge(f, e));
                }
            }
        }
        i = i + 1;
    }
    edges
}

/// The faces of a circle fan around vertex 0 with `samples` rim vertices
/// `1 ..= samples`: face `i` is `[0, i, i + 1]` for `i < samples` (the first
/// one degenerate), and a closing face `[0, samples, 1]`.
pub open spec fn circle_face(samples: int, i: int) -> [VertexIndex; 3] {
    if i < samples {
        [0, i as VertexIndex, (i + 1) as VertexIndex]
    } else {
        [0, samples as VertexIndex, 1]
    }
}

/// The triangle fan of the built-in circle mesh (see [`circle_face`]).
pub fn circle_faces(samples: u16) -> (faces: Vec<[VertexIndex; 3]>)
    requires
        samples < u16::MAX,
    ensures
        faces.len() == samples + 1,
        forall|i: int| 0 <= i <= samples ==> #[trigger] faces@[i] == circle_face(samples as int, i),
{
    let mut faces: Vec<[VertexIndex; 3]> = Vec::new();
    let mut i: u16 = 0;
    while i < samples
        invariant
            i <= samples < u16::MAX,
            faces.len() == i,
            forall|k: int| 0 <= k < i ==> #[trigger] faces@[k] == circle_face(samples as int, k),
        decreases samples - i,
    {
        faces.push([0, i, i + 1]);
        i = i + 1;
    }
    faces.push([0, samples, 1]);
    faces
}

} // verus!
