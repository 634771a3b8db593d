//! Geometry of a subdivided flat plane covering [-1, 1] x [-1, 1]: a lazy
//! sequence of quad faces, a shared-vertex lookup and an indexed-polygon lookup,
//! all numbered over the same rectangular grid.
mod plane;
mod quad;

pub use plane::{
    lemma_corners, lemma_face_sequence, lemma_polygon_matches_face, lemma_shared_edges, coord_of,
    Coord, IndexOutOfRange, Plane, Vertex,
};
pub use quad::Quad;
