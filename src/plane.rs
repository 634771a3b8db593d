use vstd::arithmetic::div_mod::{
    lemma_div_pos_is_pos, lemma_fundamental_div_mod, lemma_fundamental_div_mod_converse,
    lemma_mod_pos_bound,
};
use vstd::prelude::*;

use crate::quad::Quad;

verus! {

/// An exact rational coordinate `num / den`.
#[derive(Clone, Copy, Debug, PartialEq, Eq, Structural)]
pub struct Coord {
    pub num: i128,
    pub den: i128,
}

impl Coord {
    /// The coordinate is the integer `v`.
    pub open spec fn is_int(&self, v: int) -> bool {
        self.den != 0 && self.num == v * self.den
    }
}

/// A point of the plane.
#[derive(Clone, Copy, Debug, PartialEq, Eq, Structural)]
pub struct Vertex {
    pub x: Coord,
    pub y: Coord,
}

/// A lookup index past the end of the vertices or the faces.
#[derive(Clone, Copy, Debug, PartialEq, Eq, Structural)]
pub struct IndexOutOfRange {
    pub index: usize,
    pub count: usize,
}

/// Coordinate of grid line `g` of `s` subdivisions: `2 * g / s - 1`, as `(2g - s) / s`.
pub open spec fn coord_of(g: int, s: int) -> Coord {
    Coord { num: (2 * g - s) as i128, den: s as i128 }
}

/// Splits a cell index `k` of a grid `s` cells wide and `n` high into column and row.
proof fn lemma_cell(k: int, s: int, n: int)
    requires
        s > 0,
        0 <= k < s * n,
    ensures
        0 <= k % s < s,
        0 <= k / s < n,
        k == (k / s) * s + k % s,
{
    lemma_fundamental_div_mod(k, s);
    lemma_mod_pos_bound(k, s);
    lemma_div_pos_is_pos(k, s);
    let q = k / s;
    let r = k % s;
    assert(q < n) by (nonlinear_arith)
        requires
            k == s * q + r,
            0 <= r,
            k < s * n,
            s > 0,
    ;
    assert(q * s == s * q) by (nonlinear_arith);
}

/// A flat plane over [-1, 1] x [-1, 1], cut into `subdivide_x` columns and
/// `subdivide_y` rows of quad cells, with a cursor over the cells for the face
/// sequence.
///
/// The grid has `(subdivide_x + 1) * (subdivide_y + 1)` vertices, numbered
/// row by row (`gy * (subdivide_x + 1) + gx`), and `subdivide_x * subdivide_y`
/// faces, numbered row by row (`gy * subdivide_x + gx`).
#[derive(Clone, Copy, Debug)]
pub struct Plane {
    subdivide_x: usize,
    subdivide_y: usize,
    x: usize,
    y: usize,
}

impl Plane {
    /// Number of columns of cells.
    pub closed spec fn sub_x(&self) -> nat {
        self.subdivide_x as nat
    }

    /// Number of rows of cells.
    pub closed spec fn sub_y(&self) -> nat {
        self.subdivide_y as nat
    }

    /// How many faces the sequence has handed out so far.
    pub closed spec fn emitted(&self) -> nat {
        if self.y >= self.subdivide_y {
            self.sub_x() * self.sub_y()
        } else {
            (self.y * self.subdivide_x + self.x) as nat
        }
    }

    /// Both counts are positive, every vertex index fits in `usize`, and the
    /// cursor lies on the grid (at column 0 once all rows are done).
    pub closed spec fn wf(&self) -> bool {
        &&& self.subdivide_x >= 1
        &&& self.subdivide_y >= 1
        &&& (self.subdivide_x + 1) * (self.subdivide_y + 1) <= usize::MAX
        &&& self.x <= self.subdivide_x
        &&& self.y <= self.subdivide_y
        &&& self.y == self.subdivide_y ==> self.x == 0
    }

    /// Number of shared vertices.
    pub open spec fn vertex_count(&self) -> nat {
        (self.sub_x() + 1) * (self.sub_y() + 1)
    }

    /// Number of faces.
    pub open spec fn polygon_count(&self) -> nat {
        self.sub_x() * self.sub_y()
    }

    /// The point at grid column `gx` and grid row `gy`.
    pub open spec fn vertex_spec(&self, gx: int, gy: int) -> Vertex {
        Vertex { x: coord_of(gx, self.sub_x() as int), y: coord_of(gy, self.sub_y() as int) }
    }

    /// The shared vertex of index `idx`.
    pub open spec fn shared_vertex_spec(&self, idx: int) -> Vertex {
        let w = self.sub_x() + 1int;
        self.vertex_spec(idx % w, idx / w)
    }

    /// Face `k` of the sequence: the corners of its cell as bottom-left,
    /// bottom-right, top-right, top-left.
    pub open spec fn face_spec(&self, k: int) -> Quad<Vertex> {
        let gx = k % (self.sub_x() as int);
        let gy = k / (self.sub_x() as int);
        Quad {
            x: self.vertex_spec(gx, gy),
            y: self.vertex_spec(gx + 1, gy),
            z: self.vertex_spec(gx + 1, gy + 1),
            w: self.vertex_spec(gx, gy + 1),
        }
    }

    /// The vertex index of the bottom-left corner of cell `k`.
    pub open spec fn cell_base(&self, k: int) -> int {
        let s = self.sub_x() as int;
        (k / s) * (s + 1) + k % s
    }

    /// Polygon `k` as vertex indices: top-left, bottom-left, bottom-right,
    /// top-right.
    pub open spec fn polygon_spec(&self, k: int) -> Quad<usize> {
        let b = self.cell_base(k);
        let s = self.sub_x() as int;
        Quad {
            x: (b + s + 1) as usize,
            y: b as usize,
            z: (b + 1) as usize,
            w: (b + s + 2) as usize,
        }
    }

    /// One step of the face sequence from `pre` to `post`, handing out `r`:
    /// the next face while any is left, else nothing, for good.
    pub open spec fn next_step(pre: Plane, post: Plane, r: Option<Quad<Vertex>>) -> bool {
        &&& post.wf()
        &&& post.sub_x() == pre.sub_x()
        &&& post.sub_y() == pre.sub_y()
        &&& if pre.emitted() < pre.polygon_count() {
            &&& r == Some(pre.face_spec(pre.emitted() as int))
            &&& post.emitted() == pre.emitted() + 1
        } else {
            &&& r is None
            &&& post.emitted() == pre.emitted()
        }
    }

    /// The point at grid column `gx`, row `gy`: `2 / subdivide * g - 1` on
    /// each axis, as an exact fraction.
    fn vert(&self, gx: usize, gy: usize) -> (r: Vertex)
        requires
            self.wf(),
            gx <= self.sub_x(),
            gy <= self.sub_y(),
        ensures
            r == self.vertex_spec(gx as int, gy as int),
    {
        let sx = self.subdivide_x as i128;
        let sy = self.subdivide_y as i128;
        let x = Coord { num: 2 * (gx as i128) - sx, den: sx };
        let y = Coord { num: 2 * (gy as i128) - sy, den: sy };
        Vertex { x, y }
    }

    /// Hands out the next face of the sequence, row by row and left to right
    /// within a row, with its corners as bottom-left, bottom-right, top-right,
    /// top-left. Once all `subdivide_x * subdivide_y` faces are out, returns
    /// `None` on this and every later call.
    pub fn next(&mut self) -> (r: Option<Quad<Vertex>>)
        requires
            old(self).wf(),
        ensures
            Plane::next_step(*old(self), *final(self), r),
    {
        if self.y == self.subdivide_y {
            return None;
        }
        if self.x == self.subdivide_x {
            proof {
                assert(self.y * self.subdivide_x + self.subdivide_x == (self.y + 1)
                    * self.subdivide_x) by (nonlinear_arith);
            }
            self.x = 0;
            self.y = self.y + 1;
            if self.y == self.subdivide_y {
                proof {
                    assert(self.subdivide_y * self.subdivide_x == self.subdivide_x
                        * self.subdivide_y) by (nonlinear_arith);
                }
                return None;
            }
        }
        proof {
            let k = self.y * self.subdivide_x + self.x;
            lemma_fundamental_div_mod_converse(k, self.subdivide_x as int, self.y as int, self.x as int);
            assert(k < self.sub_x() * self.sub_y()) by (nonlinear_arith)
                requires
                    k == self.y * self.subdivide_x + self.x,
                    self.x < self.subdivide_x,
                    self.y + 1 <= self.subdivide_y,
            ;
        }
        let a = self.vert(self.x, self.y);
        let b = self.vert(self.x + 1, self.y);
        let c = self.vert(self.x + 1, self.y + 1);
        let d = self.vert(self.x, self.y + 1);
        self.x = self.x + 1;
        Some(Quad::new(a, b, c, d))
    }

    /// Each factor of the vertex count, and the face count, is no larger than it.
    proof fn lemma_sizes(&self)
        requires
            self.wf(),
        ensures
            self.subdivide_x + 1 <= self.vertex_count(),
            self.subdivide_y + 1 <= self.vertex_count(),
            self.polygon_count() < self.vertex_count(),
            self.vertex_count() <= usize::MAX,
    {
        let a = self.subdivide_x as int;
        let b = self.subdivide_y as int;
        assert(a + 1 <= (a + 1) * (b + 1) && b + 1 <= (a + 1) * (b + 1) && a * b < (a + 1) * (b
            + 1)) by (nonlinear_arith)
            requires
                a >= 1,
                b >= 1,
        ;
    }

    /// Number of shared vertices: `(subdivide_x + 1) * (subdivide_y + 1)`.
    pub fn shared_vertex_count(&self) -> (r: usize)
        requires
            self.wf(),
        ensures
            r == (self.sub_x() + 1) * (self.sub_y() + 1),
            r == self.vertex_count(),
    {
        proof {
            self.lemma_sizes();
        }
        (self.subdivide_x + 1) * (self.subdivide_y + 1)
    }

    /// Number of faces: `subdivide_x * subdivide_y`.
    pub fn indexed_polygon_count(&self) -> (r: usize)
        requires
            self.wf(),
        ensures
            r == self.sub_x() * self.sub_y(),
            r == self.polygon_count(),
    {
        proof {
            self.lemma_sizes();
        }
        self.subdivide_x * self.subdivide_y
    }

    /// The shared vertex of index `idx`, at grid column `idx % (subdivide_x + 1)`
    /// and row `idx / (subdivide_x + 1)`; an error past the last vertex.
    pub fn shared_vertex(&self, idx: usize) -> (r: Result<Vertex, IndexOutOfRange>)
        requires
            self.wf(),
        ensures
            idx < self.vertex_count() ==> r == Ok::<Vertex, IndexOutOfRange>(
                self.shared_vertex_spec(idx as int),
            ),
            idx >= self.vertex_count() ==> r == Err::<Vertex, IndexOutOfRange>(
                IndexOutOfRange { index: idx, count: self.vertex_count() as usize },
            ),
    {
        let count = self.shared_vertex_count();
        if idx >= count {
            return Err(IndexOutOfRange { index: idx, count });
        }
        proof {
            self.lemma_sizes();
        }
        let w = self.subdivide_x + 1;
        let y = idx / w;
        let x = idx % w;
        proof {
            lemma_cell(idx as int, w as int, self.subdivide_y + 1);
        }
        Ok(self.vert(x, y))
    }

    /// The vertex indices of face `idx`, as top-left, bottom-left,
    /// bottom-right, top-right; an error past the last face. Every index is
    /// below the vertex count.
    pub fn indexed_polygon(&self, idx: usize) -> (r: Result<Quad<usize>, IndexOutOfRange>)
        requires
            self.wf(),
        ensures
            idx < self.polygon_count() ==> r == Ok::<Quad<usize>, IndexOutOfRange>(
                self.polygon_spec(idx as int),
            ),
            idx < self.polygon_count() ==> {
                let q = r->Ok_0;
                &&& q.x < self.vertex_count()
                &&& q.y < self.vertex_count()
                &&& q.z < self.vertex_count()
                &&& q.w < self.vertex_count()
            },
            idx >= self.polygon_count() ==> r == Err::<Quad<usize>, IndexOutOfRange>(
                IndexOutOfRange { index: idx, count: self.polygon_count() as usize },
            ),
    {
        let count = self.indexed_polygon_count();
        if idx >= count {
            return Err(IndexOutOfRange { index: idx, count });
        }
        let s = self.subdivide_x;
        let row = idx / s;
        let col = idx % s;
        proof {
            lemma_cell(idx as int, s as int, self.subdivide_y as int);
            assert((row + 1) * (s + 1) + col + 1 <= (s + 1) * (self.subdivide_y + 1) - 1)
                by (nonlinear_arith)
                requires
                    row + 1 <= self.subdivide_y,
                    col < s,
            ;
            assert(row * (s + 1) + s + 1 == (row + 1) * (s + 1)) by (nonlinear_arith);
        }
        let base = row * (s + 1) + col;
        Ok(Quad::new(base + s + 1, base, base + 1, base + s + 2))
    }

    /// A plane of a single cell.
    pub fn new() -> (r: Plane)
        ensures
            r.wf(),
            r.sub_x() == 1,
            r.sub_y() == 1,
            r.vertex_count() == 4,
            r.polygon_count() == 1,
            r.emitted() == 0,
    {
        let r = Plane { subdivide_x: 1, subdivide_y: 1, x: 0, y: 0 };
        proof {
            assert(r.vertex_count() == 4 && r.polygon_count() == 1) by (nonlinear_arith)
                requires
                    r.sub_x() == 1,
                    r.sub_y() == 1,
            ;
        }
        r
    }

    /// A plane of `x` columns and `y` rows of cells. Both must be positive, and
    /// the vertex count `(x + 1) * (y + 1)` must fit in `usize`.
    pub fn subdivide(x: usize, y: usize) -> (r: Plane)
        requires
            x > 0,
            y > 0,
            (x + 1) * (y + 1) <= usize::MAX,
        ensures
            r.wf(),
            r.sub_x() == x,
            r.sub_y() == y,
            r.vertex_count() == (x + 1) * (y + 1),
            r.polygon_count() == x * y,
            r.emitted() == 0,
    {
        Plane { subdivide_x: x, subdivide_y: y, x: 0, y: 0 }
    }
}

/// After `j` steps of a run from a fresh plane, the grid is unchanged and
/// `min(j, polygon_count)` faces are out.
proof fn lemma_run_prefix(states: Seq<Plane>, outs: Seq<Option<Quad<Vertex>>>, j: int)
    requires
        states.len() == outs.len() + 1,
        states[0].wf(),
        states[0].emitted() == 0,
        forall|i: int| 0 <= i < outs.len() ==> #[trigger] Plane::next_step(states[i], states[i + 1], outs[i]),
        0 <= j <= outs.len(),
    ensures
        states[j].wf(),
        states[j].sub_x() == states[0].sub_x(),
        states[j].sub_y() == states[0].sub_y(),
        states[j].emitted() == if j < states[0].polygon_count() {
            j
        } else {
            states[0].polygon_count() as int
        },
    decreases j,
{
    if j > 0 {
        let i = j - 1;
        lemma_run_prefix(states, outs, i);
        assert(Plane::next_step(states[i], states[i + 1], outs[i]));
    }
}

/// The face sequence of a plane, run from its start for any number of steps,
/// hands out exactly `subdivide_x * subdivide_y` faces, face `i` at step `i`,
/// and nothing at every step after them.
pub proof fn lemma_face_sequence(states: Seq<Plane>, outs: Seq<Option<Quad<Vertex>>>)
    requires
        states.len() == outs.len() + 1,
        states[0].wf(),
        states[0].emitted() == 0,
        forall|i: int| 0 <= i < outs.len() ==> #[trigger] Plane::next_step(states[i], states[i + 1], outs[i]),
    ensures
        forall|i: int|
            0 <= i < outs.len() ==> ((#[trigger] outs[i]) is Some <==> i
                < states[0].polygon_count()),
        forall|i: int|
            0 <= i < outs.len() && i < states[0].polygon_count() ==> #[trigger] outs[i] == Some(
                states[0].face_spec(i),
            ),
{
    assert forall|i: int| 0 <= i < outs.len() implies ((#[trigger] outs[i]) is Some <==> i
        < states[0].polygon_count()) && (i < states[0].polygon_count() ==> outs[i] == Some(
        states[0].face_spec(i),
    )) by {
        lemma_run_prefix(states, outs, i);
        assert(Plane::next_step(states[i], states[i + 1], outs[i]));
    }
}

/// The four outer corners of any plane are the vertices at indices `0`,
/// `subdivide_x`, `vertex_count - 1` and `vertex_count - subdivide_x - 1`, at
/// (-1, -1), (1, -1), (1, 1) and (-1, 1).
pub proof fn lemma_corners(p: Plane)
    requires
        p.wf(),
    ensures
        p.sub_x() < p.vertex_count(),
        p.vertex_count() - p.sub_x() - 1 >= 0,
        p.shared_vertex_spec(0).x.is_int(-1),
        p.shared_vertex_spec(0).y.is_int(-1),
        p.shared_vertex_spec(p.sub_x() as int).x.is_int(1),
        p.shared_vertex_spec(p.sub_x() as int).y.is_int(-1),
        p.shared_vertex_spec(p.vertex_count() - 1).x.is_int(1),
        p.shared_vertex_spec(p.vertex_count() - 1).y.is_int(1),
        p.shared_vertex_spec(p.vertex_count() - p.sub_x() - 1).x.is_int(-1),
        p.shared_vertex_spec(p.vertex_count() - p.sub_x() - 1).y.is_int(1),
{
    p.lemma_sizes();
    let w = p.sub_x() + 1int;
    let h = p.sub_y() as int;
    assert(p.vertex_count() - 1 == h * w + (w - 1) && p.vertex_count() - w == h * w)
        by (nonlinear_arith)
        requires
            p.vertex_count() == w * (h + 1),
    ;
    lemma_fundamental_div_mod_converse(0, w, 0, 0);
    lemma_fundamental_div_mod_converse(w - 1, w, 0, w - 1);
    lemma_fundamental_div_mod_converse(p.vertex_count() - 1, w, h, w - 1);
    lemma_fundamental_div_mod_converse(p.vertex_count() - w, w, h, 0);
}

/// Neighbouring faces share the vertex indices of their common edge: the
/// right edge of a face is the left edge of the next face in its row, and its
/// top edge is the bottom edge of the face above it.
pub proof fn lemma_shared_edges(p: Plane, i: int)
    requires
        p.wf(),
        0 <= i < p.polygon_count(),
    ensures
        i % (p.sub_x() as int) + 1 < p.sub_x() ==> {
            &&& p.polygon_spec(i + 1).x == p.polygon_spec(i).w
            &&& p.polygon_spec(i + 1).y == p.polygon_spec(i).z
        },
        i + p.sub_x() < p.polygon_count() ==> {
            &&& p.polygon_spec(i + p.sub_x()).y == p.polygon_spec(i).x
            &&& p.polygon_spec(i + p.sub_x()).z == p.polygon_spec(i).w
        },
{
    let s = p.sub_x() as int;
    lemma_cell(i, s, p.sub_y() as int);
    let row = i / s;
    let col = i % s;
    if col + 1 < s {
        lemma_fundamental_div_mod_converse(i + 1, s, row, col + 1);
    }
    if i + s < p.polygon_count() {
        assert(i + s == (row + 1) * s + col) by (nonlinear_arith)
            requires
                i == row * s + col,
        ;
        lemma_fundamental_div_mod_converse(i + s, s, row + 1, col);
        assert((row + 1) * (s + 1) == row * (s + 1) + s + 1) by (nonlinear_arith);
    }
}

/// The indexed polygons name the same points as the face sequence: the
/// shared vertices at the indices of polygon `k` are the corners of face `k`.
pub proof fn lemma_polygon_matches_face(p: Plane, k: int)
    requires
        p.wf(),
        0 <= k < p.polygon_count(),
    ensures
        p.shared_vertex_spec(p.polygon_spec(k).y as int) == p.face_spec(k).x,
        p.shared_vertex_spec(p.polygon_spec(k).z as int) == p.face_spec(k).y,
        p.shared_vertex_spec(p.polygon_spec(k).w as int) == p.face_spec(k).z,
        p.shared_vertex_spec(p.polygon_spec(k).x as int) == p.face_spec(k).w,
{
    let s = p.sub_x() as int;
    let w = s + 1;
    p.lemma_sizes();
    lemma_cell(k, s, p.sub_y() as int);
    let row = k / s;
    let col = k % s;
    let b = row * w + col;
    assert(b + s + 2 < p.vertex_count() && b + s + 1 == (row + 1) * w + col)
        by (nonlinear_arith)
        requires
            0 <= row < p.sub_y(),
            0 <= col < s,
            p.vertex_count() == w * (p.sub_y() + 1),
            w == s + 1,
            b == row * w + col,
    ;
    lemma_fundamental_div_mod_converse(b, w, row, col);
    lemma_fundamental_div_mod_converse(b + 1, w, row, col + 1);
    lemma_fundamental_div_mod_converse(b + s + 1, w, row + 1, col);
    lemma_fundamental_div_mod_converse(b + s + 2, w, row + 1, col + 1);
}

} // verus!
