use genmesh::{Coord, IndexOutOfRange, Plane, Quad, Vertex};

fn point(xn: i128, xd: i128, yn: i128, yd: i128) -> Vertex {
    Vertex { x: Coord { num: xn, den: xd }, y: Coord { num: yn, den: yd } }
}

fn as_f64(c: Coord) -> f64 {
    c.num as f64 / c.den as f64
}

#[test]
fn test_shared_vertex_count() {
    let plane = Plane::new();
    assert_eq!(plane.shared_vertex_count(), 4);
    assert_eq!(plane.indexed_polygon_count(), 1);

    let plane = Plane::subdivide(2, 2);
    assert_eq!(plane.shared_vertex_count(), 9);
    assert_eq!(plane.indexed_polygon_count(), 4);

    let plane = Plane::subdivide(4, 4);
    assert_eq!(plane.shared_vertex_count(), 25);
    assert_eq!(plane.indexed_polygon_count(), 16);
}

#[test]
fn counts_of_uneven_grids() {
    for &(sx, sy) in &[(1usize, 1usize), (3, 5), (7, 2), (1, 9), (10, 1)] {
        let plane = Plane::subdivide(sx, sy);
        assert_eq!(plane.shared_vertex_count(), (sx + 1) * (sy + 1));
        assert_eq!(plane.indexed_polygon_count(), sx * sy);
    }
}

#[test]
fn single_cell_face() {
    let mut plane = Plane::new();
    let face = plane.next().unwrap();
    assert_eq!(face.x, point(-1, 1, -1, 1));
    assert_eq!(face.y, point(1, 1, -1, 1));
    assert_eq!(face.z, point(1, 1, 1, 1));
    assert_eq!(face.w, point(-1, 1, 1, 1));
    assert!(plane.next().is_none());
}

#[test]
fn face_sequence_ends_and_stays_ended() {
    let mut plane = Plane::subdivide(3, 2);
    let mut n = 0;
    while plane.next().is_some() {
        n += 1;
        assert!(n <= 6);
    }
    assert_eq!(n, 6);
    for _ in 0..5 {
        assert!(plane.next().is_none());
    }
}

#[test]
fn face_sequence_is_row_major() {
    let mut plane = Plane::subdivide(2, 2);
    let first = plane.next().unwrap();
    assert_eq!(first, Quad::new(point(-2, 2, -2, 2), point(0, 2, -2, 2), point(0, 2, 0, 2), point(-2, 2, 0, 2)));
    let second = plane.next().unwrap();
    assert_eq!(second.x, point(0, 2, -2, 2));
    assert_eq!(second.z, point(2, 2, 0, 2));
    let third = plane.next().unwrap();
    assert_eq!(third.x, point(-2, 2, 0, 2));
    assert_eq!(third.z, point(0, 2, 2, 2));
    let fourth = plane.next().unwrap();
    assert_eq!(fourth.z, point(2, 2, 2, 2));
    assert!(plane.next().is_none());
}

#[test]
fn face_coordinates_as_floats() {
    let mut plane = Plane::subdivide(4, 4);
    let face = plane.next().unwrap();
    assert_eq!(as_f64(face.x.x), -1.0);
    assert_eq!(as_f64(face.y.x), -0.5);
    assert_eq!(as_f64(face.z.y), -0.5);
}

#[test]
fn outer_corners() {
    for &(sx, sy) in &[(1usize, 1usize), (3, 2), (4, 4), (5, 1)] {
        let plane = Plane::subdivide(sx, sy);
        let count = plane.shared_vertex_count();
        let corners = [
            (0, -1.0, -1.0),
            (sx, 1.0, -1.0),
            (count - 1, 1.0, 1.0),
            (count - sx - 1, -1.0, 1.0),
        ];
        for &(idx, x, y) in &corners {
            let v = plane.shared_vertex(idx).unwrap();
            assert_eq!(as_f64(v.x), x);
            assert_eq!(as_f64(v.y), y);
        }
    }
}

#[test]
fn shared_vertex_numbering() {
    let plane = Plane::subdivide(2, 2);
    assert_eq!(plane.shared_vertex(4), Ok(point(0, 2, 0, 2)));
    assert_eq!(plane.shared_vertex(5), Ok(point(2, 2, 0, 2)));
    assert_eq!(plane.shared_vertex(6), Ok(point(-2, 2, 2, 2)));
}

#[test]
fn indexed_polygon_corner_order() {
    let plane = Plane::subdivide(2, 2);
    assert_eq!(plane.indexed_polygon(0), Ok(Quad::new(3, 0, 1, 4)));
    assert_eq!(plane.indexed_polygon(3), Ok(Quad::new(7, 4, 5, 8)));
    let plane = Plane::new();
    assert_eq!(plane.indexed_polygon(0), Ok(Quad::new(2, 0, 1, 3)));
}

#[test]
fn polygon_indices_in_range() {
    for &(sx, sy) in &[(1usize, 1usize), (3, 2), (4, 4), (2, 5)] {
        let plane = Plane::subdivide(sx, sy);
        let vc = plane.shared_vertex_count();
        for i in 0..plane.indexed_polygon_count() {
            let q = plane.indexed_polygon(i).unwrap();
            for idx in [q.x, q.y, q.z, q.w] {
                assert!(idx < vc);
            }
        }
    }
}

#[test]
fn neighbouring_faces_share_edges() {
    let plane = Plane::subdivide(3, 2);
    let a = plane.indexed_polygon(0).unwrap();
    let right = plane.indexed_polygon(1).unwrap();
    assert_eq!((right.x, right.y), (a.w, a.z));
    let above = plane.indexed_polygon(3).unwrap();
    assert_eq!((above.y, above.z), (a.x, a.w));
    let b = plane.indexed_polygon(4).unwrap();
    let b_right = plane.indexed_polygon(5).unwrap();
    assert_eq!((b_right.x, b_right.y), (b.w, b.z));
}

#[test]
fn polygons_match_faces() {
    let mut plane = Plane::subdivide(3, 2);
    let lookup = plane;
    for i in 0..lookup.indexed_polygon_count() {
        let face = plane.next().unwrap();
        let q = lookup.indexed_polygon(i).unwrap();
        assert_eq!(lookup.shared_vertex(q.y), Ok(face.x));
        assert_eq!(lookup.shared_vertex(q.z), Ok(face.y));
        assert_eq!(lookup.shared_vertex(q.w), Ok(face.z));
        assert_eq!(lookup.shared_vertex(q.x), Ok(face.w));
    }
}

#[test]
fn lookups_past_the_end() {
    let plane = Plane::subdivide(2, 3);
    assert_eq!(plane.shared_vertex(12), Err(IndexOutOfRange { index: 12, count: 12 }));
    assert_eq!(plane.shared_vertex(100), Err(IndexOutOfRange { index: 100, count: 12 }));
    assert_eq!(plane.indexed_polygon(6), Err(IndexOutOfRange { index: 6, count: 6 }));
    assert!(plane.indexed_polygon(5).is_ok());
    assert!(plane.shared_vertex(11).is_ok());
}
