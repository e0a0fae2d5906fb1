use rtgx::fixed::SCALE;
use rtgx::geometry::point::Point;
use rtgx::obj::{parse_obj, LoadError};

const S: i64 = SCALE;

#[test]
fn loads_vertices_and_one_face() {
    let text = b"v 0 0 0\nv 1 0 0\nv 0 1 0\nf 1 2 3\n";
    let (verts, faces) = parse_obj(text).unwrap();
    assert_eq!(verts.len(), 3);
    assert_eq!(verts[0], Point::new(0, 0, 0));
    assert_eq!(verts[1], Point::new(S, 0, 0));
    assert_eq!(verts[2], Point::new(0, S, 0));
    assert_eq!(faces, vec![vec![0usize, 1, 2]]);
}

#[test]
fn vertex_count_matches_v_lines_and_indices_in_range() {
    let text = b"# header\nv 0 0 0\nvt 0.5 0.5\nv 1 1 1\nvn 0 0 1\nv -1 -1 -1\nf 1 2 3\nf 3 2 1\n";
    let (verts, faces) = parse_obj(text).unwrap();
    assert_eq!(verts.len(), 3);
    assert_eq!(faces.len(), 2);
    for f in &faces {
        assert_eq!(f.len(), 3);
        for &ix in f {
            assert!(ix < verts.len());
        }
    }
}

#[test]
fn slash_tokens_use_first_reference_only() {
    let text = b"v 0 0 0\nv 1 0 0\nv 0 1 0\nf 1/1/1 2/2/2 3/3/3\n";
    let (_, faces) = parse_obj(text).unwrap();
    assert_eq!(faces, vec![vec![0usize, 1, 2]]);
}

#[test]
fn decimal_coordinates_read_exactly() {
    let text = b"v -0.5 1.25 0.000001\n";
    let (verts, _) = parse_obj(text).unwrap();
    assert_eq!(verts[0], Point::new(-500_000, 1_250_000, 1));
}

#[test]
fn fraction_digits_past_the_sixth_are_cut_off() {
    let text = b"v 0.1234567 0 0\n";
    let (verts, _) = parse_obj(text).unwrap();
    assert_eq!(verts[0].x, 123_456);
}

#[test]
fn extra_vertex_tokens_are_ignored() {
    let text = b"v 1 2 3 1.0\n";
    let (verts, _) = parse_obj(text).unwrap();
    assert_eq!(verts[0], Point::new(S, 2 * S, 3 * S));
}

#[test]
fn crlf_lines_are_accepted() {
    let text = b"v 1 0 0\r\nv 0 1 0\r\nv 0 0 1\r\nf 1 2 3\r\n";
    let (verts, faces) = parse_obj(text).unwrap();
    assert_eq!(verts.len(), 3);
    assert_eq!(faces.len(), 1);
}

#[test]
fn missing_newline_at_end_still_reads_last_line() {
    let text = b"v 1 0 0\nv 0 1 0\nv 0 0 1\nf 1 2 3";
    let (_, faces) = parse_obj(text).unwrap();
    assert_eq!(faces.len(), 1);
}

#[test]
fn empty_text_gives_empty_mesh() {
    let (verts, faces) = parse_obj(b"").unwrap();
    assert!(verts.is_empty());
    assert!(faces.is_empty());
}

#[test]
fn short_vertex_line_is_fatal() {
    assert_eq!(parse_obj(b"v 1 2\n"), Err(LoadError::MissingToken));
}

#[test]
fn non_numeric_vertex_is_fatal() {
    assert_eq!(parse_obj(b"v a b c\n"), Err(LoadError::BadNumber));
}

#[test]
fn exponent_notation_is_rejected() {
    assert_eq!(parse_obj(b"v 1e3 0 0\n"), Err(LoadError::BadNumber));
}

#[test]
fn oversized_coordinate_is_rejected() {
    assert_eq!(parse_obj(b"v 1000.5 0 0\n"), Err(LoadError::BadNumber));
    assert!(parse_obj(b"v 1000.0 0 0\n").is_ok());
    assert!(parse_obj(b"v -1000 0 0\n").is_ok());
}

#[test]
fn face_referencing_vertex_zero_is_fatal() {
    let text = b"v 0 0 0\nv 1 0 0\nv 0 1 0\nf 0 1 2\n";
    assert_eq!(parse_obj(text), Err(LoadError::BadIndex));
}

#[test]
fn face_referencing_missing_vertex_is_fatal() {
    let text = b"v 0 0 0\nv 1 0 0\nv 0 1 0\nf 1 2 9\n";
    assert_eq!(parse_obj(text), Err(LoadError::BadIndex));
}

#[test]
fn non_triangular_face_is_fatal() {
    let text = b"v 0 0 0\nv 1 0 0\nv 0 1 0\nv 1 1 0\nf 1 2 3 4\n";
    assert_eq!(parse_obj(text), Err(LoadError::BadFaceSize));
    let two = b"v 0 0 0\nv 1 0 0\nf 1 2\n";
    assert_eq!(parse_obj(two), Err(LoadError::BadFaceSize));
}

#[test]
fn bad_face_token_is_fatal() {
    let text = b"v 0 0 0\nv 1 0 0\nv 0 1 0\nf 1 x 3\n";
    assert_eq!(parse_obj(text), Err(LoadError::BadNumber));
}

#[test]
fn unknown_line_kinds_are_skipped() {
    let text = b"mtllib scene.mtl\no head\ns off\nv 1 0 0\n";
    let (verts, faces) = parse_obj(text).unwrap();
    assert_eq!(verts.len(), 1);
    assert!(faces.is_empty());
}
