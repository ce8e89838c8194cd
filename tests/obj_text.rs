use penger3d::obj::{parse_face, parse_obj, ObjError, Span};

fn text_of<'a>(text: &'a str, sp: Span) -> &'a str {
    &text[sp.start..sp.end]
}

#[test]
fn face_plain_indices_become_zero_based() {
    assert_eq!(parse_face("f 1 2 3"), Ok(vec![0, 1, 2]));
}

#[test]
fn face_suffix_after_slash_is_ignored() {
    assert_eq!(parse_face("f 23/1/23 3/2/3 4//4"), Ok(vec![22, 2, 3]));
}

#[test]
fn face_accepts_plus_sign_and_tabs() {
    assert_eq!(parse_face("f\t+2  3\r"), Ok(vec![1, 2]));
}

#[test]
fn face_without_tokens_is_empty() {
    assert_eq!(parse_face("f"), Ok(vec![]));
}

#[test]
fn face_index_zero_is_rejected() {
    assert_eq!(parse_face("f 0 1 2"), Err(ObjError::BadIndex));
}

#[test]
fn face_non_numeric_index_is_rejected() {
    assert_eq!(parse_face("f 1 x 3"), Err(ObjError::BadIndex));
    assert_eq!(parse_face("f /2/3"), Err(ObjError::BadIndex));
    assert_eq!(parse_face("f -1"), Err(ObjError::BadIndex));
}

#[test]
fn face_index_too_large_is_rejected() {
    assert_eq!(parse_face("f 99999999999999999999999"), Err(ObjError::BadIndex));
}

#[test]
fn triangle_is_read() {
    let text = "v -1 -1 0\nv 1 -1 0\nv 0 1 0\nf 1 2 3\n";
    let m = parse_obj(text).unwrap();
    assert_eq!(m.vertices.len(), 3);
    assert_eq!(m.faces, vec![vec![0, 1, 2]]);
    let v0 = m.vertices[0];
    assert_eq!(text_of(text, v0.x), "-1");
    assert_eq!(text_of(text, v0.y), "-1");
    assert_eq!(text_of(text, v0.z), "0");
    let v2 = m.vertices[2];
    assert_eq!(text_of(text, v2.x), "0");
    assert_eq!(text_of(text, v2.y), "1");
    assert_eq!(text_of(text, v2.z), "0");
}

#[test]
fn other_lines_are_skipped() {
    let text = "# comment\r\nvn 0 0 1\r\nvt 0.5 0.5\r\nv 1.5 2 3 1\r\ng group\r\nf 1/1/1 1//1\r\n  v 9 9 9\r\n";
    let m = parse_obj(text).unwrap();
    assert_eq!(m.vertices.len(), 1);
    assert_eq!(text_of(text, m.vertices[0].x), "1.5");
    assert_eq!(text_of(text, m.vertices[0].z), "3");
    assert_eq!(m.faces, vec![vec![0, 0]]);
}

#[test]
fn last_line_without_newline_counts() {
    let m = parse_obj("v 1 2 3\nv 4 5 6\nf 2 1").unwrap();
    assert_eq!(m.vertices.len(), 2);
    assert_eq!(m.faces, vec![vec![1, 0]]);
}

#[test]
fn empty_text_is_an_empty_mesh() {
    let m = parse_obj("").unwrap();
    assert!(m.vertices.is_empty());
    assert!(m.faces.is_empty());
}

#[test]
fn vertex_with_two_coordinates_is_rejected() {
    assert_eq!(parse_obj("v 1 2\nf 1").err(), Some(ObjError::MissingCoordinate));
}

#[test]
fn face_beyond_the_vertices_is_rejected() {
    assert_eq!(parse_obj("v 0 0 0\nv 1 0 0\nf 1 2 3\n").err(), Some(ObjError::IndexOutOfRange));
}

#[test]
fn first_malformed_line_decides() {
    assert_eq!(parse_obj("f 1 x\nv 1 2\n").err(), Some(ObjError::BadIndex));
    assert_eq!(parse_obj("v 1 2\nf 1 x\n").err(), Some(ObjError::MissingCoordinate));
}

#[test]
fn face_may_name_a_later_vertex() {
    let m = parse_obj("f 1 2\nv 0 0 0\nv 1 1 1\n").unwrap();
    assert_eq!(m.faces, vec![vec![0, 1]]);
}
