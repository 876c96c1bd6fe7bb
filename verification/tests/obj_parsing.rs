//! Wavefront face statements: index parsing, corner grammar, bounds.

use geodesic::errors::{FileParsingError, GeodesicError};
use geodesic::obj::{parse_face, parse_usize, read_obj_statement, validate_face_indices, Face, ObjStatement};

#[test]
fn parse_usize_reads_plain_decimals() {
    assert_eq!(parse_usize("0"), Some(0));
    assert_eq!(parse_usize("12"), Some(12));
    assert_eq!(parse_usize("007"), Some(7));
    assert_eq!(parse_usize("18446744073709551615"), Some(usize::MAX));
}

#[test]
fn parse_usize_accepts_one_leading_plus() {
    assert_eq!(parse_usize("+7"), Some(7));
    assert_eq!(parse_usize("+"), None);
    assert_eq!(parse_usize("++7"), None);
}

#[test]
fn parse_usize_rejects_junk_and_overflow() {
    assert_eq!(parse_usize(""), None);
    assert_eq!(parse_usize("abc"), None);
    assert_eq!(parse_usize("1 2"), None);
    assert_eq!(parse_usize("-3"), None);
    assert_eq!(parse_usize("3.5"), None);
    assert_eq!(parse_usize("18446744073709551616"), None);
    assert_eq!(parse_usize("99999999999999999999999"), None);
}

#[test]
fn parse_usize_agrees_with_the_standard_parser() {
    for s in [
        "0", "1", "42", "+42", "007", "", "+", "x", "1/2", "18446744073709551615",
        "18446744073709551616", "  3", "3 ",
    ] {
        assert_eq!(parse_usize(s), s.parse::<usize>().ok(), "disagreed on {s:?}");
    }
}

#[test]
fn parse_face_reads_vertex_and_normal_indices() {
    let f = parse_face(&["1//2", "3//4", "5//6"], 1).unwrap();
    assert_eq!(f.vertex_indices, [0, 2, 4]);
    assert_eq!(f.normal_indices, [1, 3, 5]);
}

#[test]
fn parse_face_reads_full_corner_tokens() {
    let f = parse_face(&["5/7/3", "1/1/1", "2/9/4"], 10).unwrap();
    assert_eq!(f.vertex_indices, [4, 0, 1]);
    assert_eq!(f.normal_indices, [2, 0, 3]);
}

#[test]
fn parse_face_ignores_anything_after_the_third_slash() {
    let f = parse_face(&["1//2/9", "3//4", "5//6"], 1).unwrap();
    assert_eq!(f.vertex_indices[0], 0);
    assert_eq!(f.normal_indices[0], 1);
}

#[test]
fn parse_face_saturates_an_explicit_zero_index() {
    let f = parse_face(&["0//0", "1//1", "2//2"], 1).unwrap();
    assert_eq!(f.vertex_indices[0], 0);
    assert_eq!(f.normal_indices[0], 0);
}

#[test]
fn parse_face_requires_exactly_three_corners() {
    for tokens in [&[][..], &["1//1"][..], &["1//1", "2//2"][..], &["1//1", "2//2", "3//3", "4//4"][..]] {
        let e = parse_face(tokens, 7).unwrap_err();
        assert!(matches!(
            e,
            GeodesicError::FileParsing(FileParsingError::InvalidFaceData { line: 7, .. })
        ));
    }
}

#[test]
fn parse_face_requires_a_normal_part() {
    for bad in ["1", "1/2"] {
        let e = parse_face(&[bad, "1//1", "2//2"], 3).unwrap_err();
        assert!(matches!(
            e,
            GeodesicError::FileParsing(FileParsingError::InvalidFaceData { line: 3, .. })
        ));
    }
}

#[test]
fn parse_face_rejects_unreadable_indices() {
    for bad in ["x//1", "//1", "1//x", "1//", "1//-2", "9999999999999999999999//1"] {
        let e = parse_face(&["1//1", bad, "2//2"], 4).unwrap_err();
        assert!(matches!(
            e,
            GeodesicError::FileParsing(FileParsingError::InvalidFaceData { line: 4, .. })
        ));
    }
}

#[test]
fn validate_face_indices_accepts_in_bounds_faces() {
    let faces = vec![
        Face { vertex_indices: [0, 1, 2], normal_indices: [0, 0, 1] },
        Face { vertex_indices: [2, 1, 0], normal_indices: [1, 1, 0] },
    ];
    assert!(validate_face_indices(&faces, 3, 2).is_ok());
}

#[test]
fn validate_face_indices_rejects_out_of_bounds_references() {
    let vertex_out = vec![Face { vertex_indices: [0, 3, 1], normal_indices: [0, 0, 0] }];
    assert!(matches!(
        validate_face_indices(&vertex_out, 3, 1).unwrap_err(),
        GeodesicError::FileParsing(FileParsingError::InvalidFaceData { .. })
    ));
    let normal_out = vec![Face { vertex_indices: [0, 1, 2], normal_indices: [0, 1, 0] }];
    assert!(validate_face_indices(&normal_out, 3, 1).is_err());
}

#[test]
fn statements_are_classified_by_keyword() {
    assert_eq!(read_obj_statement(&[], 1).unwrap(), ObjStatement::Blank);
    assert_eq!(
        read_obj_statement(&["v", "0.0", "1.0", "2.0"], 1).unwrap(),
        ObjStatement::VertexPosition
    );
    assert_eq!(
        read_obj_statement(&["vn", "0.0", "0.0", "1.0"], 1).unwrap(),
        ObjStatement::VertexNormal
    );
    assert_eq!(
        read_obj_statement(&["usemtl", "stone"], 1).unwrap(),
        ObjStatement::Unknown
    );
    assert_eq!(read_obj_statement(&["vt", "0.5", "0.5"], 1).unwrap(), ObjStatement::Unknown);
    let st = read_obj_statement(&["f", "1//1", "2//2", "3//3"], 1).unwrap();
    match st {
        ObjStatement::Face(f) => {
            assert_eq!(f.vertex_indices, [0, 1, 2]);
            assert_eq!(f.normal_indices, [0, 1, 2]);
        }
        other => panic!("expected a face, got {other:?}"),
    }
}

#[test]
fn short_statements_are_reported_with_their_line() {
    assert!(matches!(
        read_obj_statement(&["v", "1.0", "2.0"], 12).unwrap_err(),
        GeodesicError::FileParsing(FileParsingError::MissingVertexPosition { line: 12 })
    ));
    assert!(matches!(
        read_obj_statement(&["vn", "1.0"], 13).unwrap_err(),
        GeodesicError::FileParsing(FileParsingError::MissingVertexNormal { line: 13 })
    ));
    assert!(matches!(
        read_obj_statement(&["f", "1//1", "2//2"], 14).unwrap_err(),
        GeodesicError::FileParsing(FileParsingError::InvalidFaceData { line: 14, .. })
    ));
    // A face statement with more than three corners is refused too.
    assert!(read_obj_statement(&["f", "1//1", "2//2", "3//3", "4//4"], 15).is_err());
}
