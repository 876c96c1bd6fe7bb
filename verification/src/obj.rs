//! Wavefront face statements.
//!
//! A face statement names three corners, each a token of the form
//! `v`, `v/t`, or `v/t/n`, where `v`, `t` and `n` are one-based decimal
//! indices and `t` may be empty. Faces here are triangles with vertex
//! normals, so a corner must carry both a vertex index (the part before
//! the first `/`) and a normal index (the part between the second and
//! third `/`, or the end); anything after a third `/` is ignored. A
//! decimal index may carry one leading `+` and must fit the platform's
//! word; indices are converted to zero-based form, with an explicit `0`
//! saturating to `0`.

use vstd::prelude::*;
use vstd::arithmetic::div_mod::lemma_fundamental_div_mod;
use vstd::string::StrSliceExecFns;
use vstd::string::StringExecFns;

use crate::errors::{FileParsingError, GeodesicError};

verus! {

/// The character is an ASCII decimal digit.
pub open spec fn is_ascii_digit(c: char) -> bool {
    48 <= c as int <= 57
}

/// The numeric value of an ASCII decimal digit.
pub open spec fn digit_value(c: char) -> int {
    c as int - 48
}

/// The value of a digit string read in base ten.
pub open spec fn digits_value(s: Seq<char>) -> int
    decreases s.len(),
{
    if s.len() == 0 {
        0
    } else {
        digits_value(s.drop_last()) * 10 + digit_value(s.last())
    }
}

/// The string is one or more ASCII decimal digits.
pub open spec fn is_digits(s: Seq<char>) -> bool {
    s.len() > 0 && forall|k: int| 0 <= k < s.len() ==> is_ascii_digit(#[trigger] s[k])
}

/// The string with one leading `+` removed, if present.
pub open spec fn strip_plus(s: Seq<char>) -> Seq<char> {
    if s.len() > 0 && s[0] == '+' {
        s.drop_first()
    } else {
        s
    }
}

/// The string reads as an unsigned machine word: an optional `+`, then
/// digits whose value fits.
pub open spec fn parses_as_usize(s: Seq<char>) -> bool {
    is_digits(strip_plus(s)) && digits_value(strip_plus(s)) <= usize::MAX
}

/// The value such a string reads as.
pub open spec fn usize_value(s: Seq<char>) -> int {
    digits_value(strip_plus(s))
}

/// Position of the first `/` in the string, or its length if none.
pub open spec fn first_slash(s: Seq<char>) -> int
    decreases s.len(),
{
    if s.len() == 0 {
        0
    } else if s[0] == '/' {
        0
    } else {
        1 + first_slash(s.drop_first())
    }
}

/// The part of a corner token before the first `/`: the vertex index.
pub open spec fn part0(s: Seq<char>) -> Seq<char> {
    s.take(first_slash(s))
}

/// What follows the first `/` of a corner token.
pub open spec fn rest1(s: Seq<char>) -> Seq<char> {
    if first_slash(s) < s.len() {
        s.skip(first_slash(s) + 1)
    } else {
        Seq::empty()
    }
}

/// The token has at least two `/`, so a normal part exists.
pub open spec fn has_normal_part(s: Seq<char>) -> bool {
    first_slash(s) < s.len() && first_slash(rest1(s)) < rest1(s).len()
}

/// The part of a corner token between its second and third `/` (or its
/// end): the normal index.
pub open spec fn part2(s: Seq<char>) -> Seq<char> {
    let r = rest1(s);
    let r2 = if first_slash(r) < r.len() {
        r.skip(first_slash(r) + 1)
    } else {
        Seq::empty()
    };
    r2.take(first_slash(r2))
}

/// A one-based index as stored: zero-based, an explicit `0` saturating.
pub open spec fn obj_index(v: int) -> int {
    if v > 0 {
        v - 1
    } else {
        0
    }
}

/// The corner token carries a readable vertex index and a readable
/// normal index.
pub open spec fn corner_token_ok(s: Seq<char>) -> bool {
    &&& parses_as_usize(part0(s))
    &&& has_normal_part(s)
    &&& parses_as_usize(part2(s))
}

/// The error is `InvalidFaceData` on the given line.
pub open spec fn is_face_data_error(e: GeodesicError, line: usize) -> bool {
    match e {
        GeodesicError::FileParsing(fe) => match fe {
            FileParsingError::InvalidFaceData { line: l, message: _ } => l == line,
            _ => false,
        },
        _ => false,
    }
}

/// A triangular face as vertex and normal indices into the arrays read
/// from the same file, zero-based.
#[derive(Debug, Clone, Copy, PartialEq, Eq)]
pub struct Face {
    /// Indices of the three vertex positions.
    pub vertex_indices: [usize; 3],
    /// Indices of the three vertex normals.
    pub normal_indices: [usize; 3],
}

/// The face references only existing vertices and normals.
pub open spec fn face_in_bounds(f: Face, vertex_count: int, normal_count: int) -> bool {
    &&& forall|i: int| 0 <= i < 3 ==> f.vertex_indices@[i] < vertex_count
    &&& forall|i: int| 0 <= i < 3 ==> f.normal_indices@[i] < normal_count
}

/// The value of a digit string is never negative.
proof fn lemma_digits_value_nonneg(s: Seq<char>)
    requires
        forall|k: int| 0 <= k < s.len() ==> is_ascii_digit(#[trigger] s[k]),
    ensures
        digits_value(s) >= 0,
    decreases s.len(),
{
    if s.len() > 0 {
        lemma_digits_value_nonneg(s.drop_last());
    }
}

/// One more digit: the value is ten times the prefix plus the digit.
proof fn lemma_digits_value_extend(s: Seq<char>, a: int, k: int)
    requires
        0 <= a <= k < s.len(),
    ensures
        digits_value(s.subrange(a, k + 1)) == digits_value(s.subrange(a, k)) * 10 + digit_value(
            s[k],
        ),
{
    assert(s.subrange(a, k + 1).drop_last() =~= s.subrange(a, k));
    assert(s.subrange(a, k + 1).last() == s[k]);
}

/// A prefix of a digit string never reads as more than the whole.
proof fn lemma_digits_value_mono(s: Seq<char>, a: int, k: int, j: int)
    requires
        0 <= a <= k <= j <= s.len(),
        forall|m: int| a <= m < j ==> is_ascii_digit(#[trigger] s[m]),
    ensures
        digits_value(s.subrange(a, k)) <= digits_value(s.subrange(a, j)),
    decreases j - k,
{
    if k < j {
        lemma_digits_value_extend(s, a, k);
        assert(forall|m: int| 0 <= m < k - a ==> is_ascii_digit(#[trigger] s.subrange(a, k)[m]));
        lemma_digits_value_nonneg(s.subrange(a, k));
        lemma_digits_value_mono(s, a, k + 1, j);
    }
}

/// `first_slash` is characterised by what the scan saw: no `/` before
/// `p`, and `p` is the end or a `/`.
proof fn lemma_first_slash_at(s: Seq<char>, p: int)
    requires
        0 <= p <= s.len(),
        forall|k: int| 0 <= k < p ==> (#[trigger] s[k]) != '/',
        p == s.len() || s[p] == '/',
    ensures
        first_slash(s) == p,
    decreases s.len(),
{
    if s.len() > 0 && s[0] != '/' {
        assert(p >= 1);
        lemma_first_slash_at(s.drop_first(), p - 1);
    }
}

/// Read a decimal machine word: one optional leading `+`, then digits.
/// Returns the value exactly when the whole string has that shape and
/// the value fits; anything else — empty digits, another character, a
/// value over the word — reads as nothing.
pub fn parse_usize(s: &str) -> (r: Option<usize>)
    ensures
        parses_as_usize(s@) ==> r == Some(usize_value(s@) as usize),
        !parses_as_usize(s@) ==> r is None,
{
    let len = s.unicode_len();
    let mut start: usize = 0;
    if len > 0 {
        let c0 = s.get_char(0);
        if c0 == '+' {
            start = 1;
        }
    }
    proof {
        assert(strip_plus(s@) =~= s@.subrange(start as int, len as int));
    }
    if start == len {
        return None;
    }
    let mut acc: usize = 0;
    let mut k: usize = start;
    while k < len
        invariant
            start <= k <= len,
            len == s@.len(),
            start < len,
            forall|m: int| start <= m < k ==> is_ascii_digit(#[trigger] s@[m]),
            acc as int == digits_value(s@.subrange(start as int, k as int)),
            strip_plus(s@) == s@.subrange(start as int, len as int),
        decreases len - k,
    {
        let c = s.get_char(k);
        let d32 = c as u32;
        if d32 < 48 || d32 > 57 {
            proof {
                assert(strip_plus(s@)[k - start] == s@[k as int]);
                assert(!is_digits(strip_plus(s@)));
            }
            return None;
        }
        let d = (d32 - 48) as usize;
        proof {
            lemma_fundamental_div_mod(usize::MAX - d, 10);
        }
        if acc > (usize::MAX - d) / 10 {
            // The digits read so far already overflow the word; any
            // continuation reads as at least this much.
            proof {
                lemma_digits_value_extend(s@, start as int, k as int);
                if is_digits(strip_plus(s@)) {
                    assert(forall|m: int|
                        start <= m < len ==> is_ascii_digit(#[trigger] s@[m])) by {
                        assert(forall|m: int|
                            0 <= m < strip_plus(s@).len() ==> is_ascii_digit(
                                #[trigger] strip_plus(s@)[m],
                            ));
                        assert(forall|m: int|
                            start <= m < len ==> s@[m] == strip_plus(s@)[m - start]);
                    }
                    lemma_digits_value_mono(s@, start as int, k + 1, len as int);
                }
            }
            return None;
        }
        proof {
            lemma_digits_value_extend(s@, start as int, k as int);
        }
        acc = acc * 10 + d;
        k = k + 1;
    }
    proof {
        assert(forall|m: int|
            0 <= m < strip_plus(s@).len() ==> is_ascii_digit(#[trigger] strip_plus(s@)[m])) by {
            assert(forall|m: int| 0 <= m < len - start ==> strip_plus(s@)[m] == s@[m + start]);
        }
        assert(is_digits(strip_plus(s@)));
    }
    Some(acc)
}

/// Position of the first `/` in `s` at or after `from`, or the length.
fn scan_slash(s: &str, from: usize) -> (p: usize)
    requires
        from <= s@.len(),
    ensures
        from <= p <= s@.len(),
        p < s@.len() ==> s@[p as int] == '/',
        forall|k: int| from <= k < p ==> (#[trigger] s@[k]) != '/',
{
    let len = s.unicode_len();
    let mut k = from;
    while k < len
        invariant
            from <= k <= len,
            len == s@.len(),
            forall|m: int| from <= m < k ==> (#[trigger] s@[m]) != '/',
        decreases len - k,
    {
        let c = s.get_char(k);
        if c == '/' {
            return k;
        }
        k = k + 1;
    }
    len
}

/// Build the `InvalidFaceData` error for a line.
fn invalid_face_data(line: usize, message: String) -> (e: GeodesicError)
    ensures
        is_face_data_error(e, line),
{
    GeodesicError::FileParsing(FileParsingError::InvalidFaceData { line, message })
}

/// Read one corner token into its vertex and normal index.
fn parse_corner(tok: &str, line: usize) -> (r: Result<(usize, usize), GeodesicError>)
    ensures
        corner_token_ok(tok@) ==> (r matches Ok(p) && p.0 == obj_index(usize_value(part0(tok@)))
            && p.1 == obj_index(usize_value(part2(tok@)))),
        !corner_token_ok(tok@) ==> (r matches Err(e) && is_face_data_error(e, line)),
{
    let len = tok.unicode_len();
    let p1 = scan_slash(tok, 0);
    proof {
        lemma_first_slash_at(tok@, p1 as int);
    }
    let part_v = tok.substring_char(0, p1);
    proof {
        assert(part_v@ =~= part0(tok@));
    }
    let v = match parse_usize(part_v) {
        Some(v) => v,
        None => {
            return Err(
                invalid_face_data(line, String::from_str("Invalid vertex index: ").concat(part_v)),
            );
        },
    };
    if p1 == len {
        // A bare vertex index: no normal part at all.
        return Err(invalid_face_data(line, String::from_str("Face must specify normal indices")));
    }
    let p2 = scan_slash(tok, p1 + 1);
    proof {
        assert(rest1(tok@) =~= tok@.subrange(p1 + 1, len as int));
        assert forall|m: int| 0 <= m < p2 - (p1 + 1) implies (#[trigger] rest1(tok@)[m])
            != '/' by {
            assert(rest1(tok@)[m] == tok@[m + p1 + 1]);
        }
        if p2 < len {
            assert(rest1(tok@)[p2 - (p1 + 1)] == tok@[p2 as int]);
        }
        lemma_first_slash_at(rest1(tok@), p2 - (p1 + 1));
    }
    if p2 == len {
        // One slash only: a `v/t` token without a normal part.
        return Err(invalid_face_data(line, String::from_str("Face must specify normal indices")));
    }
    let p3 = scan_slash(tok, p2 + 1);
    proof {
        let r2 = rest1(tok@).skip(first_slash(rest1(tok@)) + 1);
        assert(r2 =~= tok@.subrange(p2 + 1, len as int));
        assert forall|m: int| 0 <= m < p3 - (p2 + 1) implies (#[trigger] r2[m]) != '/' by {
            assert(r2[m] == tok@[m + p2 + 1]);
        }
        if p3 < len {
            assert(r2[p3 - (p2 + 1)] == tok@[p3 as int]);
        }
        lemma_first_slash_at(r2, p3 - (p2 + 1));
    }
    let part_n = tok.substring_char(p2 + 1, p3);
    proof {
        assert(part_n@ =~= part2(tok@));
    }
    let n = match parse_usize(part_n) {
        Some(n) => n,
        None => {
            return Err(
                invalid_face_data(line, String::from_str("Invalid normal index: ").concat(part_n)),
            );
        },
    };
    proof {
        if corner_token_ok(tok@) {
            lemma_digits_value_nonneg(strip_plus(part0(tok@)));
            lemma_digits_value_nonneg(strip_plus(part2(tok@)));
        }
    }
    Ok((if v > 0 { v - 1 } else { 0 }, if n > 0 { n - 1 } else { 0 }))
}

/// Read a face statement's corner tokens (what follows the `f` keyword)
/// into a [`Face`].
///
/// Succeeds exactly when there are three corner tokens and each carries
/// a readable vertex and normal index; any other shape is
/// `InvalidFaceData` on the given line. Indices are converted to
/// zero-based form; whether they refer to existing vertices is checked
/// separately by [`validate_face_indices`].
pub fn parse_face(tokens: &[&str], line: usize) -> (r: Result<Face, GeodesicError>)
    ensures
        (tokens@.len() == 3 && corner_token_ok(tokens@[0]@) && corner_token_ok(tokens@[1]@)
            && corner_token_ok(tokens@[2]@)) ==> (r matches Ok(f) && {
            &&& f.vertex_indices@[0] == obj_index(usize_value(part0(tokens@[0]@)))
            &&& f.vertex_indices@[1] == obj_index(usize_value(part0(tokens@[1]@)))
            &&& f.vertex_indices@[2] == obj_index(usize_value(part0(tokens@[2]@)))
            &&& f.normal_indices@[0] == obj_index(usize_value(part2(tokens@[0]@)))
            &&& f.normal_indices@[1] == obj_index(usize_value(part2(tokens@[1]@)))
            &&& f.normal_indices@[2] == obj_index(usize_value(part2(tokens@[2]@)))
        }),
        !(tokens@.len() == 3 && corner_token_ok(tokens@[0]@) && corner_token_ok(tokens@[1]@)
            && corner_token_ok(tokens@[2]@)) ==> (r matches Err(e) && is_face_data_error(e, line)),
{
    if tokens.len() != 3 {
        return Err(
            invalid_face_data(
                line,
                String::from_str("Face must have exactly 3 vertex indices (triangular faces only)"),
            ),
        );
    }
    let (v0, n0) = match parse_corner(tokens[0], line) {
        Ok(p) => p,
        Err(e) => {
            return Err(e);
        },
    };
    let (v1, n1) = match parse_corner(tokens[1], line) {
        Ok(p) => p,
        Err(e) => {
            return Err(e);
        },
    };
    let (v2, n2) = match parse_corner(tokens[2], line) {
        Ok(p) => p,
        Err(e) => {
            return Err(e);
        },
    };
    Ok(Face { vertex_indices: [v0, v1, v2], normal_indices: [n0, n1, n2] })
}

/// One statement of a Wavefront mesh description, classified by its
/// keyword. The scalar coordinates of a vertex statement are left to
/// the caller to read; a face statement is parsed here in full.
#[derive(Debug, Clone, Copy, PartialEq, Eq)]
pub enum ObjStatement {
    /// A line with no tokens.
    Blank,
    /// A `v` statement with at least three coordinate tokens.
    VertexPosition,
    /// A `vn` statement with at least three coordinate tokens.
    VertexNormal,
    /// An `f` statement, parsed.
    Face(Face),
    /// A statement with any other keyword; ignored.
    Unknown,
}

/// Classify one line's tokens as a Wavefront statement.
///
/// A `v` or `vn` statement must carry at least three coordinate tokens
/// and an `f` statement at least three corner tokens; a face statement
/// is handed to [`parse_face`], so exactly three well-formed corners
/// are accepted. Unknown keywords pass as [`ObjStatement::Unknown`].
pub fn read_obj_statement(tokens: &[&str], line: usize) -> (r: Result<ObjStatement, GeodesicError>)
    ensures
        tokens@.len() == 0 ==> r == Ok::<ObjStatement, GeodesicError>(ObjStatement::Blank),
        tokens@.len() > 0 && tokens@[0]@ == seq!['v'] ==> r == if tokens@.len() < 4 {
            Err::<ObjStatement, GeodesicError>(
                GeodesicError::FileParsing(FileParsingError::MissingVertexPosition { line }),
            )
        } else {
            Ok::<ObjStatement, GeodesicError>(ObjStatement::VertexPosition)
        },
        tokens@.len() > 0 && tokens@[0]@ == seq!['v', 'n'] ==> r == if tokens@.len() < 4 {
            Err::<ObjStatement, GeodesicError>(
                GeodesicError::FileParsing(FileParsingError::MissingVertexNormal { line }),
            )
        } else {
            Ok::<ObjStatement, GeodesicError>(ObjStatement::VertexNormal)
        },
        tokens@.len() > 0 && tokens@[0]@ == seq!['f'] && tokens@.len() < 4 ==> (r matches Err(e)
            && is_face_data_error(e, line)),
        tokens@.len() >= 4 && tokens@[0]@ == seq!['f'] ==> {
            if tokens@.len() == 4 && corner_token_ok(tokens@[1]@) && corner_token_ok(tokens@[2]@)
                && corner_token_ok(tokens@[3]@) {
                r matches Ok(st) && (st matches ObjStatement::Face(f) && {
                    &&& f.vertex_indices@[0] == obj_index(usize_value(part0(tokens@[1]@)))
                    &&& f.vertex_indices@[1] == obj_index(usize_value(part0(tokens@[2]@)))
                    &&& f.vertex_indices@[2] == obj_index(usize_value(part0(tokens@[3]@)))
                    &&& f.normal_indices@[0] == obj_index(usize_value(part2(tokens@[1]@)))
                    &&& f.normal_indices@[1] == obj_index(usize_value(part2(tokens@[2]@)))
                    &&& f.normal_indices@[2] == obj_index(usize_value(part2(tokens@[3]@)))
                })
            } else {
                r matches Err(e) && is_face_data_error(e, line)
            }
        },
        tokens@.len() > 0 && tokens@[0]@ != seq!['v'] && tokens@[0]@ != seq!['v', 'n']
            && tokens@[0]@ != seq!['f'] ==> r == Ok::<ObjStatement, GeodesicError>(
            ObjStatement::Unknown,
        ),
{
    proof {
        reveal_strlit("v");
        reveal_strlit("vn");
        reveal_strlit("f");
    }
    if tokens.len() == 0 {
        return Ok(ObjStatement::Blank);
    }
    let t0: &str = tokens[0];
    let l0 = t0.unicode_len();
    if l0 == 1 && t0.get_char(0) == 'v' {
        proof {
            assert(t0@ =~= seq!['v']);
        }
        if tokens.len() < 4 {
            return Err(GeodesicError::FileParsing(FileParsingError::MissingVertexPosition { line }));
        }
        return Ok(ObjStatement::VertexPosition);
    }
    if l0 == 2 && t0.get_char(0) == 'v' && t0.get_char(1) == 'n' {
        proof {
            assert(t0@ =~= seq!['v', 'n']);
        }
        if tokens.len() < 4 {
            return Err(GeodesicError::FileParsing(FileParsingError::MissingVertexNormal { line }));
        }
        return Ok(ObjStatement::VertexNormal);
    }
    if l0 == 1 && t0.get_char(0) == 'f' {
        proof {
            assert(t0@ =~= seq!['f']);
        }
        if tokens.len() < 4 {
            return Err(
                invalid_face_data(
                    line,
                    String::from_str("Face must have at least 3 vertices"),
                ),
            );
        }
        let corners = vstd::slice::slice_subrange(tokens, 1, tokens.len());
        let face = match parse_face(corners, line) {
            Ok(face) => face,
            Err(e) => {
                return Err(e);
            },
        };
        return Ok(ObjStatement::Face(face));
    }
    proof {
        if t0@ == seq!['v'] {
            assert(t0@.len() == 1 && t0@[0] == 'v');
            assert(false);
        }
        if t0@ == seq!['v', 'n'] {
            assert(t0@.len() == 2 && t0@[0] == 'v' && t0@[1] == 'n');
            assert(false);
        }
        if t0@ == seq!['f'] {
            assert(t0@.len() == 1 && t0@[0] == 'f');
            assert(false);
        }
    }
    Ok(ObjStatement::Unknown)
}

/// Check that every face references only existing vertices and normals.
///
/// Succeeds exactly when each face is in bounds; otherwise the error is
/// `InvalidFaceData`, reported without a line (the statement's position
/// is no longer known at this point).
pub fn validate_face_indices(faces: &Vec<Face>, vertex_count: usize, normal_count: usize) -> (r:
    Result<(), GeodesicError>)
    ensures
        (forall|i: int|
            0 <= i < faces@.len() ==> face_in_bounds(
                #[trigger] faces@[i],
                vertex_count as int,
                normal_count as int,
            )) <==> r is Ok,
        r matches Err(e) ==> is_face_data_error(e, 0),
{
    let mut i: usize = 0;
    while i < faces.len()
        invariant
            i <= faces@.len(),
            forall|m: int|
                0 <= m < i ==> face_in_bounds(
                    #[trigger] faces@[m],
                    vertex_count as int,
                    normal_count as int,
                ),
        decreases faces@.len() - i,
    {
        let f = faces[i];
        if f.vertex_indices[0] >= vertex_count || f.vertex_indices[1] >= vertex_count
            || f.vertex_indices[2] >= vertex_count {
            return Err(
                invalid_face_data(0, String::from_str("Face references non-existent vertex")),
            );
        }
        if f.normal_indices[0] >= normal_count || f.normal_indices[1] >= normal_count
            || f.normal_indices[2] >= normal_count {
            return Err(
                invalid_face_data(0, String::from_str("Face references non-existent normal")),
            );
        }
        i = i + 1;
    }
    Ok(())
}

} // verus!
