use vstd::prelude::*;

use crate::error::FileParseError;
use crate::text::{
    ascii_lowercase, chars_of, has_prefix, is_ascii_text, lowercase, lowercase_ext, lowercase_extension, lowercase_of, opt_chars,
    parse_usize, parses_as_usize, path_extension_of, split_words, starts_with_chars, str_is,
    trim_white, trimmed, usize_value, words,
};

verus! {

/// A triangle of a mesh: three vertex indices (counted from 0) and the index
/// of its color in the mesh's palette.
#[derive(Clone, Copy, Debug, PartialEq, Eq, Structural)]
pub struct Face {
    pub v1: usize,
    pub v2: usize,
    pub v3: usize,
    pub color_id: usize,
}

/// The model file formats that can be read.
#[derive(Clone, Copy, Debug, PartialEq, Eq, Structural)]
pub enum ModelFormat {
    Obj,
    Glb,
}

/// What `model_format` answers for the lowercased extension `ext`.
pub open spec fn model_format_result(
    ext: Option<String>,
    r: Result<ModelFormat, FileParseError>,
) -> bool {
    match ext {
        Some(e) => if e@ == "obj"@ {
            r == Ok::<ModelFormat, FileParseError>(ModelFormat::Obj)
        } else if e@ == "glb"@ {
            r == Ok::<ModelFormat, FileParseError>(ModelFormat::Glb)
        } else {
            r == Err::<ModelFormat, FileParseError>(FileParseError::NotSupportedFileFormat(ext))
        },
        None => r == Err::<ModelFormat, FileParseError>(
            FileParseError::NotSupportedFileFormat(None),
        ),
    }
}

/// What a model file's lowercased extension `ext` makes of it: `obj` and
/// `glb` are read, anything else is refused with the extension it had.
pub open spec fn format_for(ext: Option<Seq<char>>, r: Result<ModelFormat, FileParseError>) -> bool {
    if ext == Some("obj"@) {
        r == Ok::<ModelFormat, FileParseError>(ModelFormat::Obj)
    } else if ext == Some("glb"@) {
        r == Ok::<ModelFormat, FileParseError>(ModelFormat::Glb)
    } else {
        r matches Err(FileParseError::NotSupportedFileFormat(o)) && opt_chars(o) == ext
    }
}

/// The format of a model file, from its lowercased extension.
pub fn model_format(ext: Option<String>) -> (r: Result<ModelFormat, FileParseError>)
    ensures
        model_format_result(ext, r),
        format_for(opt_chars(ext), r),
{
    match ext {
        Some(e) => {
            if str_is(&e, "obj") {
                Ok(ModelFormat::Obj)
            } else if str_is(&e, "glb") {
                Ok(ModelFormat::Glb)
            } else {
                Err(FileParseError::NotSupportedFileFormat(Some(e)))
            }
        },
        None => Err(FileParseError::NotSupportedFileFormat(None)),
    }
}

/// The format of the model file `filename`, told by its extension in any
/// case.
pub fn get_file_format(filename: &str) -> (r: Result<ModelFormat, FileParseError>)
    ensures
        format_for(lowercase_ext(path_extension_of(filename@)), r),
        path_extension_of(filename@) matches Some(e) ==> (is_ascii_text(e) ==> lowercase_of(
            e,
        ) == ascii_lowercase(e)),
{
    let ext = lowercase_extension(filename);
    model_format(ext)
}

/// The index of the first `/` in `s` at or after `i` (the length if there is
/// none).
pub open spec fn next_slash(s: Seq<char>, i: int) -> int
    decreases s.len() - i,
{
    if 0 <= i < s.len() && s[i] != '/' {
        next_slash(s, i + 1)
    } else {
        i
    }
}

/// The vertex part of a face corner `v/vt/vn`: the text before the first `/`.
pub open spec fn point_text(p: Seq<char>) -> Seq<char> {
    p.take(next_slash(p, 0))
}

/// The texture part of a face corner: the text between the first and the
/// second `/`, if there is a first one.
pub open spec fn texture_text(p: Seq<char>) -> Option<Seq<char>> {
    let k = next_slash(p, 0);
    if k < p.len() {
        Some(p.subrange(k + 1, next_slash(p, k + 1)))
    } else {
        None
    }
}

/// The texture index of a face corner, where its texture part is a number.
pub open spec fn texture_of(p: Seq<char>) -> Option<usize> {
    match texture_text(p) {
        Some(t) => if parses_as_usize(t) {
            Some(usize_value(t) as usize)
        } else {
            None
        },
        None => None,
    }
}

/// Whether the face corner `part` is there and names a vertex: a number of
/// at least 1.
pub open spec fn point_ok(part: Option<Seq<char>>) -> bool {
    &&& part is Some
    &&& parses_as_usize(point_text(part->0))
    &&& usize_value(point_text(part->0)) >= 1
}

/// The vertex index (from 0) that the face corner `p` names.
pub open spec fn point_index(p: Seq<char>) -> usize {
    (usize_value(point_text(p)) - 1) as usize
}

/// The error for a face corner `part` that names no vertex.
pub open spec fn point_error(e: FileParseError, part: Option<Seq<char>>) -> bool {
    match part {
        None => e is MissingData,
        Some(p) => if !parses_as_usize(point_text(p)) {
            e matches FileParseError::InvalidDataType(s) && s@ == point_text(p)
        } else {
            e == FileParseError::DataOutOfBounds(0)
        },
    }
}

/// What `parse_face_obj_format` answers for the face corner `part`.
pub open spec fn face_point_result(
    part: Option<Seq<char>>,
    r: Result<(usize, Option<usize>), FileParseError>,
) -> bool {
    if point_ok(part) {
        r == Ok::<(usize, Option<usize>), FileParseError>(
            (point_index(part->0), texture_of(part->0)),
        )
    } else {
        match r {
            Ok(_) => false,
            Err(e) => point_error(e, part),
        }
    }
}

/// The index of the first `/` in `cs` at or after `i`.
fn find_slash(cs: &Vec<char>, i: usize) -> (r: usize)
    requires
        i <= cs.len(),
    ensures
        r == next_slash(cs@, i as int),
        i <= r <= cs.len(),
{
    let mut k = i;
    while k < cs.len() && cs[k] != '/'
        invariant
            i <= k <= cs.len(),
            next_slash(cs@, i as int) == next_slash(cs@, k as int),
        decreases cs.len() - k,
    {
        k = k + 1;
    }
    k
}

/// The characters `cs[a..b]`.
fn sub_chars(cs: &Vec<char>, a: usize, b: usize) -> (r: Vec<char>)
    requires
        a <= b <= cs.len(),
    ensures
        r@ == cs@.subrange(a as int, b as int),
{
    let mut r: Vec<char> = Vec::new();
    let mut k = a;
    while k < b
        invariant
            a <= k <= b,
            b <= cs.len(),
            r@ == cs@.subrange(a as int, k as int),
        decreases b - k,
    {
        r.push(cs[k]);
        k = k + 1;
        assert(r@ =~= cs@.subrange(a as int, k as int));
    }
    r
}

/// One corner `v/vt/vn` of an OBJ face: the vertex index (counted from 0)
/// and the texture index, if the corner has one that is a number.
pub fn parse_face_obj_format(part: Option<&str>) -> (r: Result<(usize, Option<usize>), FileParseError>)
    ensures
        face_point_result(
            match part {
                Some(p) => Some(p@),
                None => None,
            },
            r,
        ),
{
    let p = match part {
        Some(p) => p,
        None => {
            return Err(FileParseError::MissingData);
        },
    };
    let cs = chars_of(p);
    let k1 = find_slash(&cs, 0);
    let texture = if k1 < cs.len() {
        let k2 = find_slash(&cs, k1 + 1);
        let t = sub_chars(&cs, k1 + 1, k2);
        parse_usize(&t)
    } else {
        None
    };
    let point_chars = sub_chars(&cs, 0, k1);
    assert(point_chars@ =~= point_text(p@));
    match parse_usize(&point_chars) {
        None => {
            let s = p.substring_char(0, k1);
            Err(FileParseError::InvalidDataType(String::from_str(s)))
        },
        Some(v) => {
            if v == 0 {
                Err(FileParseError::DataOutOfBounds(v))
            } else {
                Ok((v - 1, texture))
            }
        },
    }
}

/// The corners of one OBJ face line: three vertices, a fourth one for a
/// quad, and the first texture index that any corner gives.
#[derive(Clone, Copy, Debug, PartialEq, Eq, Structural)]
pub struct FaceCorners {
    pub a: usize,
    pub b: usize,
    pub c: usize,
    pub d: Option<usize>,
    pub texture: Option<usize>,
}

/// The `i`-th word of `s`, if there is one.
pub open spec fn word_at(s: Seq<char>, i: int) -> Option<Seq<char>> {
    if 0 <= i < words(s).len() {
        Some(words(s)[i])
    } else {
        None
    }
}

/// The texture index of a corner that names a vertex.
pub open spec fn corner_texture(part: Option<Seq<char>>) -> Option<usize> {
    if point_ok(part) {
        texture_of(part->0)
    } else {
        None
    }
}

/// The first of two options that is `Some`.
pub open spec fn first_some(x: Option<usize>, y: Option<usize>) -> Option<usize> {
    if x is Some {
        x
    } else {
        y
    }
}

/// What `parse_face_corners` answers for the text `s` after `f `.
pub open spec fn face_corners_result(s: Seq<char>, r: Result<FaceCorners, FileParseError>) -> bool {
    let t0 = word_at(s, 0);
    let t1 = word_at(s, 1);
    let t2 = word_at(s, 2);
    let t3 = word_at(s, 3);
    if !point_ok(t0) {
        r matches Err(e) && point_error(e, t0)
    } else if !point_ok(t1) {
        r matches Err(e) && point_error(e, t1)
    } else if !point_ok(t2) {
        r matches Err(e) && point_error(e, t2)
    } else {
        r == Ok::<FaceCorners, FileParseError>(
            FaceCorners {
                a: point_index(t0->0),
                b: point_index(t1->0),
                c: point_index(t2->0),
                d: if point_ok(t3) {
                    Some(point_index(t3->0))
                } else {
                    None
                },
                texture: first_some(
                    first_some(first_some(corner_texture(t0), corner_texture(t1)), corner_texture(t2)),
                    corner_texture(t3),
                ),
            },
        )
    }
}

/// The corner of the face text `words` at position `i`, parsed.
fn corner_at(ws: &Vec<&str>, i: usize, Ghost(s): Ghost<Seq<char>>) -> (r: Result<
    (usize, Option<usize>),
    FileParseError,
>)
    requires
        ws.len() == words(s).len(),
        forall|k: int| 0 <= k < ws.len() ==> (#[trigger] ws[k])@ == words(s)[k],
    ensures
        face_point_result(word_at(s, i as int), r),
{
    if i < ws.len() {
        parse_face_obj_format(Some(ws[i]))
    } else {
        parse_face_obj_format(None)
    }
}

/// The corners of an OBJ face, from the text after `f `: the first three
/// corners must name vertices, the fourth is kept where it does.
pub fn parse_face_corners(vertices: &str) -> (r: Result<FaceCorners, FileParseError>)
    ensures
        face_corners_result(vertices@, r),
{
    let ws = split_words(vertices);
    let ghost s = vertices@;
    let (a, ta) = match corner_at(&ws, 0, Ghost(s)) {
        Ok(x) => x,
        Err(e) => {
            return Err(e);
        },
    };
    let (b, tb) = match corner_at(&ws, 1, Ghost(s)) {
        Ok(x) => x,
        Err(e) => {
            return Err(e);
        },
    };
    let (c, tc) = match corner_at(&ws, 2, Ghost(s)) {
        Ok(x) => x,
        Err(e) => {
            return Err(e);
        },
    };
    let (d, td) = match corner_at(&ws, 3, Ghost(s)) {
        Ok((d, td)) => (Some(d), td),
        Err(_) => (None, None),
    };
    let texture = match ta {
        Some(t) => Some(t),
        None => match tb {
            Some(t) => Some(t),
            None => match tc {
                Some(t) => Some(t),
                None => td,
            },
        },
    };
    Ok(FaceCorners { a, b, c, d, texture })
}

/// The triangles of a face: `abc`, and `acd` for a quad.
pub fn triangulate(corners: &FaceCorners, color_id: usize) -> (r: Vec<Face>)
    ensures
        r.len() == if corners.d is Some {
            2nat
        } else {
            1nat
        },
        r[0] == (Face { v1: corners.a, v2: corners.b, v3: corners.c, color_id }),
        corners.d is Some ==> r[1] == (Face {
            v1: corners.a,
            v2: corners.c,
            v3: corners.d->0,
            color_id,
        }),
{
    let mut r: Vec<Face> = Vec::new();
    r.push(Face { v1: corners.a, v2: corners.b, v3: corners.c, color_id });
    if let Some(d) = corners.d {
        r.push(Face { v1: corners.a, v2: corners.c, v3: d, color_id });
    }
    r
}


/// What one line of an OBJ file holds, with the text that follows its
/// keyword.
#[derive(Debug)]
pub enum ObjLine {
    /// `f`: the corners of a face.
    Face(String),
    /// `v`: the coordinates of a vertex.
    Vertex(String),
    /// `vt`: a texture coordinate.
    TextureCoordinate(String),
    /// `mtllib`: the path of a material file, in its own case.
    MaterialLibrary(String),
    /// `usemtl`: the material of the faces that follow.
    UseMaterial(String),
    /// Anything else, which is skipped.
    Other,
}

/// `s` after its first `n` characters, or nothing where it is shorter.
pub open spec fn after(s: Seq<char>, n: int) -> Seq<char> {
    if n <= s.len() {
        s.skip(n)
    } else {
        Seq::empty()
    }
}

/// What `classify_obj_line` makes of the line `line`. The keyword is matched
/// on the trimmed line in lowercase, and so is the text after it, but for a
/// material library, whose path keeps its case.
pub open spec fn obj_line_result(line: Seq<char>, r: ObjLine) -> bool {
    let t = trimmed(line);
    let x = lowercase_of(t);
    if has_prefix(x, "f "@) {
        r matches ObjLine::Face(p) && p@ == trimmed(x.skip(2))
    } else if has_prefix(x, "v "@) {
        r matches ObjLine::Vertex(p) && p@ == trimmed(x.skip(2))
    } else if has_prefix(x, "vt "@) {
        r matches ObjLine::TextureCoordinate(p) && p@ == trimmed(x.skip(3))
    } else if has_prefix(x, "mtllib "@) {
        r matches ObjLine::MaterialLibrary(p) && p@ == trimmed(after(t, 7))
    } else if has_prefix(x, "usemtl "@) {
        r matches ObjLine::UseMaterial(p) && p@ == trimmed(x.skip(7))
    } else {
        r is Other
    }
}

/// The text of `s` after its first `n` characters, trimmed.
fn trimmed_after(s: &str, n: usize) -> (r: String)
    ensures
        r@ == trimmed(after(s@, n as int)),
{
    let len = s.unicode_len();
    if n <= len {
        let rest = s.substring_char(n, len);
        assert(rest@ =~= after(s@, n as int));
        String::from_str(trim_white(rest))
    } else {
        let rest = s.substring_char(0, 0);
        assert(rest@ =~= after(s@, n as int));
        String::from_str(trim_white(rest))
    }
}

/// What one line of an OBJ file holds.
pub fn classify_obj_line(line: &str) -> (r: ObjLine)
    ensures
        obj_line_result(line@, r),
{
    proof {
        reveal_strlit("f ");
        reveal_strlit("v ");
        reveal_strlit("vt ");
        reveal_strlit("mtllib ");
        reveal_strlit("usemtl ");
    }
    let t = trim_white(line);
    let x = lowercase(t);
    let xs = x.as_str();
    let xc = chars_of(xs);
    if starts_with_chars(&xc, "f ") {
        ObjLine::Face(trimmed_after(xs, 2))
    } else if starts_with_chars(&xc, "v ") {
        ObjLine::Vertex(trimmed_after(xs, 2))
    } else if starts_with_chars(&xc, "vt ") {
        ObjLine::TextureCoordinate(trimmed_after(xs, 3))
    } else if starts_with_chars(&xc, "mtllib ") {
        ObjLine::MaterialLibrary(trimmed_after(t, 7))
    } else if starts_with_chars(&xc, "usemtl ") {
        ObjLine::UseMaterial(trimmed_after(xs, 7))
    } else {
        ObjLine::Other
    }
}

/// What one line of a material (MTL) file holds, with the text that follows
/// its keyword.
#[derive(Debug)]
pub enum MtlLine {
    /// `newmtl`: the name of the material that the next lines describe.
    NewMaterial(String),
    /// `Kd`: the diffuse color of the current material.
    DiffuseColor(String),
    /// `map_Kd`: the path of the texture of the current material, in its own
    /// case.
    DiffuseMap(String),
    /// Anything else, which is skipped.
    Other,
}

/// What `classify_mtl_line` makes of the line `line`: the keyword is matched
/// on the line in lowercase, untrimmed.
pub open spec fn mtl_line_result(line: Seq<char>, r: MtlLine) -> bool {
    let x = lowercase_of(line);
    if has_prefix(x, "newmtl "@) {
        r matches MtlLine::NewMaterial(p) && p@ == trimmed(x.skip(7))
    } else if has_prefix(x, "kd "@) {
        r matches MtlLine::DiffuseColor(p) && p@ == trimmed(x.skip(3))
    } else if has_prefix(x, "map_kd "@) {
        r matches MtlLine::DiffuseMap(p) && p@ == trimmed(after(line, 7))
    } else {
        r is Other
    }
}

/// What one line of a material file holds.
pub fn classify_mtl_line(line: &str) -> (r: MtlLine)
    ensures
        mtl_line_result(line@, r),
{
    proof {
        reveal_strlit("newmtl ");
        reveal_strlit("kd ");
        reveal_strlit("map_kd ");
    }
    let x = lowercase(line);
    let xs = x.as_str();
    let xc = chars_of(xs);
    if starts_with_chars(&xc, "newmtl ") {
        MtlLine::NewMaterial(trimmed_after(xs, 7))
    } else if starts_with_chars(&xc, "kd ") {
        MtlLine::DiffuseColor(trimmed_after(xs, 3))
    } else if starts_with_chars(&xc, "map_kd ") {
        MtlLine::DiffuseMap(trimmed_after(line, 7))
    } else {
        MtlLine::Other
    }
}

/// The corners of the triangles of a glTF index list, counted from
/// `vertex_offset`: every three indices make one triangle, and indices left
/// over at the end make none.
pub fn triangle_corners(indices: &[u32], vertex_offset: usize) -> (r: Vec<(usize, usize, usize)>)
    requires
        forall|i: int| 0 <= i < indices@.len() ==> indices@[i] + vertex_offset <= usize::MAX,
    ensures
        r@.len() == indices@.len() / 3,
        forall|t: int|
            0 <= t < r@.len() ==> #[trigger] r@[t] == (
                (indices@[3 * t] + vertex_offset) as usize,
                (indices@[3 * t + 1] + vertex_offset) as usize,
                (indices@[3 * t + 2] + vertex_offset) as usize,
            ),
{
    let mut r: Vec<(usize, usize, usize)> = Vec::new();
    let mut k: usize = 0;
    while indices.len() - k >= 3
        invariant
            k % 3 == 0,
            k <= indices@.len(),
            r@.len() == k / 3,
            forall|i: int| 0 <= i < indices@.len() ==> indices@[i] + vertex_offset <= usize::MAX,
            forall|t: int|
                0 <= t < r@.len() ==> #[trigger] r@[t] == (
                    (indices@[3 * t] + vertex_offset) as usize,
                    (indices@[3 * t + 1] + vertex_offset) as usize,
                    (indices@[3 * t + 2] + vertex_offset) as usize,
                ),
        decreases indices@.len() - k,
    {
        let v1 = indices[k] as usize + vertex_offset;
        let v2 = indices[k + 1] as usize + vertex_offset;
        let v3 = indices[k + 2] as usize + vertex_offset;
        r.push((v1, v2, v3));
        proof {
            assert(3 * (k / 3) == k);
        }
        k = k + 3;
    }
    r
}

/// Moves the color indices of `faces` up by `offset`: the faces of a mesh
/// whose colors are appended after `offset` others.
pub fn shift_face_colors(faces: &mut Vec<Face>, offset: usize)
    requires
        forall|i: int|
            0 <= i < old(faces)@.len() ==> #[trigger] old(faces)@[i].color_id + offset <= usize::MAX,
    ensures
        final(faces)@.len() == old(faces)@.len(),
        forall|i: int|
            0 <= i < final(faces)@.len() ==> #[trigger] final(faces)@[i] == (Face {
                v1: old(faces)@[i].v1,
                v2: old(faces)@[i].v2,
                v3: old(faces)@[i].v3,
                color_id: (old(faces)@[i].color_id + offset) as usize,
            }),
{
    let ghost before = faces@;
    let mut k: usize = 0;
    while k < faces.len()
        invariant
            k <= faces@.len(),
            faces@.len() == before.len(),
            forall|i: int| 0 <= i < before.len() ==> #[trigger] before[i].color_id + offset <= usize::MAX,
            forall|i: int|
                0 <= i < k ==> #[trigger] faces@[i] == (Face {
                    v1: before[i].v1,
                    v2: before[i].v2,
                    v3: before[i].v3,
                    color_id: (before[i].color_id + offset) as usize,
                }),
            forall|i: int| k <= i < faces@.len() ==> #[trigger] faces@[i] == before[i],
        decreases faces@.len() - k,
    {
        let f = faces[k];
        assert(f == before[k as int]);
        faces.set(k, Face { v1: f.v1, v2: f.v2, v3: f.v3, color_id: f.color_id + offset });
        k = k + 1;
    }
}

} // verus!
