use vstd::prelude::*;
use vstd::utf8::{decode_utf8, encode_utf8, valid_utf8};
use crate::model::{Mesh, MeshLintError};
use crate::stl::{ErrorModel, MeshModel, law_read_mesh_is_deduplicated, mesh_from_corners, mesh_of_corners, mesh_result_view, vertex_identity};
use crate::text::{chars_of, string_from_chars};

verus! {

/// Unicode White_Space, the characters that separate words.
pub open spec fn is_white_space(c: char) -> bool {
    let u = c as u32;
    ||| 0x09 <= u <= 0x0d
    ||| u == 0x20
    ||| u == 0x85
    ||| u == 0xa0
    ||| u == 0x1680
    ||| 0x2000 <= u <= 0x200a
    ||| u == 0x2028
    ||| u == 0x2029
    ||| u == 0x202f
    ||| u == 0x205f
    ||| u == 0x3000
}

fn white_space(c: char) -> (r: bool)
    ensures
        r == is_white_space(c),
{
    let u = c as u32;
    (0x09 <= u && u <= 0x0d) || u == 0x20 || u == 0x85 || u == 0xa0 || u == 0x1680 || (0x2000 <= u
        && u <= 0x200a) || u == 0x2028 || u == 0x2029 || u == 0x202f || u == 0x205f || u == 0x3000
}

/// The lines of a text: the pieces between line feeds.
pub open spec fn text_lines(t: Seq<char>) -> Seq<Seq<char>>
    decreases t.len(),
{
    if t.len() == 0 {
        seq![Seq::empty()]
    } else {
        let ls = text_lines(t.drop_last());
        if t.last() == '\n' {
            ls.push(Seq::empty())
        } else {
            ls.update(ls.len() - 1, ls.last().push(t.last()))
        }
    }
}

/// The words of a line: its maximal runs of non-white-space characters.
pub open spec fn words(l: Seq<char>) -> Seq<Seq<char>>
    decreases l.len(),
{
    if l.len() == 0 {
        Seq::empty()
    } else {
        let w = words(l.drop_last());
        let c = l.last();
        if is_white_space(c) {
            w
        } else if l.len() >= 2 && !is_white_space(l[l.len() - 2]) {
            w.update(w.len() - 1, w.last().push(c))
        } else {
            w.push(seq![c])
        }
    }
}

/// The keyword that introduces a vertex line.
pub open spec fn vertex_word() -> Seq<char> {
    seq!['v', 'e', 'r', 't', 'e', 'x']
}

/// The coordinate words of a line that starts with `vertex`: the next three
/// words, or as many as there are.
pub open spec fn coordinate_words(w: Seq<Seq<char>>) -> Seq<Seq<char>> {
    w.subrange(1, if w.len() < 4 { w.len() as int } else { 4 })
}

/// The coordinate words of every vertex line, in order.
pub open spec fn vertex_records(ls: Seq<Seq<char>>) -> Seq<Seq<Seq<char>>>
    decreases ls.len(),
{
    if ls.len() == 0 {
        Seq::empty()
    } else {
        let r = vertex_records(ls.drop_last());
        let w = words(ls.last());
        if w.len() > 0 && w[0] == vertex_word() {
            r.push(coordinate_words(w))
        } else {
            r
        }
    }
}

/// What reading the vertex lines of ASCII STL bytes yields.
pub open spec fn ascii_vertex_lines_result(b: Seq<u8>) -> Result<Seq<Seq<Seq<char>>>, ErrorModel> {
    if !valid_utf8(b) {
        Err(ErrorModel::InvalidStl("ASCII STL is not valid UTF-8"@))
    } else {
        Ok(vertex_records(text_lines(decode_utf8(b))))
    }
}

pub open spec fn tokens_view(v: Seq<Vec<String>>) -> Seq<Seq<Seq<char>>> {
    v.map_values(|line: Vec<String>| line@.map_values(|s: String| s@))
}

/// Decodes UTF-8 text (std's `str::from_utf8`); `None` when the bytes are not UTF-8.
#[verifier::external_body]
fn utf8_text(bytes: &[u8]) -> (r: Option<&str>)
    ensures
        r is Some <==> valid_utf8(bytes@),
        r matches Some(s) ==> encode_utf8(s@) == bytes@,
{
    std::str::from_utf8(bytes).ok()
}

/// The word ranges of `t[start..j]`, extended by one character.
spec fn ranges_are_words(t: Seq<char>, start: int, j: int, r: Seq<(usize, usize)>) -> bool {
    &&& r.len() == words(t.subrange(start, j)).len()
    &&& forall|k: int|
        0 <= k < r.len() ==> start <= (#[trigger] r[k]).0 < r[k].1 <= j && t.subrange(r[k].0 as int, r[k].1 as int)
            == words(t.subrange(start, j))[k]
    &&& r.len() > 0 ==> (r.last().1 == j <==> (j > start && !is_white_space(t[j - 1])))
}

proof fn lemma_words_nonempty(l: Seq<char>)
    requires
        l.len() >= 1,
        !is_white_space(l.last()),
    ensures
        words(l).len() > 0,
    decreases l.len(),
{
    if l.len() >= 2 && !is_white_space(l[l.len() - 2]) {
        assert(l.drop_last().last() == l[l.len() - 2]);
        lemma_words_nonempty(l.drop_last());
    }
}

/// The word ranges of `t[start..end]`.
fn line_words(t: &Vec<char>, start: usize, end: usize) -> (r: Vec<(usize, usize)>)
    requires
        start <= end <= t@.len(),
    ensures
        ranges_are_words(t@, start as int, end as int, r@),
{
    let mut r: Vec<(usize, usize)> = Vec::new();
    let mut j = start;
    proof {
        assert(t@.subrange(start as int, start as int) =~= Seq::<char>::empty());
    }
    while j < end
        invariant
            start <= j <= end <= t@.len(),
            ranges_are_words(t@, start as int, j as int, r@),
        decreases end - j,
    {
        let c = t[j];
        let ghost l = t@.subrange(start as int, j + 1);
        proof {
            assert(l.drop_last() =~= t@.subrange(start as int, j as int));
            assert(l.last() == c);
        }
        if white_space(c) {
        } else if j > start && !white_space(t[j - 1]) {
            proof {
                assert(l[l.len() - 2] == t@[j - 1]);
                let p = t@.subrange(start as int, j as int);
                assert(p.last() == t@[j - 1]);
                lemma_words_nonempty(p);
            }
            let k = r.len() - 1;
            let (a, _) = r[k];
            r.set(k, (a, j + 1));
            proof {
                let w = words(t@.subrange(start as int, j as int));
                assert(t@.subrange(a as int, j + 1) =~= w.last().push(c));
            }
        } else {
            r.push((j, j + 1));
            proof {
                assert(t@.subrange(j as int, j + 1) =~= seq![c]);
            }
        }
        j = j + 1;
        proof {
            assert forall|k: int| 0 <= k < r@.len() implies start <= (#[trigger] r@[k]).0 < r@[k].1 <= j
                && t@.subrange(r@[k].0 as int, r@[k].1 as int) == words(t@.subrange(start as int, j as int))[k] by {
            }
        }
    }
    r
}

fn is_vertex_word(t: &Vec<char>, a: usize, b: usize) -> (r: bool)
    requires
        a <= b <= t@.len(),
    ensures
        r == (t@.subrange(a as int, b as int) == vertex_word()),
{
    if b - a != 6 {
        proof {
            assert(t@.subrange(a as int, b as int).len() != vertex_word().len());
        }
        return false;
    }
    let r = t[a] == 'v' && t[a + 1] == 'e' && t[a + 2] == 'r' && t[a + 3] == 't' && t[a + 4] == 'e' && t[a + 5] == 'x';
    proof {
        if r {
            assert(t@.subrange(a as int, b as int) =~= vertex_word());
        } else {
            let s = t@.subrange(a as int, b as int);
            if s == vertex_word() {
                assert(s[0] == 'v' && s[1] == 'e' && s[2] == 'r' && s[3] == 't' && s[4] == 'e' && s[5] == 'x');
            }
        }
    }
    r
}

fn string_between(t: &Vec<char>, a: usize, b: usize) -> (s: String)
    requires
        a <= b <= t@.len(),
    ensures
        s@ == t@.subrange(a as int, b as int),
{
    let mut v: Vec<char> = Vec::new();
    let mut i = a;
    while i < b
        invariant
            a <= i <= b <= t@.len(),
            v@ == t@.subrange(a as int, i as int),
        decreases b - i,
    {
        v.push(t[i]);
        proof {
            assert(v@ =~= t@.subrange(a as int, i + 1));
        }
        i = i + 1;
    }
    string_from_chars(&v)
}

/// The coordinate words of the line `t[start..end]` when it is a vertex line.
fn line_record(t: &Vec<char>, start: usize, end: usize) -> (r: Option<Vec<String>>)
    requires
        start <= end <= t@.len(),
    ensures
        ({
            let w = words(t@.subrange(start as int, end as int));
            &&& r is Some <==> (w.len() > 0 && w[0] == vertex_word())
            &&& r matches Some(v) ==> v@.map_values(|s: String| s@) == coordinate_words(w)
        }),
{
    let ranges = line_words(t, start, end);
    let ghost w = words(t@.subrange(start as int, end as int));
    if ranges.len() == 0 {
        return None;
    }
    let (a0, b0) = ranges[0];
    if !is_vertex_word(t, a0, b0) {
        return None;
    }
    let last = if ranges.len() < 4 { ranges.len() } else { 4 };
    let mut out: Vec<String> = Vec::new();
    let mut k: usize = 1;
    while k < last
        invariant
            1 <= k <= last <= ranges@.len(),
            start <= end <= t@.len(),
            last == (if ranges@.len() < 4 { ranges@.len() } else { 4 }),
            ranges_are_words(t@, start as int, end as int, ranges@),
            w == words(t@.subrange(start as int, end as int)),
            out@.map_values(|s: String| s@) == w.subrange(1, k as int),
        decreases last - k,
    {
        let (a, b) = ranges[k];
        let s = string_between(t, a, b);
        let ghost before = out@;
        out.push(s);
        proof {
            assert(ranges@[k as int] == (a, b));
            assert(s@ == w[k as int]);
            assert(out@.map_values(|s: String| s@) =~= before.map_values(|s: String| s@).push(s@));
            assert(out@.map_values(|s: String| s@) =~= w.subrange(1, k + 1));
        }
        k = k + 1;
    }
    Some(out)
}

/// Reads the coordinate words of the vertex lines of an ASCII STL: for every
/// line whose first word is `vertex`, the next three words (fewer when the
/// line has fewer). Fails when the bytes are not UTF-8.
pub fn ascii_vertex_lines(bytes: &[u8]) -> (r: Result<Vec<Vec<String>>, MeshLintError>)
    ensures
        match (r, ascii_vertex_lines_result(bytes@)) {
            (Ok(v), Ok(w)) => tokens_view(v@) == w,
            (Err(e), Err(f)) => e@ == f,
            _ => false,
        },
{
    let text = match utf8_text(bytes) {
        Some(s) => s,
        None => {
            return Err(MeshLintError::InvalidStl(String::from_str("ASCII STL is not valid UTF-8")));
        },
    };
    let t = chars_of(text);
    proof {
        vstd::utf8::encode_utf8_decode_utf8(text@);
    }
    let n = t.len();
    let mut out: Vec<Vec<String>> = Vec::new();
    let mut start: usize = 0;
    let mut i: usize = 0;
    proof {
        assert(t@.take(0) =~= Seq::<char>::empty());
        assert(text_lines(t@.take(0)).drop_last() =~= Seq::<Seq<char>>::empty());
        assert(t@.subrange(0, 0) =~= Seq::<char>::empty());
    }
    while i < n
        invariant
            n == t@.len(),
            0 <= start <= i <= n,
            text_lines(t@.take(i as int)).len() > 0,
            text_lines(t@.take(i as int)).last() == t@.subrange(start as int, i as int),
            tokens_view(out@) == vertex_records(text_lines(t@.take(i as int)).drop_last()),
        decreases n - i,
    {
        let ghost ls = text_lines(t@.take(i as int));
        proof {
            assert(t@.take(i + 1).drop_last() =~= t@.take(i as int));
            assert(t@.take(i + 1).last() == t@[i as int]);
        }
        if t[i] == '\n' {
            let rec = line_record(&t, start, i);
            let ghost before = out@;
            match rec {
                Some(v) => {
                    out.push(v);
                    proof {
                        assert(tokens_view(out@) =~= tokens_view(before).push(v@.map_values(|s: String| s@)));
                    }
                },
                None => {},
            }
            proof {
                let ls2 = text_lines(t@.take(i + 1));
                assert(ls2 == ls.push(Seq::empty()));
                assert(ls2.drop_last() =~= ls);
                assert(ls.drop_last() =~= ls.drop_last());
            }
            start = i + 1;
            proof {
                assert(t@.subrange(start as int, start as int) =~= Seq::<char>::empty());
            }
        } else {
            proof {
                let ls2 = text_lines(t@.take(i + 1));
                assert(ls2.drop_last() =~= ls.drop_last());
                assert(t@.subrange(start as int, i + 1) =~= t@.subrange(start as int, i as int).push(t@[i as int]));
            }
        }
        i = i + 1;
    }
    let rec = line_record(&t, start, n);
    let ghost before = out@;
    match rec {
        Some(v) => {
            out.push(v);
            proof {
                assert(tokens_view(out@) =~= tokens_view(before).push(v@.map_values(|s: String| s@)));
            }
        },
        None => {},
    }
    proof {
        assert(t@.take(n as int) =~= t@);
    }
    Ok(out)
}

/// One coordinate of an ASCII vertex line, as read by a decimal parser.
#[derive(Clone, Copy, Debug, PartialEq, Eq, Structural)]
pub enum Coordinate {
    /// The line has no word for this coordinate.
    Missing,
    /// The word is not a number.
    Invalid,
    /// The number, as a binary32 bit pattern.
    Value(u32),
}

pub open spec fn axis_error(c: Coordinate, axis: Seq<char>) -> Option<Seq<char>> {
    match c {
        Coordinate::Missing => Some("missing "@ + axis + " coordinate"@),
        Coordinate::Invalid => Some("invalid "@ + axis + " coordinate"@),
        Coordinate::Value(_) => None,
    }
}

/// The complaint about a vertex line: the first of x, y, z that is missing or invalid.
pub open spec fn line_error(l: [Coordinate; 3]) -> Option<Seq<char>> {
    if axis_error(l[0], "x"@) is Some {
        axis_error(l[0], "x"@)
    } else if axis_error(l[1], "y"@) is Some {
        axis_error(l[1], "y"@)
    } else {
        axis_error(l[2], "z"@)
    }
}

/// The complaint about the first vertex line that has one.
pub open spec fn first_line_error(ls: Seq<[Coordinate; 3]>) -> Option<Seq<char>>
    decreases ls.len(),
{
    if ls.len() == 0 {
        None
    } else {
        match first_line_error(ls.drop_last()) {
            Some(e) => Some(e),
            None => line_error(ls.last()),
        }
    }
}

pub open spec fn coordinate_value(c: Coordinate) -> u32 {
    match c {
        Coordinate::Value(v) => v,
        _ => 0,
    }
}

pub open spec fn line_corner(l: [Coordinate; 3]) -> [u32; 3] {
    [coordinate_value(l[0]), coordinate_value(l[1]), coordinate_value(l[2])]
}

/// What assembling the parsed vertex lines of an ASCII STL yields: the first
/// complaint, or an error when there is no complete triangle, or the mesh of
/// the corners.
pub open spec fn ascii_stl_result(ls: Seq<[Coordinate; 3]>) -> Result<MeshModel, ErrorModel> {
    match first_line_error(ls) {
        Some(e) => Err(ErrorModel::InvalidStl(e)),
        None => if ls.len() < 3 {
            Err(ErrorModel::InvalidStl("no triangles found"@))
        } else {
            Ok(mesh_of_corners(ls.map_values(|l: [Coordinate; 3]| line_corner(l))))
        },
    }
}

fn axis_complaint(c: Coordinate, axis: &str) -> (r: Option<String>)
    ensures
        option_view(r) == axis_error(c, axis@),
{
    match c {
        Coordinate::Missing => {
            let mut s = String::from_str("missing ");
            s.append(axis);
            s.append(" coordinate");
            Some(s)
        },
        Coordinate::Invalid => {
            let mut s = String::from_str("invalid ");
            s.append(axis);
            s.append(" coordinate");
            Some(s)
        },
        Coordinate::Value(_) => None,
    }
}

pub open spec fn option_view(o: Option<String>) -> Option<Seq<char>> {
    match o {
        Some(s) => Some(s@),
        None => None,
    }
}

fn line_complaint(l: [Coordinate; 3]) -> (r: Option<String>)
    ensures
        option_view(r) == line_error(l),
{
    let x = axis_complaint(l[0], "x");
    if x.is_some() {
        return x;
    }
    let y = axis_complaint(l[1], "y");
    if y.is_some() {
        return y;
    }
    axis_complaint(l[2], "z")
}

fn value_of(c: Coordinate) -> (v: u32)
    ensures
        v == coordinate_value(c),
{
    match c {
        Coordinate::Value(v) => v,
        _ => 0,
    }
}

/// Builds the mesh of an ASCII STL from its vertex lines, whose coordinates a
/// decimal parser has read: every three vertex lines form a triangle.
pub fn assemble_ascii_stl(lines: &Vec<[Coordinate; 3]>) -> (r: Result<Mesh, MeshLintError>)
    requires
        lines@.len() < u32::MAX,
    ensures
        mesh_result_view(r) == ascii_stl_result(lines@),
        r is Ok ==> r->Ok_0.well_formed(),
{
    let ghost ls = lines@;
    let n = lines.len();
    let mut corners: Vec<[u32; 3]> = Vec::new();
    let mut i: usize = 0;
    while i < n
        invariant
            ls == lines@,
            n == ls.len(),
            0 <= i <= n,
            first_line_error(ls.take(i as int)) is None,
            corners@ == ls.take(i as int).map_values(|l: [Coordinate; 3]| line_corner(l)),
        decreases n - i,
    {
        let l = lines[i];
        proof {
            assert(ls.take(i + 1).drop_last() =~= ls.take(i as int));
            assert(ls.take(i + 1).last() == l);
        }
        match line_complaint(l) {
            Some(m) => {
                proof {
                    lemma_first_error_extends(ls, i + 1);
                }
                return Err(MeshLintError::InvalidStl(m));
            },
            None => {},
        }
        let c = [value_of(l[0]), value_of(l[1]), value_of(l[2])];
        corners.push(c);
        proof {
            assert(c =~= line_corner(l));
            assert(corners@ =~= ls.take(i + 1).map_values(|l: [Coordinate; 3]| line_corner(l)));
        }
        i = i + 1;
    }
    proof {
        assert(ls.take(n as int) =~= ls);
    }
    if n < 3 {
        return Err(MeshLintError::InvalidStl(String::from_str("no triangles found")));
    }
    Ok(mesh_from_corners(&corners))
}

/// Once a prefix of the lines has a complaint, the whole sequence has the same one.
proof fn lemma_first_error_extends(ls: Seq<[Coordinate; 3]>, k: int)
    requires
        0 <= k <= ls.len(),
        first_line_error(ls.take(k)) is Some,
    ensures
        first_line_error(ls) == first_line_error(ls.take(k)),
    decreases ls.len() - k,
{
    if k < ls.len() {
        assert(ls.take(k + 1).drop_last() =~= ls.take(k));
        lemma_first_error_extends(ls, k + 1);
    } else {
        assert(ls.take(k) =~= ls);
    }
}


proof fn lemma_numbers_have_no_error(ls: Seq<[Coordinate; 3]>)
    requires
        forall|k: int, a: int| 0 <= k < ls.len() && 0 <= a < 3 ==> #[trigger] ls[k][a] is Value,
    ensures
        first_line_error(ls) is None,
    decreases ls.len(),
{
    if ls.len() > 0 {
        assert forall|k: int, a: int| 0 <= k < ls.drop_last().len() && 0 <= a < 3 implies #[trigger] ls.drop_last()[k][a] is Value by {
            assert(ls.drop_last()[k] == ls[k]);
        }
        lemma_numbers_have_no_error(ls.drop_last());
        let l = ls[ls.len() - 1];
        assert(l[0] is Value && l[1] is Value && l[2] is Value);
        assert(ls.last() == l);
    }
}

/// An ASCII STL whose vertex lines all hold three numbers reads as a mesh
/// with one face per three lines, and corner `c` of face `t` lies at the
/// point of line `3t + c`: its x, y and z, in that order (with `-0.0` counted
/// as `0.0`).
pub proof fn law_ascii_corners_keep_coordinates(ls: Seq<[Coordinate; 3]>)
    requires
        3 <= ls.len() < u32::MAX,
        forall|k: int, a: int| 0 <= k < ls.len() && 0 <= a < 3 ==> #[trigger] ls[k][a] is Value,
    ensures
        ascii_stl_result(ls) is Ok,
        ({
            let r = ascii_stl_result(ls)->Ok_0;
            &&& r.faces.len() == ls.len() / 3
            &&& forall|t: int, c: int|
                0 <= t < r.faces.len() && 0 <= c < 3 ==> (#[trigger] r.faces[t][c]) < r.vertices.len() && vertex_identity(
                    r.vertices[r.faces[t][c] as int],
                ) == vertex_identity([ls[3 * t + c][0]->Value_0, ls[3 * t + c][1]->Value_0, ls[3 * t + c][2]->Value_0])
        }),
{
    lemma_numbers_have_no_error(ls);
    let corners = ls.map_values(|l: [Coordinate; 3]| line_corner(l));
    law_read_mesh_is_deduplicated(corners);
    let r = ascii_stl_result(ls)->Ok_0;
    assert(r == mesh_of_corners(corners));
    assert forall|t: int, c: int| 0 <= t < r.faces.len() && 0 <= c < 3 implies (#[trigger] r.faces[t][c]) < r.vertices.len()
        && vertex_identity(r.vertices[r.faces[t][c] as int]) == vertex_identity(
        [ls[3 * t + c][0]->Value_0, ls[3 * t + c][1]->Value_0, ls[3 * t + c][2]->Value_0],
    ) by {
        assert(3 * t + c < ls.len()) by (nonlinear_arith)
            requires 0 <= t < ls.len() / 3, 0 <= c < 3;
        let l = ls[3 * t + c];
        assert(l[0] is Value && l[1] is Value && l[2] is Value);
        assert(corners[3 * t + c] == line_corner(l));
        assert(line_corner(l) =~= [l[0]->Value_0, l[1]->Value_0, l[2]->Value_0]);
    }
}


/// The lines joined back together, a newline between each two.
pub open spec fn joined_lines(ls: Seq<Seq<char>>) -> Seq<char>
    decreases ls.len(),
{
    if ls.len() <= 1 {
        if ls.len() == 1 { ls[0] } else { Seq::empty() }
    } else {
        joined_lines(ls.drop_last()) + seq!['\n'] + ls.last()
    }
}

proof fn lemma_joined_extend(ls: Seq<Seq<char>>, c: char)
    requires
        ls.len() >= 1,
    ensures
        joined_lines(ls.update(ls.len() - 1, ls.last().push(c))) == joined_lines(ls).push(c),
{
    let ls2 = ls.update(ls.len() - 1, ls.last().push(c));
    if ls.len() > 1 {
        assert(ls2.drop_last() =~= ls.drop_last());
        assert(ls2.last() == ls.last().push(c));
        assert(joined_lines(ls2) =~= joined_lines(ls).push(c));
    }
}

/// Splitting text into lines: no line holds a newline, and joining the lines
/// with newlines gives back the text; there is one line more than there are
/// newlines, so an empty text is one empty line.
pub proof fn law_text_lines_split_at_newlines(t: Seq<char>)
    ensures
        text_lines(t).len() >= 1,
        forall|i: int, j: int| 0 <= i < text_lines(t).len() && 0 <= j < text_lines(t)[i].len() ==> #[trigger] text_lines(t)[i][j] != '\n',
        joined_lines(text_lines(t)) == t,
    decreases t.len(),
{
    if t.len() == 0 {
        assert(joined_lines(seq![Seq::<char>::empty()]) == Seq::<char>::empty());
    } else {
        let pre = t.drop_last();
        law_text_lines_split_at_newlines(pre);
        let ls = text_lines(pre);
        let c = t.last();
        if c == '\n' {
            let ls2 = ls.push(Seq::<char>::empty());
            assert(ls2.drop_last() =~= ls);
            assert(joined_lines(ls2) =~= pre + seq!['\n'] + Seq::<char>::empty());
            assert(pre + seq!['\n'] + Seq::<char>::empty() =~= t);
            assert forall|i: int, j: int| 0 <= i < ls2.len() && 0 <= j < ls2[i].len() implies #[trigger] ls2[i][j] != '\n' by {
                assert(ls2[i] == ls[i]);
            }
        } else {
            lemma_joined_extend(ls, c);
            assert(pre.push(c) =~= t);
            let ls2 = ls.update(ls.len() - 1, ls.last().push(c));
            assert forall|i: int, j: int| 0 <= i < ls2.len() && 0 <= j < ls2[i].len() implies #[trigger] ls2[i][j] != '\n' by {
                if i == ls.len() - 1 {
                    if j < ls.last().len() {
                        assert(ls2[i][j] == ls[i][j]);
                    }
                } else {
                    assert(ls2[i] == ls[i]);
                }
            }
        }
    }
}

/// The words joined back together without separators.
pub open spec fn concat_words(ws: Seq<Seq<char>>) -> Seq<char>
    decreases ws.len(),
{
    if ws.len() == 0 {
        Seq::empty()
    } else {
        concat_words(ws.drop_last()) + ws.last()
    }
}

/// The positions at which a word starts: a character that is not white
/// space, first on the line or after white space.
pub open spec fn word_starts(l: Seq<char>) -> nat
    decreases l.len(),
{
    if l.len() == 0 {
        0
    } else {
        word_starts(l.drop_last()) + if !is_white_space(l.last()) && (l.len() == 1 || is_white_space(l[l.len() - 2])) {
            1nat
        } else {
            0nat
        }
    }
}

proof fn lemma_concat_extend(ws: Seq<Seq<char>>, c: char)
    requires
        ws.len() >= 1,
    ensures
        concat_words(ws.update(ws.len() - 1, ws.last().push(c))) == concat_words(ws).push(c),
{
    let ws2 = ws.update(ws.len() - 1, ws.last().push(c));
    assert(ws2.drop_last() =~= ws.drop_last());
    assert(concat_words(ws2) =~= concat_words(ws).push(c));
}

/// Splitting a line into words: every word is a non-empty run of characters
/// that are not white space; together, in order, the words hold exactly the
/// line's characters that are not white space; and there is one word for
/// every place where such a run starts.
pub proof fn law_words_split_at_white_space(l: Seq<char>)
    ensures
        forall|i: int| 0 <= i < words(l).len() ==> (#[trigger] words(l)[i]).len() > 0,
        forall|i: int, j: int| 0 <= i < words(l).len() && 0 <= j < words(l)[i].len() ==> !is_white_space(#[trigger] words(l)[i][j]),
        concat_words(words(l)) == l.filter(|c: char| !is_white_space(c)),
        words(l).len() == word_starts(l),
        l.len() > 0 && !is_white_space(l.last()) ==> words(l).len() > 0,
    decreases l.len(),
{
    reveal(Seq::filter);
    if l.len() > 0 {
        let pre = l.drop_last();
        law_words_split_at_white_space(pre);
        let w = words(pre);
        let c = l.last();
        if is_white_space(c) {
        } else if l.len() >= 2 && !is_white_space(l[l.len() - 2]) {
            assert(pre.last() == l[l.len() - 2]);
            lemma_concat_extend(w, c);
            let w2 = w.update(w.len() - 1, w.last().push(c));
            assert forall|i: int| 0 <= i < w2.len() implies (#[trigger] w2[i]).len() > 0 by {
                if i != w.len() - 1 {
                    assert(w2[i] == w[i]);
                }
            }
            assert forall|i: int, j: int| 0 <= i < w2.len() && 0 <= j < w2[i].len() implies !is_white_space(#[trigger] w2[i][j]) by {
                if i == w.len() - 1 {
                    if j < w.last().len() {
                        assert(w2[i][j] == w[i][j]);
                    }
                } else {
                    assert(w2[i] == w[i]);
                }
            }
        } else {
            let w2 = w.push(seq![c]);
            assert(w2.drop_last() =~= w);
            assert(concat_words(w2) =~= concat_words(w) + seq![c]);
            assert(concat_words(w) + seq![c] =~= concat_words(w).push(c));
            assert forall|i: int| 0 <= i < w2.len() implies (#[trigger] w2[i]).len() > 0 by {
                if i < w.len() {
                    assert(w2[i] == w[i]);
                }
            }
            assert forall|i: int, j: int| 0 <= i < w2.len() && 0 <= j < w2[i].len() implies !is_white_space(#[trigger] w2[i][j]) by {
                if i < w.len() {
                    assert(w2[i] == w[i]);
                }
            }
        }
    }
}


/// Line `q` is a vertex line: its first word is `vertex`.
pub open spec fn is_vertex_line(ls: Seq<Seq<char>>, q: int) -> bool {
    words(ls[q]).len() > 0 && words(ls[q])[0] == seq!['v', 'e', 'r', 't', 'e', 'x']
}

/// `records` are taken from the lines numbered `src`, which are exactly the
/// vertex lines in increasing order: record `x` holds the second to fourth
/// words of line `src[x]` (as many of them as there are).
pub open spec fn records_of_lines(ls: Seq<Seq<char>>, records: Seq<Seq<Seq<char>>>, src: Seq<int>) -> bool {
    &&& src.len() == records.len()
    &&& forall|x: int| 0 <= x < src.len() ==> 0 <= #[trigger] src[x] < ls.len() && is_vertex_line(ls, src[x])
    &&& forall|x: int| 0 <= x < src.len() ==> #[trigger] records[x] == words(ls[src[x]]).subrange(
        1,
        if words(ls[src[x]]).len() < 4 { words(ls[src[x]]).len() as int } else { 4 },
    )
    &&& forall|x: int, y: int| 0 <= x < y < src.len() ==> #[trigger] src[x] < #[trigger] src[y]
    &&& forall|q: int| 0 <= q < ls.len() && #[trigger] is_vertex_line(ls, q) ==> exists|x: int| 0 <= x < src.len() && src[x] == q
}

proof fn lemma_vertex_records_select(ls: Seq<Seq<char>>)
    ensures
        vertex_records(ls) == crate::checks::select(
            ls,
            |l: Seq<char>| if words(l).len() > 0 && words(l)[0] == vertex_word() { Some(coordinate_words(words(l))) } else { None },
        ),
    decreases ls.len(),
{
    if ls.len() > 0 {
        lemma_vertex_records_select(ls.drop_last());
    }
}

/// The vertex records of ASCII STL text lines, in line order, one per line
/// whose first word is `vertex`, each holding that line's next (up to) three
/// words.
pub proof fn law_vertex_records_follow_lines(ls: Seq<Seq<char>>)
    ensures
        exists|src: Seq<int>| #[trigger] records_of_lines(ls, vertex_records(ls), src),
{
    let g = |l: Seq<char>| if words(l).len() > 0 && words(l)[0] == vertex_word() { Some(coordinate_words(words(l))) } else { None };
    lemma_vertex_records_select(ls);
    let src = crate::quality::lemma_select_positions(ls, g);
    let r = vertex_records(ls);
    assert(vertex_word() =~= seq!['v', 'e', 'r', 't', 'e', 'x']);
    assert forall|x: int| 0 <= x < src.len() implies 0 <= #[trigger] src[x] < ls.len() && is_vertex_line(ls, src[x]) by {
        assert(g(ls[src[x]]) is Some);
    }
    assert forall|x: int| 0 <= x < src.len() implies #[trigger] r[x] == words(ls[src[x]]).subrange(
        1,
        if words(ls[src[x]]).len() < 4 { words(ls[src[x]]).len() as int } else { 4 },
    ) by {
        assert(r[x] == g(ls[src[x]])->0);
    }
    assert forall|q: int| 0 <= q < ls.len() && #[trigger] is_vertex_line(ls, q) implies exists|x: int| 0 <= x < src.len() && src[x] == q by {
        assert(g(ls[q]) is Some);
    }
    assert(records_of_lines(ls, r, src));
}

} // verus!
