//! Reading a mesh file.
//!
//! The text is read line by line. A line is cut into words at every space;
//! empty words, and words that hold a white-space character, are left out. The
//! first word says what the line is: `v` a vertex and `vn` a normal, each with
//! three numbers; `f` a face, with one word for each corner. A corner is the
//! number of a vertex, alone or followed by two more parts behind slashes, of
//! which the last is the number of a normal. Every other line is passed over.
//!
//! The numbers of a vertex or a normal are not read here: a mesh holds the
//! places in the text where they are written.

use crate::mesh::{
    fan, fan_prefix, fan_triangulation, index_of_text, lemma_fan_shape, parse_index, Corner,
    Corners, MeshFault, MeshTriangle, Span, Triple,
};
use vstd::prelude::*;

verus! {

/// A mesh: vertices and normals in the order of the file, and triangles that
/// name them by their numbers, the first of each being number 1.
#[derive(Debug)]
pub struct Mesh {
    pub vertices: Vec<Triple>,
    pub normals: Vec<Triple>,
    pub triangles: Vec<MeshTriangle>,
}

/// What a mesh holds.
pub struct MeshView {
    pub vertices: Seq<Triple>,
    pub normals: Seq<Triple>,
    pub triangles: Seq<MeshTriangle>,
}

impl View for Mesh {
    type V = MeshView;

    open spec fn view(&self) -> MeshView {
        MeshView {
            vertices: self.vertices@,
            normals: self.normals@,
            triangles: self.triangles@,
        }
    }
}

/// A fault in a mesh file and the line that has it; the first line is line 0.
#[derive(Clone, Copy, Debug, PartialEq, Eq, Structural)]
pub struct ObjError {
    pub line: usize,
    pub fault: MeshFault,
}

/// The first place from `from` on, and before `end`, that holds the byte
/// `mark`; `end` if there is none.
pub open spec fn stop_at(t: Seq<u8>, mark: u8, from: int, end: int) -> int
    decreases end - from,
{
    if from >= end || t[from] == mark {
        from
    } else {
        stop_at(t, mark, from + 1, end)
    }
}

/// Where a search stops: at the first mark, or at the end.
pub proof fn lemma_stop_at(t: Seq<u8>, mark: u8, from: int, end: int)
    requires
        from <= end,
    ensures
        from <= stop_at(t, mark, from, end) <= end,
        stop_at(t, mark, from, end) < end ==> t[stop_at(t, mark, from, end)] == mark,
        forall|i: int| from <= i < stop_at(t, mark, from, end) ==> t[i] != mark,
    decreases end - from,
{
    if from < end && t[from] != mark {
        lemma_stop_at(t, mark, from + 1, end);
    }
}

/// A white-space character starts at place `i` and ends before `end`: a tab, a
/// line feed, a vertical tab, a form feed, a carriage return, a space, or one
/// of the white-space characters beyond ASCII in its UTF-8 form.
pub open spec fn is_white_at(t: Seq<u8>, i: int, end: int) -> bool {
    ||| 9 <= t[i] <= 13
    ||| t[i] == 32
    ||| t[i] == 0xC2 && i + 1 < end && (t[i + 1] == 0x85 || t[i + 1] == 0xA0)
    ||| t[i] == 0xE1 && i + 2 < end && t[i + 1] == 0x9A && t[i + 2] == 0x80
    ||| t[i] == 0xE2 && i + 2 < end && t[i + 1] == 0x80 && (0x80 <= t[i + 2] <= 0x8A || t[i + 2]
        == 0xA8 || t[i + 2] == 0xA9 || t[i + 2] == 0xAF)
    ||| t[i] == 0xE2 && i + 2 < end && t[i + 1] == 0x81 && t[i + 2] == 0x9F
    ||| t[i] == 0xE3 && i + 2 < end && t[i + 1] == 0x80 && t[i + 2] == 0x80
}

/// The bytes `start..end` hold a white-space character.
pub open spec fn holds_white(t: Seq<u8>, start: int, end: int) -> bool {
    exists|i: int| start <= i < end && is_white_at(t, i, end)
}

/// The end of what the line from `from` to the line feed, or the end of the
/// text, at `stop` says: a carriage return before a line feed is no part of it.
pub open spec fn content_end(t: Seq<u8>, from: int, stop: int) -> int {
    if stop < t.len() && from < stop && t[stop - 1] == 13 {
        stop - 1
    } else {
        stop
    }
}

/// The words of the bytes `from..end`, in their order.
pub open spec fn words_from(t: Seq<u8>, from: int, end: int) -> Seq<Span>
    decreases end + 1 - from,
{
    if from > end {
        Seq::empty()
    } else {
        let stop = stop_at(t, 32, from, end);
        let here = if from < stop && !holds_white(t, from, stop) {
            seq![Span { start: from as usize, end: stop as usize }]
        } else {
            Seq::empty()
        };
        proof {
            lemma_stop_at(t, 32, from, end);
        }
        here + words_from(t, stop + 1, end)
    }
}

/// The bytes of a word.
pub open spec fn word(t: Seq<u8>, s: Span) -> Seq<u8> {
    t.subrange(s.start as int, s.end as int)
}

/// The corner that the word `s` names.
pub open spec fn corner_of(t: Seq<u8>, s: Span) -> Result<Corner, MeshFault> {
    let first = stop_at(t, 47, s.start as int, s.end as int);
    match index_of_text(t.subrange(s.start as int, first)) {
        None => Err(MeshFault::BadIndex),
        Some(vertex) => if first == s.end {
            Ok(Corner { vertex, normal: None })
        } else {
            let second = stop_at(t, 47, first + 1, s.end as int);
            if second == s.end {
                Err(MeshFault::MalformedCorner)
            } else {
                let third = stop_at(t, 47, second + 1, s.end as int);
                Ok(Corner { vertex, normal: index_of_text(t.subrange(second + 1, third)) })
            }
        },
    }
}

/// The corners that the words at places 1 to `n` name, or the fault of the
/// first of them that names none.
pub open spec fn corners_prefix(t: Seq<u8>, words: Seq<Span>, n: int) -> Result<
    Seq<Corner>,
    MeshFault,
>
    decreases n,
{
    if n <= 0 {
        Ok(Seq::empty())
    } else {
        match corners_prefix(t, words, n - 1) {
            Err(e) => Err(e),
            Ok(done) => match corner_of(t, words[n]) {
                Err(e) => Err(e),
                Ok(c) => Ok(done.push(c)),
            },
        }
    }
}

/// The fault of an early corner is the fault of the face.
pub proof fn lemma_corner_fault_stays(t: Seq<u8>, words: Seq<Span>, n: int, m: int)
    requires
        n <= m,
        corners_prefix(t, words, n) is Err,
    ensures
        corners_prefix(t, words, m) == corners_prefix(t, words, n),
    decreases m - n,
{
    if n < m {
        lemma_corner_fault_stays(t, words, n, m - 1);
    }
}

/// The mesh after a line with the words `words`.
pub open spec fn after_line(t: Seq<u8>, words: Seq<Span>, mesh: MeshView) -> Result<
    MeshView,
    MeshFault,
> {
    if words.len() == 0 {
        Ok(mesh)
    } else if word(t, words[0]) == seq![118u8] {
        if words.len() < 4 {
            Err(MeshFault::MissingCoordinate)
        } else {
            Ok(
                MeshView {
                    vertices: mesh.vertices.push(Triple { x: words[1], y: words[2], z: words[3] }),
                    normals: mesh.normals,
                    triangles: mesh.triangles,
                },
            )
        }
    } else if word(t, words[0]) == seq![118u8, 110u8] {
        if words.len() < 4 {
            Err(MeshFault::MissingCoordinate)
        } else {
            Ok(
                MeshView {
                    vertices: mesh.vertices,
                    normals: mesh.normals.push(Triple { x: words[1], y: words[2], z: words[3] }),
                    triangles: mesh.triangles,
                },
            )
        }
    } else if word(t, words[0]) == seq![102u8] {
        match corners_prefix(t, words, words.len() - 1) {
            Err(e) => Err(e),
            Ok(corners) => match fan(corners, mesh.vertices.len(), mesh.normals.len()) {
                Err(e) => Err(e),
                Ok(ts) => Ok(
                    MeshView {
                        vertices: mesh.vertices,
                        normals: mesh.normals,
                        triangles: mesh.triangles + ts,
                    },
                ),
            },
        }
    } else {
        Ok(mesh)
    }
}

/// The mesh after the lines from place `from` on, of which the first is line
/// `line`, or the first fault in them.
pub open spec fn parse_from(t: Seq<u8>, from: int, line: nat, mesh: MeshView) -> Result<
    MeshView,
    ObjError,
>
    decreases t.len() + 1 - from,
    via parse_from_ends
{
    if from >= t.len() {
        Ok(mesh)
    } else {
        let stop = stop_at(t, 10, from, t.len() as int);
        let words = words_from(t, from, content_end(t, from, stop));
        match after_line(t, words, mesh) {
            Err(fault) => Err(ObjError { line: line as usize, fault }),
            Ok(next) => parse_from(t, stop + 1, line + 1, next),
        }
    }
}

#[via_fn]
proof fn parse_from_ends(t: Seq<u8>, from: int, line: nat, mesh: MeshView) {
    if from < t.len() {
        lemma_stop_at(t, 10, from, t.len() as int);
    }
}

/// The mesh that the text `t` describes, or its first fault.
pub open spec fn parse(t: Seq<u8>) -> Result<MeshView, ObjError> {
    parse_from(
        t,
        0,
        0,
        MeshView { vertices: Seq::empty(), normals: Seq::empty(), triangles: Seq::empty() },
    )
}

/// The three numbers of `t` are written within a text of `len` bytes.
pub open spec fn triple_within(t: Triple, len: int) -> bool {
    &&& t.x.start <= t.x.end <= len
    &&& t.y.start <= t.y.end <= len
    &&& t.z.start <= t.z.end <= len
}

/// The three numbers of `c` are those of things of which there are `count`.
pub open spec fn corners_within(c: Corners, count: int) -> bool {
    1 <= c.a <= count && 1 <= c.b <= count && 1 <= c.c <= count
}

/// The mesh hangs together: its numbers are written within a text of `len`
/// bytes, and its triangles name vertices and normals that it has.
pub open spec fn is_sound(mesh: MeshView, len: int) -> bool {
    &&& forall|i: int| 0 <= i < mesh.vertices.len() ==> triple_within(#[trigger] mesh.vertices[i], len)
    &&& forall|i: int| 0 <= i < mesh.normals.len() ==> triple_within(#[trigger] mesh.normals[i], len)
    &&& forall|i: int|
        0 <= i < mesh.triangles.len() ==> {
            &&& corners_within((#[trigger] mesh.triangles[i]).vertices, mesh.vertices.len() as int)
            &&& mesh.triangles[i].normals matches Some(ns) ==> corners_within(
                ns,
                mesh.normals.len() as int,
            )
        }
}

/// The words of a piece of text lie within that piece.
pub proof fn lemma_words_within(t: Seq<u8>, from: int, end: int)
    requires
        0 <= from,
        from <= end + 1,
        end <= usize::MAX,
    ensures
        words_within(words_from(t, from, end), from, end),
    decreases end + 1 - from,
{
    if from <= end {
        let stop = stop_at(t, 32, from, end);
        lemma_stop_at(t, 32, from, end);
        lemma_words_within(t, stop + 1, end);
        let rest = words_from(t, stop + 1, end);
        let all = words_from(t, from, end);
        assert forall|k: int| 0 <= k < all.len() implies from <= (#[trigger] all[k]).start
            <= all[k].end <= end by {
            if from < stop && !holds_white(t, from, stop) {
                if k > 0 {
                    assert(all[k] == rest[k - 1]);
                }
            } else {
                assert(all[k] == rest[k]);
            }
        }
    }
}

/// A line leaves a mesh that hangs together as one.
pub proof fn lemma_line_keeps_sound(t: Seq<u8>, words: Seq<Span>, mesh: MeshView)
    requires
        is_sound(mesh, t.len() as int),
        words_within(words, 0, t.len() as int),
        after_line(t, words, mesh) is Ok,
    ensures
        is_sound(after_line(t, words, mesh)->Ok_0, t.len() as int),
{
    let next = after_line(t, words, mesh)->Ok_0;
    if words.len() > 0 && word(t, words[0]) != seq![118u8] && word(t, words[0]) != seq![
        118u8,
        110u8,
    ] && word(t, words[0]) == seq![102u8] {
        let corners = corners_prefix(t, words, words.len() - 1)->Ok_0;
        let nv = mesh.vertices.len();
        let nn = mesh.normals.len();
        let ts = fan(corners, nv, nn)->Ok_0;
        assert(ts == fan_prefix(corners, corners.len() - 2, nv, nn)->Ok_0);
        lemma_fan_shape(corners, corners.len() - 2, nv, nn);
        assert forall|i: int| 0 <= i < next.triangles.len() implies {
            &&& corners_within((#[trigger] next.triangles[i]).vertices, next.vertices.len() as int)
            &&& next.triangles[i].normals matches Some(ns) ==> corners_within(
                ns,
                next.normals.len() as int,
            )
        } by {
            if i < mesh.triangles.len() {
                assert(next.triangles[i] == mesh.triangles[i]);
            } else {
                assert(next.triangles[i] == ts[i - mesh.triangles.len()]);
            }
        }
    } else if words.len() > 0 {
        assert forall|i: int| 0 <= i < next.triangles.len() implies {
            &&& corners_within((#[trigger] next.triangles[i]).vertices, next.vertices.len() as int)
            &&& next.triangles[i].normals matches Some(ns) ==> corners_within(
                ns,
                next.normals.len() as int,
            )
        } by {
            assert(next.triangles[i] == mesh.triangles[i]);
        }
        assert forall|i: int| 0 <= i < next.vertices.len() implies triple_within(
            #[trigger] next.vertices[i],
            t.len() as int,
        ) by {
            if i < mesh.vertices.len() {
                assert(next.vertices[i] == mesh.vertices[i]);
            }
        }
        assert forall|i: int| 0 <= i < next.normals.len() implies triple_within(
            #[trigger] next.normals[i],
            t.len() as int,
        ) by {
            if i < mesh.normals.len() {
                assert(next.normals[i] == mesh.normals[i]);
            }
        }
    }
}

/// What is read from a text hangs together.
pub proof fn lemma_parse_from_is_sound(t: Seq<u8>, from: int, line: nat, mesh: MeshView)
    requires
        0 <= from,
        t.len() <= usize::MAX,
        is_sound(mesh, t.len() as int),
        parse_from(t, from, line, mesh) is Ok,
    ensures
        is_sound(parse_from(t, from, line, mesh)->Ok_0, t.len() as int),
    decreases t.len() + 1 - from,
{
    if from < t.len() {
        let stop = stop_at(t, 10, from, t.len() as int);
        lemma_stop_at(t, 10, from, t.len() as int);
        let end = content_end(t, from, stop);
        let words = words_from(t, from, end);
        lemma_words_within(t, from, end);
        assert(words_within(words, 0, t.len() as int));
        lemma_line_keeps_sound(t, words, mesh);
        lemma_parse_from_is_sound(t, stop + 1, line + 1, after_line(t, words, mesh)->Ok_0);
    }
}

/// Every mesh that a text describes hangs together: a caller may look up
/// every number of a triangle among the vertices and normals of the mesh, and
/// every number of those in the text.
pub proof fn lemma_parse_is_sound(t: Seq<u8>)
    requires
        t.len() <= usize::MAX,
        parse(t) is Ok,
    ensures
        is_sound(parse(t)->Ok_0, t.len() as int),
{
    lemma_parse_from_is_sound(
        t,
        0,
        0,
        MeshView { vertices: Seq::empty(), normals: Seq::empty(), triangles: Seq::empty() },
    );
}

/// Finds the first `mark` from `from` on, and before `end`.
fn scan(text: &[u8], mark: u8, from: usize, end: usize) -> (r: usize)
    requires
        from <= end <= text@.len(),
    ensures
        r == stop_at(text@, mark, from as int, end as int),
        from <= r <= end,
{
    let mut i = from;
    while i < end && text[i] != mark
        invariant
            from <= i <= end <= text@.len(),
            stop_at(text@, mark, from as int, end as int) == stop_at(
                text@,
                mark,
                i as int,
                end as int,
            ),
        decreases end - i,
    {
        i += 1;
    }
    i
}

/// Whether a white-space character starts at place `i`.
fn white_at(text: &[u8], i: usize, end: usize) -> (r: bool)
    requires
        i < end <= text@.len(),
    ensures
        r == is_white_at(text@, i as int, end as int),
{
    let b = text[i];
    if (9 <= b && b <= 13) || b == 32 {
        return true;
    }
    if b == 0xC2 {
        return end - i > 1 && (text[i + 1] == 0x85 || text[i + 1] == 0xA0);
    }
    if end - i <= 2 {
        return false;
    }
    let c = text[i + 1];
    let d = text[i + 2];
    if b == 0xE1 {
        c == 0x9A && d == 0x80
    } else if b == 0xE2 {
        (c == 0x80 && ((0x80 <= d && d <= 0x8A) || d == 0xA8 || d == 0xA9 || d == 0xAF)) || (c
            == 0x81 && d == 0x9F)
    } else if b == 0xE3 {
        c == 0x80 && d == 0x80
    } else {
        false
    }
}

/// Whether the bytes `start..end` hold a white-space character.
fn has_white(text: &[u8], start: usize, end: usize) -> (r: bool)
    requires
        start <= end <= text@.len(),
    ensures
        r == holds_white(text@, start as int, end as int),
{
    let mut i = start;
    while i < end
        invariant
            start <= i <= end <= text@.len(),
            forall|j: int| start <= j < i ==> !is_white_at(text@, j, end as int),
        decreases end - i,
    {
        if white_at(text, i, end) {
            return true;
        }
        i += 1;
    }
    false
}

/// Every word of `words` lies in the bytes `from..end`.
pub open spec fn words_within(words: Seq<Span>, from: int, end: int) -> bool {
    forall|k: int| 0 <= k < words.len() ==> from <= (#[trigger] words[k]).start <= words[k].end <= end
}

/// Cuts the bytes `from..end` into words.
fn split_words(text: &[u8], from: usize, end: usize) -> (words: Vec<Span>)
    requires
        from <= end <= text@.len(),
    ensures
        words@ == words_from(text@, from as int, end as int),
        words_within(words@, from as int, end as int),
{
    let mut words: Vec<Span> = Vec::new();
    let mut i = from;
    loop
        invariant_except_break
            words@ + words_from(text@, i as int, end as int) == words_from(
                text@,
                from as int,
                end as int,
            ),
        invariant
            from <= i <= end <= text@.len(),
            words_within(words@, from as int, end as int),
        ensures
            words@ == words_from(text@, from as int, end as int),
            words_within(words@, from as int, end as int),
        decreases end - i,
    {
        let stop = scan(text, 32, i, end);
        let ghost before = words@;
        let ghost rest = words_from(text@, stop + 1, end as int);
        if i < stop && !has_white(text, i, stop) {
            words.push(Span { start: i, end: stop });
        }
        proof {
            let here = words@.subrange(before.len() as int, words@.len() as int);
            if words@.len() > before.len() {
                assert(here =~= seq![Span { start: i, end: stop }]);
            } else {
                assert(here =~= Seq::<Span>::empty());
            }
            assert(words_from(text@, i as int, end as int) == here + rest);
            assert(words@ =~= before + here);
            assert(words@ + rest =~= before + words_from(text@, i as int, end as int));
        }
        if stop == end {
            proof {
                assert(rest =~= Seq::<Span>::empty());
                assert(words@ + rest =~= words@);
            }
            break ;
        }
        i = stop + 1;
    }
    words
}

/// Reads the corner that the word `s` names.
fn read_corner(text: &[u8], s: Span) -> (r: Result<Corner, MeshFault>)
    requires
        s.start <= s.end <= text@.len(),
    ensures
        r == corner_of(text@, s),
{
    let first = scan(text, 47, s.start, s.end);
    let vertex = match parse_index(text, s.start, first) {
        None => {
            return Err(MeshFault::BadIndex);
        },
        Some(v) => v,
    };
    if first == s.end {
        return Ok(Corner { vertex, normal: None });
    }
    let second = scan(text, 47, first + 1, s.end);
    if second == s.end {
        return Err(MeshFault::MalformedCorner);
    }
    let third = scan(text, 47, second + 1, s.end);
    Ok(Corner { vertex, normal: parse_index(text, second + 1, third) })
}

/// Whether the word `s` is the single byte `a`.
fn is_word1(text: &[u8], s: Span, a: u8) -> (r: bool)
    requires
        s.start <= s.end <= text@.len(),
    ensures
        r == (word(text@, s) == seq![a]),
{
    let r = s.end - s.start == 1 && text[s.start] == a;
    proof {
        assert(word(text@, s).len() == s.end - s.start);
        assert(seq![a].len() == 1);
        assert(seq![a][0] == a);
        if r {
            assert(word(text@, s) =~= seq![a]);
        } else if s.end - s.start == 1 {
            assert(word(text@, s)[0] == text@[s.start as int]);
        }
    }
    r
}

/// Whether the word `s` is the two bytes `a`, `b`.
fn is_word2(text: &[u8], s: Span, a: u8, b: u8) -> (r: bool)
    requires
        s.start <= s.end <= text@.len(),
    ensures
        r == (word(text@, s) == seq![a, b]),
{
    let r = s.end - s.start == 2 && text[s.start] == a && text[s.start + 1] == b;
    proof {
        assert(word(text@, s).len() == s.end - s.start);
        assert(seq![a, b].len() == 2);
        assert(seq![a, b][0] == a && seq![a, b][1] == b);
        if r {
            assert(word(text@, s) =~= seq![a, b]);
        } else if s.end - s.start == 2 {
            assert(word(text@, s)[0] == text@[s.start as int]);
            assert(word(text@, s)[1] == text@[s.start + 1]);
        }
    }
    r
}

/// Reads the corners of a face: the words behind the first.
#[verifier::loop_isolation(false)]
fn read_corners(text: &[u8], words: &Vec<Span>) -> (r: Result<Vec<Corner>, MeshFault>)
    requires
        words@.len() >= 1,
        words_within(words@, 0, text@.len() as int),
    ensures
        r matches Ok(cs) ==> corners_prefix(text@, words@, words@.len() - 1) == Ok::<
            Seq<Corner>,
            MeshFault,
        >(cs@),
        r matches Err(e) ==> corners_prefix(text@, words@, words@.len() - 1) == Err::<
            Seq<Corner>,
            MeshFault,
        >(e),
{
    let mut corners: Vec<Corner> = Vec::new();
    let mut k: usize = 1;
    while k < words.len()
        invariant
            1 <= k <= words.len(),
            corners_prefix(text@, words@, k - 1) == Ok::<Seq<Corner>, MeshFault>(corners@),
        decreases words.len() - k,
    {
        match read_corner(text, words[k]) {
            Ok(c) => {
                corners.push(c);
            },
            Err(e) => {
                proof {
                    lemma_corner_fault_stays(text@, words@, k as int, words@.len() - 1);
                }
                return Err(e);
            },
        }
        k += 1;
    }
    Ok(corners)
}

/// Takes one line, with the words `words`, into the mesh.
#[verifier::loop_isolation(false)]
fn read_line(text: &[u8], words: &Vec<Span>, mesh: &mut Mesh) -> (r: Result<(), MeshFault>)
    requires
        words_within(words@, 0, text@.len() as int),
    ensures
        r is Ok ==> after_line(text@, words@, old(mesh)@) == Ok::<MeshView, MeshFault>(
            final(mesh)@,
        ),
        r matches Err(e) ==> after_line(text@, words@, old(mesh)@) == Err::<MeshView, MeshFault>(e),
{
    if words.len() == 0 {
        return Ok(());
    }
    let head = words[0];
    if is_word1(text, head, 118) {
        if words.len() < 4 {
            return Err(MeshFault::MissingCoordinate);
        }
        mesh.vertices.push(Triple { x: words[1], y: words[2], z: words[3] });
        Ok(())
    } else if is_word2(text, head, 118, 110) {
        if words.len() < 4 {
            return Err(MeshFault::MissingCoordinate);
        }
        mesh.normals.push(Triple { x: words[1], y: words[2], z: words[3] });
        Ok(())
    } else if is_word1(text, head, 102) {
        let corners = read_corners(text, words)?;
        let triangles = fan_triangulation(
            corners.as_slice(),
            mesh.vertices.len(),
            mesh.normals.len(),
        )?;
        let mut i: usize = 0;
        while i < triangles.len()
            invariant
                0 <= i <= triangles.len(),
                mesh.vertices == old(mesh).vertices,
                mesh.normals == old(mesh).normals,
                mesh.triangles@ == old(mesh).triangles@ + triangles@.take(i as int),
            decreases triangles.len() - i,
        {
            mesh.triangles.push(triangles[i]);
            proof {
                assert(triangles@.take(i + 1) =~= triangles@.take(i as int).push(triangles@[i as int]));
            }
            i += 1;
        }
        proof {
            assert(triangles@.take(i as int) =~= triangles@);
        }
        Ok(())
    } else {
        Ok(())
    }
}

/// Reads a mesh file: the vertices, the normals and the triangles that the
/// text describes, or the first fault in it.
pub fn parse_obj_file(text: &[u8]) -> (r: Result<Mesh, ObjError>)
    ensures
        r matches Ok(mesh) ==> parse(text@) == Ok::<MeshView, ObjError>(mesh@),
        r matches Ok(mesh) ==> is_sound(mesh@, text@.len() as int),
        r matches Err(e) ==> parse(text@) == Err::<MeshView, ObjError>(e),
{
    let total = text.len();
    let mut mesh = Mesh { vertices: Vec::new(), normals: Vec::new(), triangles: Vec::new() };
    let mut from: usize = 0;
    let mut line: usize = 0;
    while from < text.len()
        invariant
            line <= from,
            total == text@.len(),
            parse(text@) == parse_from(text@, from as int, line as nat, mesh@),
        decreases text@.len() - from,
    {
        let stop = scan(text, 10, from, text.len());
        let end = if stop < text.len() && from < stop && text[stop - 1] == 13 {
            stop - 1
        } else {
            stop
        };
        let words = split_words(text, from, end);
        match read_line(text, &words, &mut mesh) {
            Ok(()) => {},
            Err(fault) => {
                return Err(ObjError { line, fault });
            },
        }
        if stop == text.len() {
            proof {
                assert(parse_from(text@, stop + 1, (line + 1) as nat, mesh@) == Ok::<
                    MeshView,
                    ObjError,
                >(mesh@));
                lemma_parse_is_sound(text@);
            }
            return Ok(mesh);
        }
        from = stop + 1;
        line += 1;
    }
    proof {
        lemma_parse_is_sound(text@);
    }
    Ok(mesh)
}

} // verus!
