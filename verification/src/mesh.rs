//! Meshes of triangles as a mesh file describes them: vertices and normals by
//! their place in the file, faces as fans of triangles.

use vstd::prelude::*;

verus! {

/// A piece of a text: the bytes from `start` up to, not including, `end`.
#[derive(Clone, Copy, Debug, PartialEq, Eq, Structural)]
pub struct Span {
    pub start: usize,
    pub end: usize,
}

/// Three numbers as they are written in the text.
#[derive(Clone, Copy, Debug, PartialEq, Eq, Structural)]
pub struct Triple {
    pub x: Span,
    pub y: Span,
    pub z: Span,
}

/// Three things of a mesh by their numbers; the first of the mesh has number 1.
#[derive(Clone, Copy, Debug, PartialEq, Eq, Structural)]
pub struct Corners {
    pub a: usize,
    pub b: usize,
    pub c: usize,
}

/// A triangle of a mesh: its three vertices and, for a smooth triangle, the
/// normals at them.
#[derive(Clone, Copy, Debug, PartialEq, Eq, Structural)]
pub struct MeshTriangle {
    pub vertices: Corners,
    pub normals: Option<Corners>,
}

/// What can be wrong with a mesh file.
#[derive(Clone, Copy, Debug, PartialEq, Eq, Structural)]
pub enum MeshFault {
    /// A vertex or a normal with fewer than three numbers.
    MissingCoordinate,
    /// A corner of a face whose vertex is not written as a number.
    BadIndex,
    /// A corner of a face with a vertex and one more part only: the normal is
    /// the third part.
    MalformedCorner,
    /// A face without corners.
    EmptyFace,
    /// A number that no vertex or normal read so far has.
    IndexOutOfRange,
    /// A smooth triangle with a corner that names no normal.
    MissingNormal,
}

/// One corner of a face as the file names it.
#[derive(Clone, Copy, Debug, PartialEq, Eq, Structural)]
pub struct Corner {
    pub vertex: usize,
    pub normal: Option<usize>,
}

/// `s` is one or more ASCII digits.
pub open spec fn is_digits(s: Seq<u8>) -> bool {
    s.len() > 0 && forall|i: int| 0 <= i < s.len() ==> 48 <= #[trigger] s[i] <= 57
}

/// The number that the digits `s` write in base ten.
pub open spec fn digits_value(s: Seq<u8>) -> nat
    decreases s.len(),
{
    if s.len() == 0 {
        0
    } else {
        digits_value(s.drop_last()) * 10 + (s.last() - 48) as nat
    }
}

/// The number that `s` writes: digits, after a plus sign or without one, that
/// give a number within the machine's range.
pub open spec fn index_of_text(s: Seq<u8>) -> Option<usize> {
    let digits = if s.len() > 0 && s[0] == 43 {
        s.drop_first()
    } else {
        s
    };
    if is_digits(digits) && digits_value(digits) <= usize::MAX {
        Some(digits_value(digits) as usize)
    } else {
        None
    }
}

/// More digits do not write a smaller number.
proof fn lemma_digits_grow(s: Seq<u8>, n: int)
    requires
        is_digits(s),
        0 <= n <= s.len(),
    ensures
        digits_value(s.take(n)) <= digits_value(s),
    decreases s.len() - n,
{
    if n < s.len() {
        lemma_digits_grow(s, n + 1);
        assert(s.take(n + 1).drop_last() == s.take(n));
    } else {
        assert(s.take(n) == s);
    }
}

/// Reads the number that the bytes `start..end` of `text` write.
#[verifier::loop_isolation(false)]
pub fn parse_index(text: &[u8], start: usize, end: usize) -> (r: Option<usize>)
    requires
        start <= end <= text@.len(),
    ensures
        r == index_of_text(text@.subrange(start as int, end as int)),
{
    let ghost s = text@.subrange(start as int, end as int);
    let first = if start < end && text[start] == 43 {
        start + 1
    } else {
        start
    };
    let ghost digits = text@.subrange(first as int, end as int);
    proof {
        if first > start {
            assert(s[0] == 43);
            assert(digits == s.drop_first());
        } else {
            if s.len() > 0 {
                assert(s[0] == text@[start as int]);
            }
            assert(digits == s);
        }
    }
    if first == end {
        return None;
    }
    let mut value: usize = 0;
    let mut i: usize = first;
    while i < end
        invariant
            first <= i <= end <= text@.len(),
            digits == text@.subrange(first as int, end as int),
            is_digits(digits.take(i - first)) || i == first,
            value == digits_value(digits.take(i - first)),
        decreases end - i,
    {
        let b = text[i];
        assert(digits[i - first] == b);
        if b < 48 || b > 57 {
            return None;
        }
        let d = (b - 48) as usize;
        proof {
            assert(digits.take(i - first + 1).drop_last() == digits.take(i - first));
            assert(digits.take(i - first + 1).last() == b);
            assert(is_digits(digits.take(i - first + 1))) by {
                assert forall|k: int| 0 <= k < i - first + 1 implies 48 <= #[trigger] digits.take(
                    i - first + 1,
                )[k] <= 57 by {
                    if k < i - first {
                        assert(digits.take(i - first)[k] == digits[k]);
                    }
                }
            }
        }
        if value > (usize::MAX - d) / 10 {
            proof {
                // the digits read so far write too large a number already
                if is_digits(digits) {
                    lemma_digits_grow(digits, i - first + 1);
                }
                assert(digits_value(digits.take(i - first + 1)) == value * 10 + d);
                assert(value * 10 + d > usize::MAX) by (nonlinear_arith)
                    requires
                        value > (usize::MAX - d) / 10,
                        0 <= d <= 9,
                ;
            }
            return None;
        }
        assert(value * 10 + d <= usize::MAX) by (nonlinear_arith)
            requires
                value <= (usize::MAX - d) / 10,
                0 <= d,
        ;
        value = value * 10 + d;
        i += 1;
    }
    proof {
        assert(digits.take(end - first) == digits);
    }
    Some(value)
}

/// The triangle of a fan with the corners at places 0, `i` and `i + 1`, for a
/// mesh that has `vertex_count` vertices and `normal_count` normals so far. It
/// is smooth if the corner at place `i` names a normal.
pub open spec fn fan_triangle(
    corners: Seq<Corner>,
    i: int,
    vertex_count: nat,
    normal_count: nat,
) -> Result<MeshTriangle, MeshFault> {
    let (p, q, r) = (corners[0], corners[i], corners[i + 1]);
    if !(1 <= p.vertex <= vertex_count && 1 <= q.vertex <= vertex_count && 1 <= r.vertex
        <= vertex_count) {
        Err(MeshFault::IndexOutOfRange)
    } else if q.normal is None {
        Ok(
            MeshTriangle {
                vertices: Corners { a: p.vertex, b: q.vertex, c: r.vertex },
                normals: None,
            },
        )
    } else if p.normal is None || r.normal is None {
        Err(MeshFault::MissingNormal)
    } else if !(1 <= p.normal->0 <= normal_count && 1 <= q.normal->0 <= normal_count && 1
        <= r.normal->0 <= normal_count) {
        Err(MeshFault::IndexOutOfRange)
    } else {
        Ok(
            MeshTriangle {
                vertices: Corners { a: p.vertex, b: q.vertex, c: r.vertex },
                normals: Some(Corners { a: p.normal->0, b: q.normal->0, c: r.normal->0 }),
            },
        )
    }
}

/// The first `n` triangles of the fan of `corners`, or what is wrong with the
/// first of them that cannot be built.
pub open spec fn fan_prefix(
    corners: Seq<Corner>,
    n: int,
    vertex_count: nat,
    normal_count: nat,
) -> Result<Seq<MeshTriangle>, MeshFault>
    decreases n,
{
    if n <= 0 {
        Ok(Seq::empty())
    } else {
        match fan_prefix(corners, n - 1, vertex_count, normal_count) {
            Err(e) => Err(e),
            Ok(done) => match fan_triangle(corners, n, vertex_count, normal_count) {
                Err(e) => Err(e),
                Ok(t) => Ok(done.push(t)),
            },
        }
    }
}

/// The triangles of a face with the corners `corners`: a fan around the first
/// corner, one triangle for every two neighbours among the others.
pub open spec fn fan(corners: Seq<Corner>, vertex_count: nat, normal_count: nat) -> Result<
    Seq<MeshTriangle>,
    MeshFault,
> {
    if corners.len() == 0 {
        Err(MeshFault::EmptyFace)
    } else {
        fan_prefix(corners, corners.len() - 2, vertex_count, normal_count)
    }
}

/// What went wrong with an early triangle of a fan is what is wrong with the fan.
pub proof fn lemma_fan_fault_stays(
    corners: Seq<Corner>,
    n: int,
    m: int,
    vertex_count: nat,
    normal_count: nat,
)
    requires
        n <= m,
        fan_prefix(corners, n, vertex_count, normal_count) is Err,
    ensures
        fan_prefix(corners, m, vertex_count, normal_count) == fan_prefix(
            corners,
            n,
            vertex_count,
            normal_count,
        ),
    decreases m - n,
{
    if n < m {
        lemma_fan_fault_stays(corners, n, m - 1, vertex_count, normal_count);
    }
}

/// A face of `k` corners gives `k - 2` triangles, all of them around its first
/// corner; each follows the one before along the rim, and every number in them
/// is that of a vertex or a normal that the mesh has.
pub proof fn lemma_fan_shape(corners: Seq<Corner>, n: int, vertex_count: nat, normal_count: nat)
    requires
        fan_prefix(corners, n, vertex_count, normal_count) is Ok,
    ensures
        ({
            let ts = fan_prefix(corners, n, vertex_count, normal_count)->Ok_0;
            &&& ts.len() == (if n <= 0 {
                0
            } else {
                n
            })
            &&& forall|i: int|
                0 <= i < ts.len() ==> {
                    &&& (#[trigger] ts[i]).vertices.a == corners[0].vertex
                    &&& ts[i].vertices.b == corners[i + 1].vertex
                    &&& ts[i].vertices.c == corners[i + 2].vertex
                    &&& 1 <= ts[i].vertices.a <= vertex_count
                    &&& 1 <= ts[i].vertices.b <= vertex_count
                    &&& 1 <= ts[i].vertices.c <= vertex_count
                    &&& ts[i].normals is Some <==> corners[i + 1].normal is Some
                    &&& ts[i].normals matches Some(ns) ==> {
                        &&& 1 <= ns.a <= normal_count
                        &&& 1 <= ns.b <= normal_count
                        &&& 1 <= ns.c <= normal_count
                        &&& Some(ns.a) == corners[0].normal
                        &&& Some(ns.b) == corners[i + 1].normal
                        &&& Some(ns.c) == corners[i + 2].normal
                    }
                }
        }),
    decreases n,
{
    if n > 0 {
        lemma_fan_shape(corners, n - 1, vertex_count, normal_count);
    }
}

/// Checks that `n` is the number of one of `count` things.
fn in_range(n: usize, count: usize) -> (r: bool)
    ensures
        r <==> 1 <= n <= count,
{
    1 <= n && n <= count
}

/// Builds the triangle of a fan with the corners at places 0, `i` and `i + 1`.
fn triangle_at(corners: &[Corner], i: usize, vertex_count: usize, normal_count: usize) -> (r: Result<
    MeshTriangle,
    MeshFault,
>)
    requires
        1 <= i,
        i + 1 < corners@.len(),
    ensures
        r == fan_triangle(corners@, i as int, vertex_count as nat, normal_count as nat),
{
    let p = corners[0];
    let q = corners[i];
    let r = corners[i + 1];
    if !(in_range(p.vertex, vertex_count) && in_range(q.vertex, vertex_count) && in_range(
        r.vertex,
        vertex_count,
    )) {
        return Err(MeshFault::IndexOutOfRange);
    }
    let vertices = Corners { a: p.vertex, b: q.vertex, c: r.vertex };
    match q.normal {
        None => Ok(MeshTriangle { vertices, normals: None }),
        Some(nq) => match (p.normal, r.normal) {
            (Some(np), Some(nr)) => {
                if in_range(np, normal_count) && in_range(nq, normal_count) && in_range(
                    nr,
                    normal_count,
                ) {
                    Ok(MeshTriangle { vertices, normals: Some(Corners { a: np, b: nq, c: nr }) })
                } else {
                    Err(MeshFault::IndexOutOfRange)
                }
            },
            _ => Err(MeshFault::MissingNormal),
        },
    }
}

/// Cuts a face into triangles: a fan around its first corner. The numbers in
/// the corners are checked against a mesh of `vertex_count` vertices and
/// `normal_count` normals.
#[verifier::loop_isolation(false)]
pub fn fan_triangulation(corners: &[Corner], vertex_count: usize, normal_count: usize) -> (r: Result<
    Vec<MeshTriangle>,
    MeshFault,
>)
    ensures
        r matches Ok(ts) ==> fan(corners@, vertex_count as nat, normal_count as nat) == Ok::<
            Seq<MeshTriangle>,
            MeshFault,
        >(ts@),
        r matches Err(e) ==> fan(corners@, vertex_count as nat, normal_count as nat) == Err::<
            Seq<MeshTriangle>,
            MeshFault,
        >(e),
{
    let mut triangles: Vec<MeshTriangle> = Vec::new();
    if corners.len() == 0 {
        return Err(MeshFault::EmptyFace);
    }
    let mut i: usize = 1;
    while i < corners.len() - 1
        invariant
            1 <= i,
            i < corners.len() || i == 1,
            fan_prefix(corners@, i - 1, vertex_count as nat, normal_count as nat) == Ok::<
                Seq<MeshTriangle>,
                MeshFault,
            >(triangles@),
        decreases corners.len() - i,
    {
        match triangle_at(corners, i, vertex_count, normal_count) {
            Ok(t) => {
                triangles.push(t);
            },
            Err(e) => {
                proof {
                    lemma_fan_fault_stays(
                        corners@,
                        i as int,
                        corners@.len() - 2,
                        vertex_count as nat,
                        normal_count as nat,
                    );
                }
                return Err(e);
            },
        }
        i += 1;
    }
    proof {
        if corners@.len() == 1 {
            assert(fan_prefix(corners@, -1, vertex_count as nat, normal_count as nat) == Ok::<
                Seq<MeshTriangle>,
                MeshFault,
            >(Seq::empty()));
        }
    }
    Ok(triangles)
}

} // verus!
