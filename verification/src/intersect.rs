//! Intersections of one ray with the primitives of a scene, and the choice of
//! the visible one.
//!
//! A distance along the ray is carried as an `i64` code. The codes are ordered
//! as the distances they stand for, and `0` stands for the ray's origin: a code
//! above `0` lies in front of the origin, any other code does not.

use vstd::prelude::*;
use vstd::seq_lib::to_multiset_build;

verus! {

/// One crossing of a ray and a primitive.
#[derive(Clone, Copy, Debug, PartialEq, Eq, Structural)]
pub struct Intersection {
    /// Id of the primitive that was crossed.
    pub shape: usize,
    /// Code of the distance along the ray.
    pub t: i64,
    /// Code of the first barycentric coordinate, for a crossing of a smooth triangle.
    pub u: Option<i64>,
    /// Code of the second barycentric coordinate, for a crossing of a smooth triangle.
    pub v: Option<i64>,
}

impl Intersection {
    /// A crossing of primitive `shape` at the distance with code `t`.
    pub fn new(shape: usize, t: i64) -> (i: Intersection)
        ensures
            i == (Intersection { shape, t, u: None, v: None }),
    {
        Intersection { shape, t, u: None, v: None }
    }

    /// A crossing of the smooth triangle `shape` at the distance with code `t`
    /// and the barycentric coordinates with codes `u` and `v`.
    pub fn new_uv(shape: usize, t: i64, u: i64, v: i64) -> (i: Intersection)
        ensures
            i == (Intersection { shape, t, u: Some(u), v: Some(v) }),
    {
        Intersection { shape, t, u: Some(u), v: Some(v) }
    }
}

/// `k` is the place of the visible intersection of `xs`: it lies in front of
/// the origin, nothing in front of the origin is nearer, and whatever stands
/// before it in `xs` is strictly farther.
pub open spec fn is_hit_at(xs: Seq<Intersection>, k: int) -> bool {
    &&& 0 <= k < xs.len()
    &&& xs[k].t > 0
    &&& forall|j: int| 0 <= j < xs.len() && xs[j].t > 0 ==> xs[k].t <= #[trigger] xs[j].t
    &&& forall|j: int| 0 <= j < k && xs[j].t > 0 ==> xs[k].t < #[trigger] xs[j].t
}

/// No intersection of `xs` lies in front of the origin.
pub open spec fn all_behind(xs: Seq<Intersection>) -> bool {
    forall|j: int| 0 <= j < xs.len() ==> (#[trigger] xs[j]).t <= 0
}

/// At most one place is that of the visible intersection.
pub proof fn lemma_hit_is_unique(xs: Seq<Intersection>, a: int, b: int)
    requires
        is_hit_at(xs, a),
        is_hit_at(xs, b),
    ensures
        a == b,
{
}

/// The visible intersection is the nearest of those in front of the origin,
/// and it is missing only if nothing lies in front of the origin.
pub proof fn lemma_hit_is_nearest(xs: Seq<Intersection>, k: int, j: int)
    requires
        is_hit_at(xs, k),
        0 <= j < xs.len(),
    ensures
        !all_behind(xs),
        xs[j].t > 0 ==> 0 < xs[k].t <= xs[j].t,
        xs[j].t > 0 && xs[j].t == xs[k].t ==> k <= j,
{
}

/// The place of the visible intersection, if there is one.
pub fn hit_index(intersections: &[Intersection]) -> (r: Option<usize>)
    ensures
        r matches Some(k) ==> is_hit_at(intersections@, k as int),
        r is None <==> all_behind(intersections@),
{
    let mut front: Option<usize> = None;
    let mut i: usize = 0;
    while i < intersections.len()
        invariant
            0 <= i <= intersections.len(),
            front matches Some(k) ==> k < i && is_hit_at(intersections@.take(i as int), k as int),
            front is None <==> all_behind(intersections@.take(i as int)),
        decreases intersections.len() - i,
    {
        let ghost before = intersections@.take(i as int);
        let ghost after = intersections@.take(i + 1);
        assert(forall|j: int| 0 <= j < i ==> before[j] == after[j]);
        assert(after[i as int] == intersections@[i as int]);
        let t = intersections[i].t;
        if t > 0 {
            match front {
                None => {
                    front = Some(i);
                },
                Some(k) => {
                    if t < intersections[k].t {
                        front = Some(i);
                    }
                },
            }
        }
        proof {
            if front is None {
                assert forall|j: int| 0 <= j < after.len() implies (#[trigger] after[j]).t <= 0 by {
                    if j < i {
                        assert(before[j].t <= 0);
                    }
                }
            } else {
                let k = front.unwrap() as int;
                assert(after[k].t > 0);
                assert(!all_behind(after));
            }
        }
        i += 1;
    }
    assert(intersections@.take(i as int) == intersections@);
    front
}

/// The visible intersection: the one with the smallest distance in front of
/// the origin, the earliest in `intersections` among equals.
pub fn hit(intersections: &[Intersection]) -> (r: Option<Intersection>)
    ensures
        r matches Some(h) ==> exists|k: int|
            is_hit_at(intersections@, k) && h == intersections@[k],
        r is None <==> all_behind(intersections@),
{
    match hit_index(intersections) {
        Some(k) => Some(intersections[k]),
        None => None,
    }
}

/// Whether something stands between the origin and a light at `distance`:
/// the visible intersection exists and is nearer than the light.
pub fn is_shadowed(intersections: &[Intersection], distance: i64) -> (r: bool)
    ensures
        r <==> exists|j: int|
            0 <= j < intersections@.len() && 0 < (#[trigger] intersections@[j]).t < distance,
{
    match hit_index(intersections) {
        Some(k) => {
            let r = intersections[k].t < distance;
            proof {
                if !r {
                    assert forall|j: int| 0 <= j < intersections@.len() implies !(0 < (
                    #[trigger] intersections@[j]).t < distance) by {}
                }
            }
            r
        },
        None => false,
    }
}

/// `s` with `x` put behind every intersection that is not farther than `x`.
pub open spec fn insert_by_distance(s: Seq<Intersection>, x: Intersection) -> Seq<Intersection>
    decreases s.len(),
{
    if s.len() == 0 {
        seq![x]
    } else if s.last().t <= x.t {
        s.push(x)
    } else {
        insert_by_distance(s.drop_last(), x).push(s.last())
    }
}

/// `s` in order of distance; intersections at one distance keep the order they had.
pub open spec fn sorted_by_distance(s: Seq<Intersection>) -> Seq<Intersection>
    decreases s.len(),
{
    if s.len() == 0 {
        s
    } else {
        insert_by_distance(sorted_by_distance(s.drop_last()), s.last())
    }
}

/// No intersection of `s` is nearer than one that stands before it.
pub open spec fn is_ordered(s: Seq<Intersection>) -> bool {
    forall|i: int, j: int| 0 <= i <= j < s.len() ==> s[i].t <= s[j].t
}

proof fn lemma_insert_at(s: Seq<Intersection>, x: Intersection, k: int)
    requires
        0 <= k <= s.len(),
        forall|j: int| k <= j < s.len() ==> (#[trigger] s[j]).t > x.t,
        k > 0 ==> s[k - 1].t <= x.t,
    ensures
        insert_by_distance(s, x) == s.insert(k, x),
    decreases s.len(),
{
    if s.len() == 0 {
        assert(s.insert(k, x) =~= seq![x]);
    } else if k == s.len() {
        assert(s.insert(k, x) =~= s.push(x));
    } else {
        assert(s.last().t > x.t);
        lemma_insert_at(s.drop_last(), x, k);
        assert(s.drop_last().insert(k, x).push(s.last()) =~= s.insert(k, x));
    }
}

/// Inserting keeps what was there, adds the new intersection, and keeps order.
pub proof fn lemma_insert_by_distance(s: Seq<Intersection>, x: Intersection)
    ensures
        insert_by_distance(s, x).len() == s.len() + 1,
        insert_by_distance(s, x).to_multiset() == s.to_multiset().insert(x),
        is_ordered(s) ==> is_ordered(insert_by_distance(s, x)),
    decreases s.len(),
{
    broadcast use {to_multiset_build, vstd::multiset::group_multiset_axioms};

    let r = insert_by_distance(s, x);
    if s.len() == 0 {
        assert(r.to_multiset() == Seq::<Intersection>::empty().push(x).to_multiset());
        assert(s =~= Seq::<Intersection>::empty());
    } else if s.last().t <= x.t {
    } else {
        let head = s.drop_last();
        lemma_insert_by_distance(head, x);
        let m = insert_by_distance(head, x);
        assert(s == head.push(s.last()));
        assert(r.to_multiset() =~= s.to_multiset().insert(x));
        if is_ordered(s) {
            assert(is_ordered(head));
            assert forall|i: int, j: int| 0 <= i <= j < r.len() implies r[i].t <= r[j].t by {
                if j == r.len() - 1 && i < j {
                    assert(m.to_multiset().count(m[i]) > 0) by {
                        m.to_multiset_ensures();
                    }
                    if m[i] != x {
                        assert(head.to_multiset().count(m[i]) > 0);
                        head.to_multiset_ensures();
                        let w = choose|w: int| 0 <= w < head.len() && head[w] == m[i];
                        assert(s[w] == m[i]);
                    }
                }
            }
        }
    }
}

/// Sorting gives the same intersections, each as often as before, nearest first.
pub proof fn lemma_sorted_by_distance(s: Seq<Intersection>)
    ensures
        sorted_by_distance(s).len() == s.len(),
        sorted_by_distance(s).to_multiset() == s.to_multiset(),
        is_ordered(sorted_by_distance(s)),
    decreases s.len(),
{
    broadcast use to_multiset_build;

    if s.len() > 0 {
        lemma_sorted_by_distance(s.drop_last());
        lemma_insert_by_distance(sorted_by_distance(s.drop_last()), s.last());
        assert(s == s.drop_last().push(s.last()));
    }
}

/// Intersections at one distance come out in the order they went in: the sort
/// of a list that is in order already is that list.
pub proof fn lemma_sorted_is_fixed(s: Seq<Intersection>)
    requires
        is_ordered(s),
    ensures
        sorted_by_distance(s) == s,
    decreases s.len(),
{
    if s.len() > 0 {
        let head = s.drop_last();
        lemma_sorted_is_fixed(head);
        if head.len() > 0 {
            assert(head.last() == s[s.len() - 2]);
        }
        assert(head.push(s.last()) =~= s);
    }
}

/// Two insertions may change places if the intersection that is put in first
/// is the nearer one.
pub proof fn lemma_insertions_commute(s: Seq<Intersection>, x: Intersection, y: Intersection)
    requires
        x.t < y.t,
    ensures
        insert_by_distance(insert_by_distance(s, x), y) == insert_by_distance(
            insert_by_distance(s, y),
            x,
        ),
    decreases s.len(),
{
    if s.len() == 0 {
        assert(seq![x].drop_last() =~= Seq::<Intersection>::empty());
        assert(seq![y].drop_last() =~= Seq::<Intersection>::empty());
        assert(insert_by_distance(seq![x], y) == seq![x].push(y));
        assert(insert_by_distance(seq![y], x) == insert_by_distance(Seq::empty(), x).push(y));
    } else {
        let head = s.drop_last();
        let last = s.last();
        if last.t <= x.t {
            assert(s.push(y).drop_last() == s);
        } else if last.t <= y.t {
            let sx = insert_by_distance(head, x).push(last);
            assert(insert_by_distance(s, x) == sx);
            assert(sx.last() == last);
            assert(s.push(y).drop_last() == s);
        } else {
            let sx = insert_by_distance(head, x).push(last);
            let sy = insert_by_distance(head, y).push(last);
            assert(sx.drop_last() == insert_by_distance(head, x));
            assert(sy.drop_last() == insert_by_distance(head, y));
            lemma_insertions_commute(head, x, y);
        }
    }
}

/// `s` with the intersections of `v` put in one after the other.
pub open spec fn insert_all(s: Seq<Intersection>, v: Seq<Intersection>) -> Seq<Intersection>
    decreases v.len(),
{
    if v.len() == 0 {
        s
    } else {
        insert_by_distance(insert_all(s, v.drop_last()), v.last())
    }
}

/// Sorting a list is putting its second part into its sorted first part.
pub proof fn lemma_sorted_of_concat(u: Seq<Intersection>, v: Seq<Intersection>)
    ensures
        sorted_by_distance(u + v) == insert_all(sorted_by_distance(u), v),
    decreases v.len(),
{
    if v.len() == 0 {
        assert(u + v == u);
    } else {
        lemma_sorted_of_concat(u, v.drop_last());
        assert((u + v).drop_last() == u + v.drop_last());
        assert((u + v).last() == v.last());
    }
}

/// An intersection may be put in before others that are all farther.
proof fn lemma_insert_before_farther(s: Seq<Intersection>, x: Intersection, w: Seq<Intersection>)
    requires
        forall|i: int| 0 <= i < w.len() ==> x.t < (#[trigger] w[i]).t,
    ensures
        insert_all(insert_by_distance(s, x), w) == insert_by_distance(insert_all(s, w), x),
    decreases w.len(),
{
    if w.len() > 0 {
        let head = w.drop_last();
        assert forall|i: int| 0 <= i < head.len() implies x.t < (#[trigger] head[i]).t by {
            assert(head[i] == w[i]);
        }
        lemma_insert_before_farther(s, x, head);
        lemma_insertions_commute(insert_all(s, head), x, w.last());
    }
}

/// Putting in a list and putting in the same list part by part are the same.
proof fn lemma_insert_all_concat(s: Seq<Intersection>, a: Seq<Intersection>, b: Seq<Intersection>)
    ensures
        insert_all(s, a + b) == insert_all(insert_all(s, a), b),
    decreases b.len(),
{
    if b.len() == 0 {
        assert(a + b == a);
    } else {
        lemma_insert_all_concat(s, a, b.drop_last());
        assert((a + b).drop_last() == a + b.drop_last());
        assert((a + b).last() == b.last());
    }
}

/// It makes no difference to what comes out whether a list is put in as it
/// is or sorted first.
pub proof fn lemma_insert_all_sorted(s: Seq<Intersection>, v: Seq<Intersection>)
    ensures
        insert_all(s, sorted_by_distance(v)) == insert_all(s, v),
    decreases v.len(),
{
    if v.len() > 0 {
        let head = v.drop_last();
        let x = v.last();
        let w = sorted_by_distance(head);
        lemma_insert_all_sorted(s, head);
        lemma_sorted_by_distance(head);
        // where `x` goes in `w`: behind the last that is not farther
        let k = choose_place(w, x);
        lemma_choose_place(w, x);
        lemma_insert_at(w, x, k);
        let front = w.take(k);
        let back = w.skip(k);
        assert(w.insert(k, x) =~= front.push(x) + back);
        assert(w =~= front + back);
        lemma_insert_all_concat(s, front.push(x), back);
        lemma_insert_all_concat(s, front, back);
        assert(front.push(x).drop_last() == front);
        assert forall|i: int| 0 <= i < back.len() implies x.t < (#[trigger] back[i]).t by {
            assert(back[i] == w[k + i]);
        }
        lemma_insert_before_farther(insert_all(s, front), x, back);
    }
}

/// The place behind the last intersection of `w` that is not farther than `x`.
spec fn choose_place(w: Seq<Intersection>, x: Intersection) -> int
    decreases w.len(),
{
    if w.len() == 0 || w.last().t <= x.t {
        w.len() as int
    } else {
        choose_place(w.drop_last(), x)
    }
}

/// In an ordered list, everything from the chosen place on is farther, and
/// what stands just before it is not.
proof fn lemma_choose_place(w: Seq<Intersection>, x: Intersection)
    requires
        is_ordered(w),
    ensures
        0 <= choose_place(w, x) <= w.len(),
        forall|j: int| choose_place(w, x) <= j < w.len() ==> (#[trigger] w[j]).t > x.t,
        choose_place(w, x) > 0 ==> w[choose_place(w, x) - 1].t <= x.t,
    decreases w.len(),
{
    if w.len() > 0 && w.last().t > x.t {
        let head = w.drop_last();
        assert(is_ordered(head));
        lemma_choose_place(head, x);
        assert forall|j: int| choose_place(w, x) <= j < w.len() implies (#[trigger] w[j]).t
            > x.t by {
            if j < head.len() {
                assert(head[j] == w[j]);
            }
        }
    }
}

/// Sorting parts first changes nothing: the sorted whole of sorted parts is
/// the sorted whole. So a group may hand its members' intersections on in
/// order, and what the world sees is the same.
pub proof fn lemma_sorting_sorted_parts(a: Seq<Intersection>, b: Seq<Intersection>)
    ensures
        sorted_by_distance(sorted_by_distance(a) + sorted_by_distance(b)) == sorted_by_distance(
            a + b,
        ),
{
    let sa = sorted_by_distance(a);
    let sb = sorted_by_distance(b);
    lemma_sorted_by_distance(a);
    lemma_sorted_is_fixed(sa);
    lemma_sorted_of_concat(sa, sb);
    lemma_insert_all_sorted(sa, b);
    lemma_sorted_of_concat(a, b);
}

/// Puts `intersections` in order of distance, nearest first, keeping the order
/// of those at one distance.
pub fn sort_intersections(intersections: &mut Vec<Intersection>)
    ensures
        final(intersections)@ == sorted_by_distance(old(intersections)@),
{
    let mut out: Vec<Intersection> = Vec::new();
    let mut i: usize = 0;
    while i < intersections.len()
        invariant
            0 <= i <= intersections.len(),
            *intersections == *old(intersections),
            out@ == sorted_by_distance(intersections@.take(i as int)),
        decreases intersections.len() - i,
    {
        let x = intersections[i];
        let mut k: usize = out.len();
        while k > 0 && out[k - 1].t > x.t
            invariant
                0 <= k <= out.len(),
                forall|j: int| k <= j < out.len() ==> (#[trigger] out@[j]).t > x.t,
            decreases k,
        {
            k -= 1;
        }
        proof {
            lemma_insert_at(out@, x, k as int);
            assert(intersections@.take(i + 1).drop_last() == intersections@.take(i as int));
        }
        out.insert(k, x);
        i += 1;
    }
    assert(intersections@.take(i as int) == intersections@);
    *intersections = out;
}

/// All the intersections of `parts`, one list after the other.
pub open spec fn concat_all(parts: Seq<Seq<Intersection>>) -> Seq<Intersection>
    decreases parts.len(),
{
    if parts.len() == 0 {
        Seq::empty()
    } else {
        concat_all(parts.drop_last()) + parts.last()
    }
}

/// The lists of `parts`, each in order of distance.
pub open spec fn each_sorted(parts: Seq<Seq<Intersection>>) -> Seq<Seq<Intersection>> {
    parts.map_values(|p: Seq<Intersection>| sorted_by_distance(p))
}

/// Merging lists that were merged before gives what merging everything at
/// once gives: groups inside groups show the world the intersections that
/// their primitives would show it without the groups.
pub proof fn lemma_merging_merged_parts(parts: Seq<Seq<Intersection>>)
    ensures
        sorted_by_distance(concat_all(each_sorted(parts))) == sorted_by_distance(concat_all(parts)),
    decreases parts.len(),
{
    if parts.len() > 0 {
        let head = parts.drop_last();
        let last = parts.last();
        lemma_merging_merged_parts(head);
        assert(each_sorted(parts).drop_last() =~= each_sorted(head));
        assert(each_sorted(parts).last() == sorted_by_distance(last));
        let flat = concat_all(head);
        let nested = concat_all(each_sorted(head));
        lemma_sorted_of_concat(nested, sorted_by_distance(last));
        lemma_insert_all_sorted(sorted_by_distance(nested), last);
        lemma_sorted_of_concat(flat, last);
    }
}

/// The intersections that the members of a group, or the top-level primitives
/// of a world, found one by one, as a single list in order of distance.
pub fn merge_intersections(parts: &Vec<Vec<Intersection>>) -> (r: Vec<Intersection>)
    ensures
        r@ == sorted_by_distance(concat_all(parts@.map_values(|p: Vec<Intersection>| p@))),
{
    let ghost views = parts@.map_values(|p: Vec<Intersection>| p@);
    let mut all: Vec<Intersection> = Vec::new();
    let mut i: usize = 0;
    while i < parts.len()
        invariant
            0 <= i <= parts.len(),
            views == parts@.map_values(|p: Vec<Intersection>| p@),
            all@ == concat_all(views.take(i as int)),
        decreases parts.len() - i,
    {
        let part = &parts[i];
        let mut j: usize = 0;
        while j < part.len()
            invariant
                0 <= j <= part.len(),
                i < parts.len(),
                part == &parts@[i as int],
                views == parts@.map_values(|p: Vec<Intersection>| p@),
                all@ == concat_all(views.take(i as int)) + part@.take(j as int),
            decreases part.len() - j,
        {
            all.push(part[j]);
            proof {
                assert(part@.take(j + 1) == part@.take(j as int).push(part@[j as int]));
            }
            j += 1;
        }
        proof {
            assert(part@.take(j as int) == part@);
            assert(views.take(i + 1).drop_last() == views.take(i as int));
            assert(views.take(i + 1).last() == part@);
        }
        i += 1;
    }
    assert(views.take(i as int) == views);
    sort_intersections(&mut all);
    all
}

} // verus!
