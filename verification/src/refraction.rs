//! Which media meet at an intersection.
//!
//! A ray that crosses transparent primitives is inside some of them at any
//! moment. Walking the intersections in order of distance, a primitive that is
//! crossed is entered if the ray was outside it and left if the ray was inside.
//! The primitives entered and not yet left form a stack; the medium of the ray
//! is the primitive on top, or empty space where the stack is empty.

use crate::intersect::Intersection;
use vstd::prelude::*;

verus! {

/// The stack after one more crossing, of `shape`.
pub open spec fn toggle(stack: Seq<usize>, shape: usize) -> Seq<usize> {
    if stack.contains(shape) {
        stack.remove(stack.index_of(shape))
    } else {
        stack.push(shape)
    }
}

/// The stack of entered primitives after the first `n` intersections of `xs`.
pub open spec fn containers(xs: Seq<Intersection>, n: int) -> Seq<usize>
    decreases n,
{
    if n <= 0 {
        Seq::empty()
    } else {
        toggle(containers(xs, n - 1), xs[n - 1].shape)
    }
}

/// The primitive on top of `stack`; `None` stands for empty space.
pub open spec fn medium(stack: Seq<usize>) -> Option<usize> {
    if stack.len() == 0 {
        None
    } else {
        Some(stack.last())
    }
}

/// The media on the two sides of an intersection: the one that the ray leaves
/// and the one that it enters. `None` stands for empty space.
#[derive(Clone, Copy, Debug, PartialEq, Eq, Structural)]
pub struct Media {
    pub leaving: Option<usize>,
    pub entering: Option<usize>,
}

/// The media at the intersection of `xs` at place `target`.
pub open spec fn media_at(xs: Seq<Intersection>, target: int) -> Media {
    if 0 <= target < xs.len() {
        Media {
            leaving: medium(containers(xs, target)),
            entering: medium(containers(xs, target + 1)),
        }
    } else {
        Media { leaving: None, entering: None }
    }
}

/// No primitive stands twice on the stack.
pub proof fn lemma_containers_distinct(xs: Seq<Intersection>, n: int)
    ensures
        containers(xs, n).no_duplicates(),
    decreases n,
{
    if n > 0 {
        lemma_containers_distinct(xs, n - 1);
        let before = containers(xs, n - 1);
        let shape = xs[n - 1].shape;
        if before.contains(shape) {
            let k = before.index_of(shape);
            let after = before.remove(k);
            assert forall|i: int, j: int|
                0 <= i < after.len() && 0 <= j < after.len() && i != j implies after[i]
                != after[j] by {
                let i0 = if i < k { i } else { i + 1 };
                let j0 = if j < k { j } else { j + 1 };
                assert(after[i] == before[i0] && after[j] == before[j0]);
            }
        } else {
            let after = before.push(shape);
            assert forall|i: int, j: int|
                0 <= i < after.len() && 0 <= j < after.len() && i != j implies after[i]
                != after[j] by {
                if i == before.len() {
                    assert(before[j] == after[j]);
                } else if j == before.len() {
                    assert(before[i] == after[i]);
                }
            }
        }
    }
}

/// A ray that crosses a primitive that it is outside of is inside it afterwards:
/// that primitive is the medium that the ray enters.
pub proof fn lemma_entering_a_primitive(xs: Seq<Intersection>, target: int)
    requires
        0 <= target < xs.len(),
        !containers(xs, target).contains(xs[target].shape),
    ensures
        media_at(xs, target).entering == Some(xs[target].shape),
{
    assert(containers(xs, target + 1) == containers(xs, target).push(xs[target].shape));
}

/// A ray that leaves the primitive it is in is left with what surrounds it:
/// the stack without its top.
pub proof fn lemma_leaving_the_medium(xs: Seq<Intersection>, target: int)
    requires
        0 <= target < xs.len(),
        media_at(xs, target).leaving == Some(xs[target].shape),
    ensures
        containers(xs, target + 1) == containers(xs, target).drop_last(),
{
    let before = containers(xs, target);
    let shape = xs[target].shape;
    lemma_containers_distinct(xs, target);
    assert(before[before.len() - 1] == shape);
    assert(before.contains(shape));
    assert(before.index_of(shape) == before.len() - 1);
    assert(before.remove(before.len() - 1) =~= before.drop_last());
}

/// The place of `shape` on `stack`, if it stands there.
fn position(stack: &Vec<usize>, shape: usize) -> (r: Option<usize>)
    ensures
        r is Some <==> stack@.contains(shape),
        r matches Some(k) ==> k < stack@.len() && stack@[k as int] == shape,
{
    let mut k: usize = 0;
    while k < stack.len()
        invariant
            0 <= k <= stack.len(),
            forall|j: int| 0 <= j < k ==> stack@[j] != shape,
        decreases stack.len() - k,
    {
        if stack[k] == shape {
            return Some(k);
        }
        k += 1;
    }
    None
}

/// The primitive on top of `stack`.
fn top(stack: &Vec<usize>) -> (r: Option<usize>)
    ensures
        r == medium(stack@),
{
    if stack.len() == 0 {
        None
    } else {
        Some(stack[stack.len() - 1])
    }
}

/// The media at the intersection at place `target` of `intersections`, which
/// are in order of distance. A `target` past the end meets no intersection and
/// gives empty space on both sides.
pub fn refraction_media(intersections: &[Intersection], target: usize) -> (r: Media)
    ensures
        r == media_at(intersections@, target as int),
{
    let mut stack: Vec<usize> = Vec::new();
    let mut leaving: Option<usize> = None;
    let mut entering: Option<usize> = None;
    let mut i: usize = 0;
    while i < intersections.len() && i <= target
        invariant
            0 <= i <= intersections.len(),
            i <= target + 1,
            stack@ == containers(intersections@, i as int),
            i > target ==> (Media { leaving, entering }) == media_at(
                intersections@,
                target as int,
            ),
            i <= target ==> leaving is None && entering is None,
        decreases intersections.len() - i,
    {
        if i == target {
            leaving = top(&stack);
        }
        let shape = intersections[i].shape;
        proof {
            lemma_containers_distinct(intersections@, i as int);
        }
        match position(&stack, shape) {
            Some(k) => {
                assert(stack@.index_of(shape) == k);
                stack.remove(k);
            },
            None => {
                stack.push(shape);
            },
        }
        if i == target {
            entering = top(&stack);
        }
        i += 1;
    }
    Media { leaving, entering }
}

} // verus!
