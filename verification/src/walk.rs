//! What a walk through a scene knows at every step: the groups that it is in.
//!
//! A caller that carries a ray through a scene takes the ray into the space
//! of every group that the walk enters, and back out when the walk leaves the
//! group. The laws of this module say that this is sound: a walk leaves only
//! groups that it has entered, ends outside all of them, and meets every
//! primitive inside exactly the groups that are around the primitive.

use crate::scene::{ShapeKind, Visit, World};
use vstd::prelude::*;
use vstd::seq_lib::lemma_no_dup_in_concat;

verus! {

/// The groups that a walk is in after its first `n` steps, outermost first.
pub open spec fn open_groups(vs: Seq<Visit>, n: int) -> Seq<usize>
    decreases n,
{
    if n <= 0 {
        Seq::empty()
    } else {
        let before = open_groups(vs, n - 1);
        match vs[n - 1] {
            Visit::Enter(g) => before.push(g),
            Visit::Leaf(_) => before,
            Visit::Leave(_) => before.drop_last(),
        }
    }
}

/// The walk leaves a group only while it is in one, and ends outside all.
pub open spec fn is_well_nested(vs: Seq<Visit>) -> bool {
    &&& forall|n: int|
        0 <= n < vs.len() && (#[trigger] vs[n]) is Leave ==> open_groups(vs, n).len() > 0
    &&& open_groups(vs, vs.len() as int) == Seq::<usize>::empty()
}

/// The start of a walk knows nothing of how the walk goes on.
pub proof fn lemma_open_groups_of_prefix(a: Seq<Visit>, b: Seq<Visit>, n: int)
    requires
        0 <= n <= a.len(),
    ensures
        open_groups(a + b, n) == open_groups(a, n),
    decreases n,
{
    if n > 0 {
        lemma_open_groups_of_prefix(a, b, n - 1);
        assert((a + b)[n - 1] == a[n - 1]);
    }
}

/// A walk that follows another is in the groups that the first was left in,
/// and in its own.
pub proof fn lemma_open_groups_of_concat(a: Seq<Visit>, b: Seq<Visit>, n: int)
    requires
        0 <= n <= b.len(),
        forall|k: int| 0 <= k < b.len() && (#[trigger] b[k]) is Leave ==> open_groups(b, k).len() > 0,
    ensures
        open_groups(a + b, a.len() + n) == open_groups(a, a.len() as int) + open_groups(b, n),
    decreases n,
{
    if n == 0 {
        lemma_open_groups_of_prefix(a, b, a.len() as int);
        assert(open_groups(a, a.len() as int) + Seq::<usize>::empty() =~= open_groups(
            a,
            a.len() as int,
        ));
    } else {
        lemma_open_groups_of_concat(a, b, n - 1);
        assert((a + b)[a.len() + n - 1] == b[n - 1]);
        let left = open_groups(a, a.len() as int);
        let right = open_groups(b, n - 1);
        match b[n - 1] {
            Visit::Enter(g) => {
                assert((left + right).push(g) =~= left + right.push(g));
            },
            Visit::Leaf(_) => {},
            Visit::Leave(_) => {
                assert(right.len() > 0);
                assert((left + right).drop_last() =~= left + right.drop_last());
            },
        }
    }
}

/// Two well-nested walks, one after the other, are a well-nested walk.
pub proof fn lemma_well_nested_concat(a: Seq<Visit>, b: Seq<Visit>)
    requires
        is_well_nested(a),
        is_well_nested(b),
    ensures
        is_well_nested(a + b),
{
    let all = a + b;
    assert forall|n: int| 0 <= n < all.len() && (#[trigger] all[n]) is Leave implies open_groups(
        all,
        n,
    ).len() > 0 by {
        if n < a.len() {
            lemma_open_groups_of_prefix(a, b, n);
            assert(a[n] == all[n]);
        } else {
            lemma_open_groups_of_concat(a, b, n - a.len());
            assert(b[n - a.len()] == all[n]);
        }
    }
    lemma_open_groups_of_concat(a, b, b.len() as int);
}

/// A well-nested walk between the steps into and out of a group is a
/// well-nested walk, and inside it the walk is in that group.
pub proof fn lemma_well_nested_group(g: usize, inner: Seq<Visit>)
    requires
        is_well_nested(inner),
    ensures
        is_well_nested(seq![Visit::Enter(g)] + inner + seq![Visit::Leave(g)]),
        forall|n: int|
            0 <= n <= inner.len() ==> #[trigger] open_groups(
                seq![Visit::Enter(g)] + inner + seq![Visit::Leave(g)],
                n + 1,
            ) == seq![g] + open_groups(inner, n),
{
    let enter = seq![Visit::Enter(g)];
    let leave = seq![Visit::Leave(g)];
    let all = enter + inner + leave;
    assert(open_groups(enter, 1) =~= seq![g]) by {
        assert(open_groups(enter, 0) == Seq::<usize>::empty());
        assert(enter[0] == Visit::Enter(g));
    }
    assert forall|n: int| 0 <= n <= inner.len() implies #[trigger] open_groups(all, n + 1) == seq![
        g,
    ] + open_groups(inner, n) by {
        lemma_open_groups_of_concat(enter, inner, n);
        lemma_open_groups_of_prefix(enter + inner, leave, n + 1);
    }
    assert forall|n: int| 0 <= n < all.len() && (#[trigger] all[n]) is Leave implies open_groups(
        all,
        n,
    ).len() > 0 by {
        if n == 0 {
            assert(all[0] == Visit::Enter(g));
        } else {
            assert(open_groups(all, (n - 1) + 1) == seq![g] + open_groups(inner, n - 1));
        }
    }
    assert(open_groups(all, all.len() as int) =~= Seq::<usize>::empty()) by {
        assert(all[all.len() - 1] == Visit::Leave(g));
        assert(open_groups(all, inner.len() as int + 1) == seq![g] + open_groups(
            inner,
            inner.len() as int,
        ));
        assert((seq![g] + Seq::<usize>::empty()).drop_last() =~= Seq::<usize>::empty());
    }
}

/// The walk through a primitive is well nested.
pub proof fn lemma_visits_are_well_nested(w: &World, id: usize)
    requires
        w.wf(),
        id < w.count(),
    ensures
        is_well_nested(w.visits_of(id)),
    decreases w.height(id), w.members_of(id as int).len() + 1,
{
    w.lemma_visits_step(id);
    if w.kind_of(id as int) == ShapeKind::Group {
        let count = w.members_of(id as int).len() as int;
        lemma_members_are_well_nested(w, id, count);
        lemma_well_nested_group(id, w.visits_of_members(id, count));
    } else {
        let only = seq![Visit::Leaf(id)];
        assert(open_groups(only, 1) == open_groups(only, 0));
    }
}

/// The walks through the first `n` members of a group are well nested.
pub proof fn lemma_members_are_well_nested(w: &World, group: usize, n: int)
    requires
        w.wf(),
        group < w.count(),
        0 <= n <= w.members_of(group as int).len(),
    ensures
        is_well_nested(w.visits_of_members(group, n)),
    decreases w.height(group), n,
{
    w.lemma_visits_step(group);
    if n > 0 {
        w.lemma_member_is_lower(group, n - 1);
        lemma_members_are_well_nested(w, group, n - 1);
        let member = w.members_of(group as int)[n - 1];
        lemma_visits_are_well_nested(w, member);
        lemma_well_nested_concat(w.visits_of_members(group, n - 1), w.visits_of(member));
    }
}

/// The groups around primitive `id` up to `root`, outermost first; none if
/// `id` is `root`.
pub open spec fn groups_around(w: &World, id: usize, root: usize) -> Seq<usize> {
    let chain = w.chain(id);
    chain.subrange(1, chain.index_of(root) + 1).reverse()
}

/// The groups around a primitive up to the group around one of them.
pub proof fn lemma_groups_around_step(w: &World, id: usize, member: usize, root: usize)
    requires
        w.wf(),
        id < w.count(),
        member < w.count(),
        w.chain(id).contains(member),
        w.parent_of(member as int) == Some(root),
    ensures
        w.chain(id).contains(root),
        groups_around(w, id, root) == seq![root] + groups_around(w, id, member),
{
    let c = w.chain(id);
    w.lemma_chain_links(id);
    w.lemma_chain_distinct(id);
    let k = c.index_of(member);
    assert(w.parent_of(c[k] as int) == Some(root));
    if k == c.len() - 1 {
        assert(w.parent_of(w.root_of(id) as int) is None);
    }
    assert(c[k + 1] == root);
    assert(c.index_of(root) == k + 1);
    let long = c.subrange(1, k + 2);
    let short = c.subrange(1, k + 1);
    assert(long.reverse() =~= seq![root] + short.reverse()) by {
        assert(long.len() == short.len() + 1);
        assert forall|i: int| 0 <= i < long.len() implies long.reverse()[i] == (seq![root]
            + short.reverse())[i] by {
            if i > 0 {
                assert(short.reverse()[i - 1] == short[short.len() - 1 - (i - 1)]);
            }
        }
    }
}

/// Where a step of the walks through the first `n` members of a group lies:
/// in the walk through one member, where the walk is in the same groups.
pub proof fn lemma_step_in_members(w: &World, group: usize, n: int, q: int) -> (at: (int, int))
    requires
        w.wf(),
        group < w.count(),
        0 <= n <= w.members_of(group as int).len(),
        0 <= q < w.visits_of_members(group, n).len(),
    ensures
        0 <= at.0 < n,
        w.members_of(group as int)[at.0] < w.count(),
        0 <= at.1 < w.visits_of(w.members_of(group as int)[at.0]).len(),
        w.visits_of_members(group, n)[q] == w.visits_of(w.members_of(group as int)[at.0])[at.1],
        open_groups(w.visits_of_members(group, n), q) == open_groups(
            w.visits_of(w.members_of(group as int)[at.0]),
            at.1,
        ),
    decreases n,
{
    w.lemma_visits_step(group);
    w.lemma_member_is_lower(group, n - 1);
    let before = w.visits_of_members(group, n - 1);
    let member = w.members_of(group as int)[n - 1];
    let here = w.visits_of(member);
    if q < before.len() {
        let at = lemma_step_in_members(w, group, n - 1, q);
        lemma_open_groups_of_prefix(before, here, q);
        at
    } else {
        lemma_members_are_well_nested(w, group, n - 1);
        lemma_visits_are_well_nested(w, member);
        lemma_open_groups_of_concat(before, here, q - before.len());
        assert(Seq::<usize>::empty() + open_groups(here, q - before.len()) =~= open_groups(
            here,
            q - before.len(),
        ));
        (n - 1, q - before.len())
    }
}

/// The groups that a walk through `root` is in when it makes the step `v`:
/// the groups around the primitive of the step, and that primitive itself
/// where the step leaves it.
pub open spec fn groups_at(w: &World, v: Visit, root: usize) -> Seq<usize> {
    if v is Leave {
        groups_around(w, v.place(), root).push(v.place())
    } else {
        groups_around(w, v.place(), root)
    }
}

/// When the walk through `root` comes to a primitive, it is in exactly the
/// groups around that primitive, up to `root`: what a caller has taken along
/// into those groups is in the space around the primitive. And the group
/// that the walk leaves is the one it entered last.
pub proof fn lemma_walk_knows_its_groups(w: &World, root: usize, q: int)
    requires
        w.wf(),
        root < w.count(),
        0 <= q < w.visits_of(root).len(),
    ensures
        w.visits_of(root)[q].place() < w.count(),
        w.chain(w.visits_of(root)[q].place()).contains(root),
        open_groups(w.visits_of(root), q) == groups_at(w, w.visits_of(root)[q], root),
    decreases w.height(root),
{
    let vs = w.visits_of(root);
    let v = vs[q];
    w.lemma_visits_step(root);
    w.lemma_visits_stay_inside(root, v);
    if q == 0 {
        // the walk starts at `root`, outside every group
        w.lemma_chain_links(root);
        w.lemma_chain_distinct(root);
        assert(v.place() == root);
        assert(w.chain(root).index_of(root) == 0);
        assert(w.chain(root).subrange(1, 1).reverse() =~= Seq::<usize>::empty());
    } else if q == vs.len() - 1 {
        // the walk ends where it leaves `root`
        let count = w.members_of(root as int).len() as int;
        let inner = w.visits_of_members(root, count);
        lemma_members_are_well_nested(w, root, count);
        lemma_well_nested_group(root, inner);
        w.lemma_chain_links(root);
        w.lemma_chain_distinct(root);
        assert(v == Visit::Leave(root));
        assert(w.chain(root).index_of(root) == 0);
        assert(w.chain(root).subrange(1, 1).reverse() =~= Seq::<usize>::empty());
        assert(open_groups(vs, inner.len() as int + 1) == seq![root] + open_groups(
            inner,
            inner.len() as int,
        ));
        assert(seq![root] + Seq::<usize>::empty() =~= Seq::<usize>::empty().push(root));
    } else {
        let count = w.members_of(root as int).len() as int;
        let inner = w.visits_of_members(root, count);
        lemma_members_are_well_nested(w, root, count);
        lemma_well_nested_group(root, inner);
        assert(q <= inner.len());
        assert(vs[q] == inner[q - 1]);
        let at = lemma_step_in_members(w, root, count, q - 1);
        let member = w.members_of(root as int)[at.0];
        w.lemma_member_is_lower(root, at.0);
        assert(w.visits_of(member)[at.1] == v);
        lemma_walk_knows_its_groups(w, member, at.1);
        lemma_groups_around_step(w, v.place(), member, root);
        assert(open_groups(vs, (q - 1) + 1) == seq![root] + open_groups(inner, q - 1));
        assert(seq![root] + groups_around(w, v.place(), member).push(v.place()) =~= (seq![root]
            + groups_around(w, v.place(), member)).push(v.place()));
    }
}

/// Up to the outermost group, the groups around a primitive are its chain
/// without the primitive itself, read from the far end.
pub proof fn lemma_groups_around_outermost(w: &World, id: usize, root: usize)
    requires
        w.wf(),
        id < w.count(),
        root < w.count(),
        w.chain(id).contains(root),
        w.parent_of(root as int) is None,
    ensures
        root == w.root_of(id),
        groups_around(w, id, root) == w.chain(id).drop_first().reverse(),
{
    let c = w.chain(id);
    w.lemma_chain_links(id);
    w.lemma_chain_distinct(id);
    let k = c.index_of(root);
    if k < c.len() - 1 {
        assert(w.parent_of(c[k] as int) == Some(c[k + 1]));
    }
    assert(c.subrange(1, k + 1) =~= c.drop_first());
}

/// The walks through the first `n` primitives of the top level are well nested.
pub proof fn lemma_top_level_is_well_nested(w: &World, n: int)
    requires
        w.wf(),
        0 <= n <= w.top_level().len(),
    ensures
        is_well_nested(w.visits_of_top_level(n)),
    decreases n,
{
    if n > 0 {
        lemma_top_level_is_well_nested(w, n - 1);
        w.lemma_top_level(n - 1);
        lemma_visits_are_well_nested(w, w.top_level()[n - 1]);
        lemma_well_nested_concat(w.visits_of_top_level(n - 1), w.visits_of(w.top_level()[n - 1]));
    }
}

/// Where a step of the walk through the scene lies: in the walk through one
/// primitive of the top level, where the walk is in the same groups.
pub proof fn lemma_step_in_top_level(w: &World, n: int, q: int) -> (at: (int, int))
    requires
        w.wf(),
        0 <= n <= w.top_level().len(),
        0 <= q < w.visits_of_top_level(n).len(),
    ensures
        0 <= at.0 < n,
        w.top_level()[at.0] < w.count(),
        0 <= at.1 < w.visits_of(w.top_level()[at.0]).len(),
        w.visits_of_top_level(n)[q] == w.visits_of(w.top_level()[at.0])[at.1],
        open_groups(w.visits_of_top_level(n), q) == open_groups(
            w.visits_of(w.top_level()[at.0]),
            at.1,
        ),
    decreases n,
{
    if n > 0 {
        w.lemma_top_level(n - 1);
    }
    let before = w.visits_of_top_level(n - 1);
    let object = w.top_level()[n - 1];
    let here = w.visits_of(object);
    if q < before.len() {
        let at = lemma_step_in_top_level(w, n - 1, q);
        lemma_open_groups_of_prefix(before, here, q);
        at
    } else {
        lemma_top_level_is_well_nested(w, n - 1);
        lemma_visits_are_well_nested(w, object);
        lemma_open_groups_of_concat(before, here, q - before.len());
        assert(Seq::<usize>::empty() + open_groups(here, q - before.len()) =~= open_groups(
            here,
            q - before.len(),
        ));
        (n - 1, q - before.len())
    }
}

/// When the walk through the scene comes to a primitive, the primitive is
/// part of the scene, and the walk is in exactly the groups around it, the
/// outermost first: the chain of the primitive without the primitive itself,
/// read from the far end. Where the walk leaves a group, that group is the
/// innermost that it is in.
pub proof fn lemma_traversal_knows_its_groups(w: &World, q: int)
    requires
        w.wf(),
        0 <= q < w.visits_of_top_level(w.top_level().len() as int).len(),
    ensures
        ({
            let walk = w.visits_of_top_level(w.top_level().len() as int);
            let id = walk[q].place();
            &&& id < w.count()
            &&& w.in_scene(id)
            &&& open_groups(walk, q) == (if walk[q] is Leave {
                w.chain(id).reverse()
            } else {
                w.chain(id).drop_first().reverse()
            })
        }),
{
    let n = w.top_level().len() as int;
    let at = lemma_step_in_top_level(w, n, q);
    let object = w.top_level()[at.0];
    w.lemma_top_level(at.0);
    lemma_walk_knows_its_groups(w, object, at.1);
    let id = w.visits_of(object)[at.1].place();
    lemma_groups_around_outermost(w, id, object);
    let c = w.chain(id);
    w.lemma_chain_links(id);
    assert(c.drop_first().reverse().push(id) =~= c.reverse()) by {
        assert forall|i: int| 0 <= i < c.len() implies c.drop_first().reverse().push(id)[i]
            == c.reverse()[i] by {
            if i < c.len() - 1 {
                assert(c.drop_first().reverse()[i] == c.drop_first()[c.len() - 2 - i]);
            }
        }
    }
}

/// The walk through a primitive of the top level is part of the walk through
/// the scene.
pub proof fn lemma_visit_of_top_level(w: &World, j: int, n: int, v: Visit)
    requires
        w.wf(),
        0 <= j < n <= w.top_level().len(),
        w.visits_of(w.top_level()[j]).contains(v),
    ensures
        w.visits_of_top_level(n).contains(v),
    decreases n,
{
    let before = w.visits_of_top_level(n - 1);
    let here = w.visits_of(w.top_level()[n - 1]);
    let all = w.visits_of_top_level(n);
    if j < n - 1 {
        lemma_visit_of_top_level(w, j, n - 1, v);
        let k = choose|k: int| 0 <= k < before.len() && before[k] == v;
        assert(all[k] == v);
    } else {
        let k = choose|k: int| 0 <= k < here.len() && here[k] == v;
        assert(all[before.len() + k] == v);
    }
}

/// The walk through the scene comes to every primitive that is part of the
/// scene.
pub proof fn lemma_traversal_reaches_the_scene(w: &World, id: usize)
    requires
        w.wf(),
        id < w.count(),
        w.in_scene(id),
    ensures
        w.visits_of_top_level(w.top_level().len() as int).contains(w.first_visit(id)),
{
    let root = w.root_of(id);
    w.lemma_chain_links(id);
    assert(w.chain(id).contains(root)) by {
        assert(w.chain(id)[w.chain(id).len() - 1] == root);
    }
    w.lemma_visits_reach_inside(root, id);
    let j = choose|j: int| 0 <= j < w.top_level().len() && w.top_level()[j] == root;
    lemma_visit_of_top_level(w, j, w.top_level().len() as int, w.first_visit(id));
}

/// The walks through the first `n` members of a group make no step twice.
pub proof fn lemma_members_are_met_once(w: &World, group: usize, n: int)
    requires
        w.wf(),
        group < w.count(),
        0 <= n <= w.members_of(group as int).len(),
    ensures
        w.visits_of_members(group, n).no_duplicates(),
    decreases w.height(group), n,
{
    w.lemma_visits_step(group);
    if n > 0 {
        w.lemma_member_is_lower(group, n - 1);
        lemma_members_are_met_once(w, group, n - 1);
        let member = w.members_of(group as int)[n - 1];
        lemma_visits_are_made_once(w, member);
        let before = w.visits_of_members(group, n - 1);
        let here = w.visits_of(member);
        assert forall|i: int, j: int| 0 <= i < before.len() && 0 <= j < here.len() implies before[i]
            != here[j] by {
            if before[i] == here[j] {
                // a step of two members: both would be around its primitive
                let v = here[j];
                assert(before.contains(v));
                assert(here.contains(v));
                let other = w.lemma_member_visit(group, n - 1, v);
                let first = w.members_of(group as int)[other];
                w.lemma_member_is_lower(group, other);
                w.lemma_visits_stay_inside(first, v);
                w.lemma_visits_stay_inside(member, v);
                let c = w.chain(v.place());
                w.lemma_chain_links(v.place());
                w.lemma_chain_distinct(v.place());
                let a = c.index_of(first);
                let b = c.index_of(member);
                assert(w.parent_of(c[a] as int) == Some(group));
                assert(w.parent_of(c[b] as int) == Some(group));
                if a == c.len() - 1 || b == c.len() - 1 {
                    assert(w.parent_of(w.root_of(v.place()) as int) is None);
                }
                assert(c[a + 1] == group && c[b + 1] == group);
                assert(a == b);
                w.lemma_members_and_parents(group, member);
                assert(w.members_of(group as int)[other] == w.members_of(group as int)[n - 1]);
            }
        }
        lemma_no_dup_in_concat(before, here);
    }
}

/// The walk through a primitive makes no step twice: it comes to everything
/// inside once, and leaves every group once.
pub proof fn lemma_visits_are_made_once(w: &World, id: usize)
    requires
        w.wf(),
        id < w.count(),
    ensures
        w.visits_of(id).no_duplicates(),
    decreases w.height(id), w.members_of(id as int).len() + 1,
{
    w.lemma_visits_step(id);
    if w.kind_of(id as int) == ShapeKind::Group {
        let count = w.members_of(id as int).len() as int;
        let inner = w.visits_of_members(id, count);
        lemma_members_are_met_once(w, id, count);
        let enter = seq![Visit::Enter(id)];
        let leave = seq![Visit::Leave(id)];
        // nothing inside the group is the group
        assert forall|j: int| 0 <= j < inner.len() implies (#[trigger] inner[j]).place() != id by {
            let v = inner[j];
            assert(inner.contains(v));
            let m = w.lemma_member_visit(id, count, v);
            let member = w.members_of(id as int)[m];
            w.lemma_member_is_lower(id, m);
            w.lemma_visits_stay_inside(member, v);
            if v.place() == id {
                let c = w.chain(id);
                w.lemma_chain_links(id);
                let k = choose|k: int| 0 <= k < c.len() && c[k] == member;
                w.lemma_chain_climbs(id, k);
            }
        }
        assert forall|i: int, j: int| 0 <= i < enter.len() && 0 <= j < inner.len() implies enter[i]
            != inner[j] by {
            assert(inner[j].place() != id);
        }
        lemma_no_dup_in_concat(enter, inner);
        let front = enter + inner;
        assert forall|i: int, j: int| 0 <= i < front.len() && 0 <= j < leave.len() implies front[i]
            != leave[j] by {
            if i > 0 {
                assert(front[i] == inner[i - 1]);
                assert(inner[i - 1].place() != id);
            }
        }
        lemma_no_dup_in_concat(front, leave);
    }
}

/// The walk through the scene makes no step twice: no primitive is met more
/// than once.
pub proof fn lemma_traversal_is_made_once(w: &World, n: int)
    requires
        w.wf(),
        0 <= n <= w.top_level().len(),
    ensures
        w.visits_of_top_level(n).no_duplicates(),
    decreases n,
{
    if n > 0 {
        lemma_traversal_is_made_once(w, n - 1);
        w.lemma_top_level(n - 1);
        let object = w.top_level()[n - 1];
        lemma_visits_are_made_once(w, object);
        let before = w.visits_of_top_level(n - 1);
        let here = w.visits_of(object);
        assert forall|i: int, j: int| 0 <= i < before.len() && 0 <= j < here.len() implies before[i]
            != here[j] by {
            if before[i] == here[j] {
                // a step of two walks: both would start at the outermost
                // primitive around its place
                let v = here[j];
                let at = lemma_step_in_top_level(w, n - 1, i);
                let other = w.top_level()[at.0];
                w.lemma_top_level(at.0);
                assert(w.visits_of(other).contains(v));
                assert(here.contains(v));
                w.lemma_visits_stay_inside(other, v);
                w.lemma_visits_stay_inside(object, v);
                lemma_groups_around_outermost(w, v.place(), other);
                lemma_groups_around_outermost(w, v.place(), object);
                assert(w.top_level()[at.0] == w.top_level()[n - 1]);
            }
        }
        lemma_no_dup_in_concat(before, here);
    }
}

} // verus!
