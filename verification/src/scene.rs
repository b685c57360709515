//! The primitives of a scene and how they nest.
//!
//! Every primitive gets an id when it is created and keeps it. A group holds
//! other primitives, groups among them, in the order in which they were added;
//! each primitive has at most one group around it. A primitive that has been
//! put into a group or placed at the top level of the world stays where it is.
//! Walking from a primitive to the group around it, and on, ends at an
//! outermost primitive: nothing is, however indirectly, inside itself.

use vstd::prelude::*;

verus! {

/// The kinds of primitive.
#[derive(Clone, Copy, Debug, PartialEq, Eq, Structural)]
pub enum ShapeKind {
    Sphere,
    Plane,
    Cube,
    Cylinder,
    Cone,
    Triangle,
    SmoothTriangle,
    Group,
}

/// One step of a walk through a primitive and all that is inside it.
#[derive(Clone, Copy, Debug, PartialEq, Eq, Structural)]
pub enum Visit {
    /// The walk goes into a group.
    Enter(usize),
    /// The walk meets a primitive that is no group.
    Leaf(usize),
    /// The walk has been through all members of a group and leaves it.
    Leave(usize),
}

impl Visit {
    /// The primitive at which the step is.
    pub open spec fn place(self) -> usize {
        match self {
            Visit::Enter(id) => id,
            Visit::Leaf(id) => id,
            Visit::Leave(id) => id,
        }
    }
}

/// Why a primitive could not be put where it was asked to go.
#[derive(Clone, Copy, Debug, PartialEq, Eq, Structural)]
pub enum SceneError {
    /// An id that no primitive of this world has.
    UnknownShape,
    /// The primitive that was to take a member is no group.
    NotAGroup,
    /// The primitive is in a group or at the top level already.
    AlreadyPlaced,
    /// The group is the primitive itself or lies inside it.
    Cycle,
}

struct Node {
    kind: ShapeKind,
    parent: Option<usize>,
    top_level: bool,
    members: Vec<usize>,
}

/// The primitives of a scene: an arena in which the id of a primitive is its
/// place, the groups with their members, and the primitives at the top level.
pub struct World {
    nodes: Vec<Node>,
    objects: Vec<usize>,
    /// A height for every primitive, above the heights of its members.
    rank: Ghost<Seq<int>>,
    /// No height is above this.
    bound: Ghost<int>,
}

impl World {
    /// Number of primitives; their ids are the numbers below it.
    pub closed spec fn count(&self) -> nat {
        self.nodes@.len()
    }

    /// The kind of primitive `id`.
    pub closed spec fn kind_of(&self, id: int) -> ShapeKind {
        self.nodes@[id].kind
    }

    /// The group around primitive `id`, if it is in one.
    pub closed spec fn parent_of(&self, id: int) -> Option<usize> {
        self.nodes@[id].parent
    }

    /// The members of group `id`, in the order in which they were added.
    pub closed spec fn members_of(&self, id: int) -> Seq<usize> {
        self.nodes@[id].members@
    }

    /// The primitives at the top level, in the order in which they were placed.
    pub closed spec fn top_level(&self) -> Seq<usize> {
        self.objects@
    }

    /// The nesting is sound: see the laws below for what that gives.
    pub closed spec fn wf(&self) -> bool {
        &&& self.rank@.len() == self.nodes@.len()
        &&& 0 <= self.bound@
        &&& forall|i: int|
            0 <= i < self.nodes@.len() ==> 0 <= #[trigger] self.rank@[i] <= self.bound@
        &&& forall|i: int|
            0 <= i < self.nodes@.len() ==> (#[trigger] self.nodes@[i].parent matches Some(p) ==> {
                &&& p < self.nodes@.len()
                &&& self.nodes@[p as int].kind == ShapeKind::Group
                &&& self.rank@[i] < self.rank@[p as int]
                &&& !self.nodes@[i].top_level
                &&& self.nodes@[p as int].members@.contains(i as usize)
            })
        &&& forall|g: int, k: int|
            0 <= g < self.nodes@.len() && 0 <= k < self.nodes@[g].members@.len() ==> {
                &&& (#[trigger] self.nodes@[g].members@[k]) < self.nodes@.len()
                &&& self.nodes@[self.nodes@[g].members@[k] as int].parent == Some(g as usize)
            }
        &&& forall|g: int|
            0 <= g < self.nodes@.len() ==> (#[trigger] self.nodes@[g].members@).no_duplicates()
        &&& forall|k: int|
            0 <= k < self.objects@.len() ==> {
                &&& (#[trigger] self.objects@[k]) < self.nodes@.len()
                &&& self.nodes@[self.objects@[k] as int].top_level
            }
        &&& self.objects@.no_duplicates()
        &&& forall|i: int|
            0 <= i < self.nodes@.len() && (#[trigger] self.nodes@[i].top_level)
                ==> self.objects@.contains(i as usize)
    }

    /// How far the height of primitive `id` is below the bound: it shrinks on
    /// the way from a primitive to the group around it.
    pub closed spec fn slack(&self, id: usize) -> int {
        self.bound@ - self.rank@[id as int]
    }

    /// The height of primitive `id`: above that of every member.
    pub closed spec fn height(&self, id: usize) -> int {
        self.rank@[id as int]
    }

    /// The walk through primitive `id`: the primitive itself if it is no group;
    /// for a group, the walks through its members in their order, between the
    /// steps into and out of the group.
    pub closed spec fn visits_of(&self, id: usize) -> Seq<Visit>
        decreases self.height(id), self.members_of(id as int).len() + 1,
        when self.wf() && id < self.count()
    {
        if self.kind_of(id as int) == ShapeKind::Group {
            seq![Visit::Enter(id)] + self.visits_of_members(
                id,
                self.members_of(id as int).len() as int,
            ) + seq![Visit::Leave(id)]
        } else {
            seq![Visit::Leaf(id)]
        }
    }

    /// The walks through the first `n` members of group `group`, one after the
    /// other.
    pub closed spec fn visits_of_members(&self, group: usize, n: int) -> Seq<Visit>
        decreases self.height(group), n,
        when self.wf() && group < self.count() && 0 <= n <= self.members_of(group as int).len()
    {
        if n == 0 {
            Seq::empty()
        } else {
            self.visits_of_members(group, n - 1) + self.visits_of(
                self.members_of(group as int)[n - 1],
            )
        }
    }

    /// The walks through the first `n` primitives of the top level, one after
    /// the other.
    pub open spec fn visits_of_top_level(&self, n: int) -> Seq<Visit>
        decreases n,
    {
        if n <= 0 {
            Seq::empty()
        } else {
            self.visits_of_top_level(n - 1) + self.visits_of(self.top_level()[n - 1])
        }
    }

    /// What the walk through a primitive is made of.
    pub proof fn lemma_visits_step(&self, id: usize)
        requires
            self.wf(),
            id < self.count(),
        ensures
            self.visits_of(id) == (if self.kind_of(id as int) == ShapeKind::Group {
                seq![Visit::Enter(id)] + self.visits_of_members(
                    id,
                    self.members_of(id as int).len() as int,
                ) + seq![Visit::Leave(id)]
            } else {
                seq![Visit::Leaf(id)]
            }),
            forall|n: int|
                0 < n <= self.members_of(id as int).len() ==> #[trigger] self.visits_of_members(id, n)
                    == self.visits_of_members(id, n - 1) + self.visits_of(
                    self.members_of(id as int)[n - 1],
                ),
            self.visits_of_members(id, 0) == Seq::<Visit>::empty(),
            forall|n: int|
                0 <= n < self.members_of(id as int).len() ==> (#[trigger] self.members_of(
                    id as int,
                )[n]) < self.count(),
    {
    }

    /// Heights grow along a chain: every group is higher than what is inside it.
    pub proof fn lemma_chain_climbs(&self, id: usize, k: int)
        requires
            self.wf(),
            id < self.count(),
            1 <= k < self.chain(id).len(),
        ensures
            self.height(id) < self.height(self.chain(id)[k]),
    {
        self.lemma_chain_distinct(id);
        assert(self.slack(self.chain(id)[k]) < self.slack(id));
    }

    /// A member of a group is a primitive of this world, lower than the group,
    /// with the group around it.
    pub proof fn lemma_member_is_lower(&self, group: usize, j: int)
        requires
            self.wf(),
            group < self.count(),
            0 <= j < self.members_of(group as int).len(),
        ensures
            self.members_of(group as int)[j] < self.count(),
            self.parent_of(self.members_of(group as int)[j] as int) == Some(group),
            0 <= self.height(self.members_of(group as int)[j]) < self.height(group),
            self.kind_of(group as int) == ShapeKind::Group,
    {
        let member = self.nodes@[group as int].members@[j];
        assert(self.nodes@[member as int].parent == Some(group));
        assert(0 <= self.rank@[member as int]);
    }

    /// A step of the walks through the first `n` members of a group is a step
    /// of the walk through one of them.
    pub proof fn lemma_member_visit(&self, group: usize, n: int, v: Visit) -> (j: int)
        requires
            self.wf(),
            group < self.count(),
            0 <= n <= self.members_of(group as int).len(),
            self.visits_of_members(group, n).contains(v),
        ensures
            0 <= j < n,
            self.members_of(group as int)[j] < self.count(),
            self.visits_of(self.members_of(group as int)[j]).contains(v),
        decreases n,
    {
        self.lemma_visits_step(group);
        let before = self.visits_of_members(group, n - 1);
        let here = self.visits_of(self.members_of(group as int)[n - 1]);
        let all = self.visits_of_members(group, n);
        let k = choose|k: int| 0 <= k < all.len() && all[k] == v;
        if n > 0 && k < before.len() {
            assert(before[k] == v);
            self.lemma_member_visit(group, n - 1, v)
        } else {
            assert(here[k - before.len()] == v);
            n - 1
        }
    }

    /// The walk through a member is part of the walks through the members.
    pub proof fn lemma_visit_of_member(&self, group: usize, j: int, n: int, v: Visit)
        requires
            self.wf(),
            group < self.count(),
            0 <= j < n <= self.members_of(group as int).len(),
            self.visits_of(self.members_of(group as int)[j]).contains(v),
        ensures
            self.visits_of_members(group, n).contains(v),
        decreases n,
    {
        self.lemma_visits_step(group);
        let before = self.visits_of_members(group, n - 1);
        let here = self.visits_of(self.members_of(group as int)[n - 1]);
        let all = self.visits_of_members(group, n);
        if j < n - 1 {
            self.lemma_visit_of_member(group, j, n - 1, v);
            let k = choose|k: int| 0 <= k < before.len() && before[k] == v;
            assert(all[k] == v);
        } else {
            let k = choose|k: int| 0 <= k < here.len() && here[k] == v;
            assert(all[before.len() + k] == v);
        }
    }

    /// The walk through a primitive stays inside it: every step is at the
    /// primitive itself or at one that lies inside it.
    pub proof fn lemma_visits_stay_inside(&self, root: usize, v: Visit)
        requires
            self.wf(),
            root < self.count(),
            self.visits_of(root).contains(v),
        ensures
            v.place() < self.count(),
            self.chain(v.place()).contains(root),
        decreases self.height(root),
    {
        self.lemma_visits_step(root);
        self.lemma_chain_links(root);
        let all = self.visits_of(root);
        let k = choose|k: int| 0 <= k < all.len() && all[k] == v;
        if v.place() == root {
            assert(self.chain(root)[0] == root);
        } else {
            let n = self.members_of(root as int).len() as int;
            let inner = self.visits_of_members(root, n);
            assert(self.kind_of(root as int) == ShapeKind::Group);
            assert(0 < k <= inner.len());
            assert(inner[k - 1] == v);
            let j = self.lemma_member_visit(root, n, v);
            let member = self.members_of(root as int)[j];
            assert(self.nodes@[root as int].members@[j] == member);
            assert(self.nodes@[member as int].parent == Some(root));
            self.lemma_visits_stay_inside(member, v);
            let c = self.chain(v.place());
            self.lemma_chain_links(v.place());
            let at = choose|at: int| 0 <= at < c.len() && c[at] == member;
            assert(self.parent_of(c[at] as int) == Some(root));
            if at == c.len() - 1 {
                assert(self.parent_of(self.root_of(v.place()) as int) is None);
            } else {
                assert(c[at + 1] == root);
            }
        }
    }

    /// The walk through a primitive reaches everything inside it: the
    /// primitive itself and whatever has it on its chain.
    pub proof fn lemma_visits_reach_inside(&self, root: usize, id: usize)
        requires
            self.wf(),
            root < self.count(),
            id < self.count(),
            self.chain(id).contains(root),
        ensures
            self.visits_of(root).contains(self.first_visit(id)),
        decreases self.chain(id).len(),
    {
        self.lemma_visits_step(root);
        self.lemma_visits_step(id);
        self.lemma_chain_links(id);
        let c = self.chain(id);
        let k = choose|k: int| 0 <= k < c.len() && c[k] == root;
        if id == root {
            assert(self.visits_of(root)[0] == self.first_visit(id));
        } else {
            // the group around `id` is on the way to `root`
            let p = self.parent_of(id as int)->0;
            assert(k > 0);
            assert(self.parent_of(c[0] as int) == Some(c[1]));
            let d = self.chain(p);
            assert(c == seq![id] + d);
            assert(d[k - 1] == root);
            assert(self.nodes@[id as int].parent == Some(p));
            let m = self.nodes@[p as int].members@;
            assert(m.contains(id));
            let j = choose|j: int| 0 <= j < m.len() && m[j] == id;
            assert(self.visits_of(id)[0] == self.first_visit(id));
            self.lemma_visit_of_member(p, j, m.len() as int, self.first_visit(id));
            self.lemma_visits_step(p);
            let inner = self.visits_of_members(p, m.len() as int);
            let at = choose|at: int| 0 <= at < inner.len() && inner[at] == self.first_visit(id);
            assert(self.visits_of(p)[at + 1] == self.first_visit(id));
            // and what the walk through that group holds, the walk through `root` holds
            self.lemma_visits_nest(root, p, self.first_visit(id));
        }
    }

    /// The walk through a primitive holds the walks through everything inside it.
    pub proof fn lemma_visits_nest(&self, root: usize, inner: usize, v: Visit)
        requires
            self.wf(),
            root < self.count(),
            inner < self.count(),
            self.chain(inner).contains(root),
            self.visits_of(inner).contains(v),
        ensures
            self.visits_of(root).contains(v),
        decreases self.chain(inner).len(),
    {
        self.lemma_chain_links(inner);
        let c = self.chain(inner);
        let k = choose|k: int| 0 <= k < c.len() && c[k] == root;
        if inner != root {
            let p = self.parent_of(inner as int)->0;
            assert(k > 0);
            assert(self.parent_of(c[0] as int) == Some(c[1]));
            let d = self.chain(p);
            assert(c == seq![inner] + d);
            assert(d[k - 1] == root);
            assert(self.nodes@[inner as int].parent == Some(p));
            let m = self.nodes@[p as int].members@;
            assert(m.contains(inner));
            let j = choose|j: int| 0 <= j < m.len() && m[j] == inner;
            self.lemma_visit_of_member(p, j, m.len() as int, v);
            self.lemma_visits_step(p);
            let among = self.visits_of_members(p, m.len() as int);
            let at = choose|at: int| 0 <= at < among.len() && among[at] == v;
            assert(self.visits_of(p)[at + 1] == v);
            self.lemma_visits_nest(root, p, v);
        }
    }

    /// The step with which a walk comes to primitive `id`.
    pub open spec fn first_visit(&self, id: usize) -> Visit {
        if self.kind_of(id as int) == ShapeKind::Group {
            Visit::Enter(id)
        } else {
            Visit::Leaf(id)
        }
    }

    /// Primitive `id` and the groups around it, innermost first: `id`, the
    /// group that holds it, the group that holds that group, up to the
    /// outermost.
    pub closed spec fn chain(&self, id: usize) -> Seq<usize>
        decreases self.slack(id),
        when self.wf() && id < self.count()
    {
        match self.nodes@[id as int].parent {
            None => seq![id],
            Some(p) => seq![id] + self.chain(p),
        }
    }

    /// The outermost primitive around `id`; `id` itself if it is in no group.
    pub open spec fn root_of(&self, id: usize) -> usize {
        self.chain(id).last()
    }

    /// Group `group` is around primitive `id`, directly or further out.
    pub open spec fn is_inside(&self, id: usize, group: usize) -> bool {
        self.chain(id).drop_first().contains(group)
    }

    /// Primitive `id` is part of the scene: it, or the outermost group around
    /// it, stands at the top level.
    pub open spec fn in_scene(&self, id: usize) -> bool {
        self.top_level().contains(self.root_of(id))
    }

    /// What the chain of a primitive is made of.
    pub proof fn lemma_chain_step(&self, id: usize)
        requires
            self.wf(),
            id < self.count(),
        ensures
            self.chain(id) == (match self.parent_of(id as int) {
                None => seq![id],
                Some(p) => seq![id] + self.chain(p),
            }),
            self.parent_of(id as int) matches Some(p) ==> p < self.count(),
    {
    }

    /// A chain starts at its primitive, goes from each primitive to the group
    /// around it, and ends at a primitive that is in no group. Every step is a
    /// primitive of this world, and all but the first are groups.
    pub proof fn lemma_chain_links(&self, id: usize)
        requires
            self.wf(),
            id < self.count(),
        ensures
            self.chain(id).len() >= 1,
            self.chain(id)[0] == id,
            forall|k: int| 0 <= k < self.chain(id).len() ==> (#[trigger] self.chain(id)[k]) < self.count(),
            forall|k: int|
                0 <= k < self.chain(id).len() - 1 ==> self.parent_of(
                    (#[trigger] self.chain(id)[k]) as int,
                ) == Some(self.chain(id)[k + 1]),
            forall|k: int|
                1 <= k < self.chain(id).len() ==> self.kind_of((#[trigger] self.chain(id)[k]) as int)
                    == ShapeKind::Group,
            self.parent_of(self.root_of(id) as int) is None,
        decreases self.slack(id),
    {
        match self.nodes@[id as int].parent {
            None => {},
            Some(p) => {
                self.lemma_chain_links(p);
                let c = self.chain(id);
                let d = self.chain(p);
                assert(c == seq![id] + d);
                assert forall|k: int| 0 <= k < c.len() implies (#[trigger] c[k]) < self.count() by {
                    if k > 0 {
                        assert(c[k] == d[k - 1]);
                    }
                }
                assert forall|k: int| 0 <= k < c.len() - 1 implies self.parent_of(
                    (#[trigger] c[k]) as int,
                ) == Some(c[k + 1]) by {
                    if k > 0 {
                        assert(c[k] == d[k - 1]);
                        assert(c[k + 1] == d[k]);
                    }
                }
                assert forall|k: int| 1 <= k < c.len() implies self.kind_of((#[trigger] c[k]) as int)
                    == ShapeKind::Group by {
                    assert(c[k] == d[k - 1]);
                }
                assert(c.last() == d.last());
            },
        }
    }

    /// No primitive is inside itself: a chain meets nothing twice.
    pub proof fn lemma_chain_distinct(&self, id: usize)
        requires
            self.wf(),
            id < self.count(),
        ensures
            self.chain(id).no_duplicates(),
            forall|k: int|
                1 <= k < self.chain(id).len() ==> self.slack(#[trigger] self.chain(id)[k])
                    < self.slack(id),
        decreases self.slack(id),
    {
        match self.nodes@[id as int].parent {
            None => {},
            Some(p) => {
                self.lemma_chain_distinct(p);
                self.lemma_chain_links(p);
                let c = self.chain(id);
                let d = self.chain(p);
                assert(c == seq![id] + d);
                assert forall|k: int| 1 <= k < c.len() implies self.slack(#[trigger] c[k])
                    < self.slack(id) by {
                    assert(c[k] == d[k - 1]);
                    if k > 1 {
                        assert(self.slack(d[k - 1]) < self.slack(p));
                    }
                }
                assert forall|i: int, j: int| 0 <= i < c.len() && 0 <= j < c.len() && i != j implies c[i]
                    != c[j] by {
                    if i > 0 {
                        assert(c[i] == d[i - 1]);
                    }
                    if j > 0 {
                        assert(c[j] == d[j - 1]);
                    }
                }
            },
        }
    }

    /// A chain depends only on the groups around the primitives on it: where
    /// two worlds agree on those, they agree on the chain.
    pub proof fn lemma_chain_frame(&self, other: &World, id: usize)
        requires
            self.wf(),
            other.wf(),
            id < self.count(),
            self.count() <= other.count(),
            forall|k: int|
                0 <= k < self.chain(id).len() ==> other.parent_of(
                    (#[trigger] self.chain(id)[k]) as int,
                ) == self.parent_of(self.chain(id)[k] as int),
        ensures
            other.chain(id) == self.chain(id),
        decreases self.slack(id),
    {
        let c = self.chain(id);
        assert(c[0] == id) by {
            self.lemma_chain_links(id);
        }
        match self.nodes@[id as int].parent {
            None => {},
            Some(p) => {
                let d = self.chain(p);
                assert(c == seq![id] + d);
                assert forall|k: int| 0 <= k < d.len() implies other.parent_of((#[trigger] d[k]) as int)
                    == self.parent_of(d[k] as int) by {
                    assert(c[k + 1] == d[k]);
                }
                self.lemma_chain_frame(other, p);
            },
        }
    }

    /// Where a primitive that was in no group gets a group around it, the
    /// chains that ended at the primitive go on with the chain of that group.
    pub proof fn lemma_chain_extends(&self, other: &World, id: usize, shape: usize, group: usize)
        requires
            self.wf(),
            other.wf(),
            id < self.count(),
            shape < self.count(),
            group < self.count(),
            self.count() == other.count(),
            self.parent_of(shape as int) is None,
            other.parent_of(shape as int) == Some(group),
            forall|i: int|
                0 <= i < self.count() && i != shape ==> other.parent_of(i) == self.parent_of(i),
            other.chain(group) == self.chain(group),
            self.chain(id).contains(shape),
        ensures
            other.chain(id) == self.chain(id) + self.chain(group),
        decreases self.slack(id),
    {
        if id == shape {
            assert(self.chain(id) == seq![id]);
            assert(other.chain(id) == seq![id] + other.chain(group));
        } else {
            let c = self.chain(id);
            assert(c.contains(shape));
            let k = choose|k: int| 0 <= k < c.len() && c[k] == shape;
            assert(other.parent_of(id as int) == self.parent_of(id as int));
            match self.nodes@[id as int].parent {
                None => {
                    assert(c == seq![id]);
                },
                Some(p) => {
                    let d = self.chain(p);
                    assert(c == seq![id] + d);
                    assert(c[0] == id);
                    assert(d[k - 1] == c[k]);
                    assert(d.contains(shape));
                    self.lemma_chain_extends(other, p, shape, group);
                    assert(other.chain(id) == seq![id] + other.chain(p));
                    assert(seq![id] + (d + self.chain(group)) =~= (seq![id] + d) + self.chain(group));
                },
            }
        }
    }

    /// Members and groups name each other: a primitive is a member of group
    /// `g` exactly if `g` is the group around it.
    pub proof fn lemma_members_and_parents(&self, g: usize, id: usize)
        requires
            self.wf(),
            g < self.count(),
            id < self.count(),
        ensures
            self.members_of(g as int).contains(id) <==> self.parent_of(id as int) == Some(g),
            self.members_of(g as int).no_duplicates(),
            self.members_of(g as int).len() > 0 ==> self.kind_of(g as int) == ShapeKind::Group,
    {
        if self.members_of(g as int).contains(id) {
            let k = choose|k: int|
                0 <= k < self.members_of(g as int).len() && self.members_of(g as int)[k] == id;
            assert(self.nodes@[g as int].members@[k] == id);
        }
        if self.members_of(g as int).len() > 0 {
            let c = self.nodes@[g as int].members@[0];
            assert(self.nodes@[c as int].parent == Some(g));
        }
    }

    /// A primitive at the top level is in no group, and stands there once.
    pub proof fn lemma_top_level(&self, k: int)
        requires
            self.wf(),
            0 <= k < self.top_level().len(),
        ensures
            self.top_level()[k] < self.count(),
            self.parent_of(self.top_level()[k] as int) is None,
            self.top_level().no_duplicates(),
    {
        let id = self.objects@[k];
        assert(self.nodes@[id as int].top_level);
    }

    /// A world without primitives.
    pub fn new() -> (w: World)
        ensures
            w.wf(),
            w.count() == 0,
            w.top_level() == Seq::<usize>::empty(),
    {
        World { nodes: Vec::new(), objects: Vec::new(), rank: Ghost(Seq::empty()), bound: Ghost(0) }
    }

    /// Number of primitives.
    pub fn len(&self) -> (n: usize)
        ensures
            n == self.count(),
    {
        self.nodes.len()
    }

    /// Creates a primitive of kind `kind`, in no group and not at the top
    /// level, and gives its id: the number of primitives created before it.
    pub fn add_shape(&mut self, kind: ShapeKind) -> (id: usize)
        requires
            old(self).wf(),
        ensures
            final(self).wf(),
            id == old(self).count(),
            final(self).count() == old(self).count() + 1,
            final(self).kind_of(id as int) == kind,
            final(self).parent_of(id as int) is None,
            final(self).members_of(id as int) == Seq::<usize>::empty(),
            final(self).top_level() == old(self).top_level(),
            final(self).chain(id) == seq![id],
            forall|i: int|
                0 <= i < old(self).count() ==> {
                    &&& final(self).kind_of(i) == old(self).kind_of(i)
                    &&& final(self).parent_of(i) == old(self).parent_of(i)
                    &&& final(self).members_of(i) == old(self).members_of(i)
                },
            forall|i: usize| i < old(self).count() ==> final(self).chain(i) == old(self).chain(i),
    {
        let id = self.nodes.len();
        self.nodes.push(Node { kind, parent: None, top_level: false, members: Vec::new() });
        proof {
            self.rank@ = old(self).rank@.push(old(self).bound@);
            assert forall|i: int| 0 <= i < old(self).nodes@.len() implies self.nodes@[i] == old(
                self,
            ).nodes@[i] by {}
            assert(self.wf());
            assert forall|i: usize| i < old(self).count() implies self.chain(i) == old(self).chain(
                i,
            ) by {
                old(self).lemma_chain_links(i);
                old(self).lemma_chain_frame(self, i);
            }
        }
        id
    }

    /// The kind of primitive `id`; `None` for an id that no primitive has.
    pub fn get_kind(&self, id: usize) -> (r: Option<ShapeKind>)
        ensures
            r == (if id < self.count() {
                Some(self.kind_of(id as int))
            } else {
                None
            }),
    {
        if id < self.nodes.len() {
            Some(self.nodes[id].kind)
        } else {
            None
        }
    }

    /// The id of the group around primitive `id`; `None` for a primitive that
    /// is in no group, and for an id that no primitive has.
    pub fn get_parent_id(&self, id: usize) -> (r: Option<usize>)
        ensures
            r == (if id < self.count() {
                self.parent_of(id as int)
            } else {
                None
            }),
    {
        if id < self.nodes.len() {
            self.nodes[id].parent
        } else {
            None
        }
    }

    /// The member of group `group` at place `index`, in the order in which the
    /// members were added.
    pub fn get_object(&self, group: usize, index: usize) -> (r: Option<usize>)
        ensures
            r == (if group < self.count() && index < self.members_of(group as int).len() {
                Some(self.members_of(group as int)[index as int])
            } else {
                None
            }),
    {
        if group < self.nodes.len() && index < self.nodes[group].members.len() {
            Some(self.nodes[group].members[index])
        } else {
            None
        }
    }

    /// The members of group `group`, in the order in which they were added.
    pub fn members(&self, group: usize) -> (r: &Vec<usize>)
        requires
            group < self.count(),
        ensures
            r@ == self.members_of(group as int),
    {
        &self.nodes[group].members
    }

    /// The primitives at the top level, in the order in which they were placed.
    pub fn objects(&self) -> (r: &Vec<usize>)
        ensures
            r@ == self.top_level(),
    {
        &self.objects
    }

    /// Primitive `id` and the groups around it, innermost first.
    pub fn ancestors(&self, id: usize) -> (path: Vec<usize>)
        requires
            self.wf(),
            id < self.count(),
        ensures
            path@ == self.chain(id),
    {
        let mut path: Vec<usize> = Vec::new();
        path.push(id);
        let mut cur = id;
        loop
            invariant
                self.wf(),
                cur < self.count(),
                path@ + self.chain(cur).drop_first() == self.chain(id),
            ensures
                path@ == self.chain(id),
            decreases self.slack(cur),
        {
            match self.nodes[cur].parent {
                None => {
                    proof {
                        assert(self.chain(cur).drop_first() =~= Seq::<usize>::empty());
                        assert(path@ + Seq::<usize>::empty() =~= path@);
                    }
                    break ;
                },
                Some(p) => {
                    proof {
                        self.lemma_chain_links(p);
                        assert(self.chain(cur).drop_first() =~= self.chain(p));
                        assert(self.chain(p) =~= seq![p] + self.chain(p).drop_first());
                        assert(path@.push(p) + self.chain(p).drop_first() =~= path@ + self.chain(p));
                    }
                    path.push(p);
                    cur = p;
                },
            }
        }
        path
    }

    /// Whether group `group` is around primitive `id`, directly or further out.
    pub fn encloses(&self, group: usize, id: usize) -> (r: bool)
        requires
            self.wf(),
        ensures
            r == (id < self.count() && self.is_inside(id, group)),
    {
        if id >= self.nodes.len() {
            return false;
        }
        let path = self.ancestors(id);
        proof {
            self.lemma_chain_links(id);
        }
        let mut k: usize = 1;
        while k < path.len()
            invariant
                1 <= k <= path.len(),
                id < self.count(),
                path@ == self.chain(id),
                forall|j: int| 1 <= j < k ==> path@[j] != group,
            decreases path.len() - k,
        {
            if path[k] == group {
                assert(path@.drop_first()[k - 1] == group);
                return true;
            }
            k += 1;
        }
        proof {
            assert forall|j: int| 0 <= j < path@.drop_first().len() implies path@.drop_first()[j]
                != group by {
                assert(path@.drop_first()[j] == path@[j + 1]);
            }
        }
        false
    }

    /// Whether primitive `id` is part of the scene: whether it, or the
    /// outermost group around it, stands at the top level.
    pub fn get_object_by_id(&self, id: usize) -> (r: Option<usize>)
        requires
            self.wf(),
        ensures
            r == (if id < self.count() && self.in_scene(id) {
                Some(id)
            } else {
                None
            }),
    {
        if id >= self.nodes.len() {
            return None;
        }
        let path = self.ancestors(id);
        proof {
            self.lemma_chain_links(id);
        }
        let root = path[path.len() - 1];
        if self.nodes[root].top_level {
            Some(id)
        } else {
            proof {
                if self.objects@.contains(root) {
                    let k = choose|k: int| 0 <= k < self.objects@.len() && self.objects@[k] == root;
                    assert(self.nodes@[self.objects@[k] as int].top_level);
                }
            }
            None
        }
    }

    /// What `add_object` answers for `group` and `shape`.
    pub open spec fn add_object_result(&self, group: usize, shape: usize) -> Result<(), SceneError> {
        if group >= self.count() || shape >= self.count() {
            Err(SceneError::UnknownShape)
        } else if self.kind_of(group as int) != ShapeKind::Group {
            Err(SceneError::NotAGroup)
        } else if self.parent_of(shape as int) is Some || self.top_level().contains(shape) {
            Err(SceneError::AlreadyPlaced)
        } else if self.root_of(group) == shape {
            Err(SceneError::Cycle)
        } else {
            Ok(())
        }
    }

    /// Makes primitive `shape` the last member of group `group`. The shape
    /// must be free (in no group and not at the top level), and the group must
    /// not be the shape or lie inside it. On an error nothing changes.
    pub fn add_object(&mut self, group: usize, shape: usize) -> (r: Result<(), SceneError>)
        requires
            old(self).wf(),
        ensures
            final(self).wf(),
            r == old(self).add_object_result(group, shape),
            r is Err ==> *final(self) == *old(self),
            final(self).count() == old(self).count(),
            final(self).top_level() == old(self).top_level(),
            forall|i: int| 0 <= i < old(self).count() ==> final(self).kind_of(i) == old(self).kind_of(i),
            r is Ok ==> {
                &&& final(self).parent_of(shape as int) == Some(group)
                &&& final(self).members_of(group as int) == old(self).members_of(group as int).push(
                    shape,
                )
                &&& forall|i: int|
                    0 <= i < old(self).count() && i != shape ==> final(self).parent_of(i) == old(
                        self,
                    ).parent_of(i)
                &&& forall|i: int|
                    0 <= i < old(self).count() && i != group ==> final(self).members_of(i) == old(
                        self,
                    ).members_of(i)
                &&& final(self).chain(shape) == seq![shape] + old(self).chain(group)
                &&& forall|i: usize|
                    i < old(self).count() && !old(self).chain(i).contains(shape) ==> final(self).chain(
                        i,
                    ) == old(self).chain(i)
                &&& forall|i: usize|
                    i < old(self).count() && old(self).chain(i).contains(shape) ==> final(self).chain(
                        i,
                    ) == old(self).chain(i) + old(self).chain(group)
            },
    {
        if group >= self.nodes.len() || shape >= self.nodes.len() {
            return Err(SceneError::UnknownShape);
        }
        match self.nodes[group].kind {
            ShapeKind::Group => {},
            _ => {
                return Err(SceneError::NotAGroup);
            },
        }
        if self.nodes[shape].parent.is_some() || self.nodes[shape].top_level {
            proof {
                if self.objects@.contains(shape) {
                    let k = choose|k: int| 0 <= k < self.objects@.len() && self.objects@[k] == shape;
                    assert(self.nodes@[self.objects@[k] as int].top_level);
                }
            }
            return Err(SceneError::AlreadyPlaced);
        }
        let path = self.ancestors(group);
        proof {
            self.lemma_chain_links(group);
        }
        if path[path.len() - 1] == shape {
            return Err(SceneError::Cycle);
        }
        let ghost before = *self;
        let ghost lift: int = if before.rank@[shape as int] >= before.rank@[group as int] {
            before.rank@[shape as int] - before.rank@[group as int] + 1
        } else {
            0
        };
        self.nodes[shape].parent = Some(group);
        self.nodes[group].members.push(shape);
        proof {
            self.rank@ = Seq::new(
                before.rank@.len(),
                |i: int|
                    if path@.contains(i as usize) {
                        before.rank@[i] + lift
                    } else {
                        before.rank@[i]
                    },
            );
            self.bound@ = before.bound@ + lift;
            let c = before.chain(group);
            // the shape is in no group, so it could only be the end of the chain
            assert(!c.contains(shape)) by {
                if c.contains(shape) {
                    let k = choose|k: int| 0 <= k < c.len() && c[k] == shape;
                    if k < c.len() - 1 {
                        assert(before.parent_of(c[k] as int) == Some(c[k + 1]));
                    }
                }
            }
            assert(c.contains(group)) by {
                assert(c[0] == group);
            }
            assert forall|i: int| 0 <= i < self.nodes@.len() implies (
            #[trigger] self.nodes@[i].parent matches Some(p) ==> {
                &&& p < self.nodes@.len()
                &&& self.nodes@[p as int].kind == ShapeKind::Group
                &&& self.rank@[i] < self.rank@[p as int]
                &&& !self.nodes@[i].top_level
                &&& self.nodes@[p as int].members@.contains(i as usize)
            }) by {
                if i == shape {
                    assert(self.nodes@[group as int].members@.last() == shape);
                } else if let Some(p) = self.nodes@[i].parent {
                    assert(before.nodes@[i].parent == Some(p));
                    if c.contains(i as usize) {
                        let k = choose|k: int| 0 <= k < c.len() && c[k] == i as usize;
                        if k == c.len() - 1 {
                            assert(before.parent_of(before.root_of(group) as int) is None);
                        } else {
                            assert(before.parent_of(c[k] as int) == Some(c[k + 1]));
                            assert(c.contains(p));
                        }
                    }
                    let w = choose|w: int|
                        0 <= w < before.nodes@[p as int].members@.len()
                            && before.nodes@[p as int].members@[w] == i as usize;
                    assert(self.nodes@[p as int].members@[w] == i as usize);
                }
            }
            assert forall|g: int, k: int|
                0 <= g < self.nodes@.len() && 0 <= k < self.nodes@[g].members@.len() implies {
                &&& (#[trigger] self.nodes@[g].members@[k]) < self.nodes@.len()
                &&& self.nodes@[self.nodes@[g].members@[k] as int].parent == Some(g as usize)
            } by {
                if g == group && k == self.nodes@[g].members@.len() - 1 {
                } else {
                    assert(self.nodes@[g].members@[k] == before.nodes@[g].members@[k]);
                    assert(before.nodes@[before.nodes@[g].members@[k] as int].parent == Some(
                        g as usize,
                    ));
                }
            }
            assert forall|g: int| 0 <= g < self.nodes@.len() implies (
            #[trigger] self.nodes@[g].members@).no_duplicates() by {
                assert(before.nodes@[g].members@.no_duplicates());
                if g == group {
                    let m = before.nodes@[g].members@;
                    assert forall|k: int| 0 <= k < m.len() implies m[k] != shape by {
                        assert(before.nodes@[m[k] as int].parent == Some(g as usize));
                    }
                } else {
                    assert(self.nodes@[g].members@ == before.nodes@[g].members@);
                }
            }
            assert forall|k: int| 0 <= k < self.objects@.len() implies {
                &&& (#[trigger] self.objects@[k]) < self.nodes@.len()
                &&& self.nodes@[self.objects@[k] as int].top_level
            } by {
                assert(before.nodes@[before.objects@[k] as int].top_level);
            }
            assert forall|i: int|
                0 <= i < self.nodes@.len() && (#[trigger] self.nodes@[i].top_level)
                implies self.objects@.contains(i as usize) by {
                assert(before.nodes@[i].top_level);
            }
            assert(self.wf());
            assert forall|i: usize|
                i < before.count() && !before.chain(i).contains(shape) implies self.chain(i)
                == before.chain(i) by {
                before.lemma_chain_links(i);
                assert forall|k: int| 0 <= k < before.chain(i).len() implies self.parent_of(
                    (#[trigger] before.chain(i)[k]) as int,
                ) == before.parent_of(before.chain(i)[k] as int) by {
                    assert(before.chain(i).contains(before.chain(i)[k]));
                }
                before.lemma_chain_frame(self, i);
            }
            assert(self.chain(shape) == seq![shape] + self.chain(group));
            assert forall|i: usize|
                i < before.count() && before.chain(i).contains(shape) implies self.chain(i)
                == before.chain(i) + before.chain(group) by {
                before.lemma_chain_extends(self, i, shape, group);
            }
        }
        Ok(())
    }

    /// What `push_object` answers for `shape`.
    pub open spec fn push_object_result(&self, shape: usize) -> Result<(), SceneError> {
        if shape >= self.count() {
            Err(SceneError::UnknownShape)
        } else if self.parent_of(shape as int) is Some || self.top_level().contains(shape) {
            Err(SceneError::AlreadyPlaced)
        } else {
            Ok(())
        }
    }

    /// Places primitive `shape` at the top level, behind those that stand
    /// there. The shape must be free. On an error nothing changes.
    pub fn push_object(&mut self, shape: usize) -> (r: Result<(), SceneError>)
        requires
            old(self).wf(),
        ensures
            final(self).wf(),
            r == old(self).push_object_result(shape),
            r is Err ==> *final(self) == *old(self),
            r is Ok ==> final(self).top_level() == old(self).top_level().push(shape),
            final(self).count() == old(self).count(),
            forall|i: int|
                0 <= i < old(self).count() ==> {
                    &&& final(self).kind_of(i) == old(self).kind_of(i)
                    &&& final(self).parent_of(i) == old(self).parent_of(i)
                    &&& final(self).members_of(i) == old(self).members_of(i)
                },
            forall|i: usize| i < old(self).count() ==> final(self).chain(i) == old(self).chain(i),
    {
        if shape >= self.nodes.len() {
            return Err(SceneError::UnknownShape);
        }
        if self.nodes[shape].parent.is_some() || self.nodes[shape].top_level {
            proof {
                if self.objects@.contains(shape) {
                    let k = choose|k: int| 0 <= k < self.objects@.len() && self.objects@[k] == shape;
                    assert(self.nodes@[self.objects@[k] as int].top_level);
                }
            }
            return Err(SceneError::AlreadyPlaced);
        }
        let ghost before = *self;
        self.nodes[shape].top_level = true;
        self.objects.push(shape);
        proof {
            assert forall|i: int| 0 <= i < self.nodes@.len() implies (
            #[trigger] self.nodes@[i].parent matches Some(p) ==> {
                &&& p < self.nodes@.len()
                &&& self.nodes@[p as int].kind == ShapeKind::Group
                &&& self.rank@[i] < self.rank@[p as int]
                &&& !self.nodes@[i].top_level
                &&& self.nodes@[p as int].members@.contains(i as usize)
            }) by {
                if let Some(p) = self.nodes@[i].parent {
                    assert(before.nodes@[i].parent == Some(p));
                    assert(self.nodes@[p as int].members@ == before.nodes@[p as int].members@);
                }
            }
            assert forall|g: int, k: int|
                0 <= g < self.nodes@.len() && 0 <= k < self.nodes@[g].members@.len() implies {
                &&& (#[trigger] self.nodes@[g].members@[k]) < self.nodes@.len()
                &&& self.nodes@[self.nodes@[g].members@[k] as int].parent == Some(g as usize)
            } by {
                assert(self.nodes@[g].members@[k] == before.nodes@[g].members@[k]);
                assert(before.nodes@[before.nodes@[g].members@[k] as int].parent == Some(
                    g as usize,
                ));
            }
            assert forall|g: int| 0 <= g < self.nodes@.len() implies (
            #[trigger] self.nodes@[g].members@).no_duplicates() by {
                assert(self.nodes@[g].members@ == before.nodes@[g].members@);
            }
            assert forall|k: int| 0 <= k < self.objects@.len() implies {
                &&& (#[trigger] self.objects@[k]) < self.nodes@.len()
                &&& self.nodes@[self.objects@[k] as int].top_level
            } by {
                if k < before.objects@.len() {
                    assert(before.nodes@[before.objects@[k] as int].top_level);
                }
            }
            assert forall|i: int|
                0 <= i < self.nodes@.len() && (#[trigger] self.nodes@[i].top_level)
                implies self.objects@.contains(i as usize) by {
                if i == shape {
                    assert(self.objects@.last() == shape);
                } else {
                    assert(before.nodes@[i].top_level);
                    let k = choose|k: int| 0 <= k < before.objects@.len() && before.objects@[k] == i as usize;
                    assert(self.objects@[k] == i as usize);
                }
            }
            assert(self.wf());
            assert forall|i: usize| i < before.count() implies self.chain(i) == before.chain(i) by {
                before.lemma_chain_links(i);
                before.lemma_chain_frame(self, i);
            }
        }
        Ok(())
    }

    /// Walks through primitive `id` and puts the steps behind those in `out`.
    fn walk(&self, id: usize, out: &mut Vec<Visit>)
        requires
            self.wf(),
            id < self.count(),
        ensures
            final(out)@ == old(out)@ + self.visits_of(id),
        decreases self.height(id),
    {
        match self.nodes[id].kind {
            ShapeKind::Group => {
                out.push(Visit::Enter(id));
                let members = &self.nodes[id].members;
                let mut k: usize = 0;
                while k < members.len()
                    invariant
                        self.wf(),
                        id < self.count(),
                        0 <= k <= members@.len(),
                        members@ == self.members_of(id as int),
                        out@ == old(out)@ + seq![Visit::Enter(id)] + self.visits_of_members(
                            id,
                            k as int,
                        ),
                    decreases members@.len() - k,
                {
                    let ghost before = out@;
                    let member = members[k];
                    proof {
                        assert(self.nodes@[id as int].members@[k as int] == member);
                        assert(self.nodes@[member as int].parent == Some(id));
                    }
                    self.walk(member, out);
                    proof {
                        assert(out@ =~= old(out)@ + seq![Visit::Enter(id)] + (self.visits_of_members(
                            id,
                            k as int,
                        ) + self.visits_of(member)));
                    }
                    k += 1;
                }
                out.push(Visit::Leave(id));
                proof {
                    assert(out@ =~= old(out)@ + (seq![Visit::Enter(id)] + self.visits_of_members(
                        id,
                        members@.len() as int,
                    ) + seq![Visit::Leave(id)]));
                }
            },
            _ => {
                out.push(Visit::Leaf(id));
                proof {
                    assert(out@ =~= old(out)@ + seq![Visit::Leaf(id)]);
                }
            },
        }
    }

    /// The walk through primitive `id` and all that is inside it.
    pub fn visits(&self, id: usize) -> (r: Vec<Visit>)
        requires
            self.wf(),
            id < self.count(),
        ensures
            r@ == self.visits_of(id),
    {
        let mut out: Vec<Visit> = Vec::new();
        self.walk(id, &mut out);
        proof {
            assert(Seq::<Visit>::empty() + self.visits_of(id) =~= self.visits_of(id));
        }
        out
    }

    /// The walk through the whole scene: through the primitives of the top
    /// level, in their order.
    pub fn traversal(&self) -> (r: Vec<Visit>)
        requires
            self.wf(),
        ensures
            r@ == self.visits_of_top_level(self.top_level().len() as int),
    {
        let mut out: Vec<Visit> = Vec::new();
        let mut k: usize = 0;
        while k < self.objects.len()
            invariant
                self.wf(),
                0 <= k <= self.objects@.len(),
                out@ == self.visits_of_top_level(k as int),
            decreases self.objects@.len() - k,
        {
            let object = self.objects[k];
            proof {
                assert(self.objects@[k as int] < self.nodes@.len());
            }
            self.walk(object, &mut out);
            k += 1;
        }
        out
    }
}

} // verus!
