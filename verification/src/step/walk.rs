//! Where the shells of a STEP assembly go.
use std::collections::HashSet;
use vstd::prelude::*;

use super::assembly::{Assembly, ShellRef, Transform};
use super::entity::{Entity, EntityView};
use super::groups::{
    connected, group, group_of, in_groups, is_grouping, law_links_symmetric, law_same_group, Groups,
};
use super::lists::{has_key, lemma_listed_contains, listed};
use super::structure::{accounted_for, graph, places, Graph, Structure};
use crate::sequences::{increasing, lemma_push_contains, sorted_set};

verus! {

/// Assemblies deeper than this are treated as a cycle.
pub const MAX_DEPTH: usize = 64;

/// A shell placed in the model.
pub struct Instance {
    pub shell: ShellRef,
    /// The transforms whose product places the shell, from the outermost assembly inwards.
    pub transforms: Vec<Transform>,
}

/// The model of an `Instance`.
pub struct InstanceView {
    pub shell: ShellRef,
    pub transforms: Seq<Transform>,
}

impl View for Instance {
    type V = InstanceView;

    open spec fn view(&self) -> InstanceView {
        InstanceView { shell: self.shell, transforms: self.transforms@ }
    }
}

/// The models of several instances.
pub open spec fn instances_view(instances: Seq<Instance>) -> Seq<InstanceView> {
    instances.map_values(|i: Instance| i@)
}

// ---------------------------------------------------------------------------
// What is drawn
// ---------------------------------------------------------------------------

/// Shells placed by the same transforms.
pub open spec fn placed_shells(shells: Seq<ShellRef>, transforms: Seq<Transform>) -> Seq<
    InstanceView,
> {
    shells.map_values(|shell: ShellRef| InstanceView { shell, transforms })
}

/// The shells of a group and of all that is placed inside it. Nothing comes from further down
/// than the depth limit.
pub open spec fn visit(
    g: Graph,
    groups: Seq<Seq<u64>>,
    index: int,
    transforms: Seq<Transform>,
    depth: int,
) -> Seq<InstanceView>
    decreases MAX_DEPTH + 1 - depth, 2int, 0int,
{
    if depth > MAX_DEPTH {
        Seq::empty()
    } else {
        visit_reps(g, groups, groups[index], transforms, depth)
    }
}

/// The shells of several representations of a group, and of what they place.
pub open spec fn visit_reps(
    g: Graph,
    groups: Seq<Seq<u64>>,
    reps: Seq<u64>,
    transforms: Seq<Transform>,
    depth: int,
) -> Seq<InstanceView>
    decreases MAX_DEPTH + 1 - depth, 1int, reps.len() as int,
{
    if reps.len() == 0 {
        Seq::empty()
    } else {
        visit_reps(g, groups, reps.drop_last(), transforms, depth) + placed_shells(
            listed(g.shells, reps.last()),
            transforms,
        ) + visit_children(g, groups, listed(g.children, reps.last()), transforms, depth)
    }
}

/// The shells of the groups of several children.
pub open spec fn visit_children(
    g: Graph,
    groups: Seq<Seq<u64>>,
    children: Seq<(u64, Transform)>,
    transforms: Seq<Transform>,
    depth: int,
) -> Seq<InstanceView>
    decreases MAX_DEPTH + 1 - depth, 0int, children.len() as int,
{
    if children.len() == 0 || depth > MAX_DEPTH {
        Seq::empty()
    } else {
        let (child, transform) = children.last();
        visit_children(g, groups, children.drop_last(), transforms, depth) + visit(
            g,
            groups,
            group_of(groups, child),
            transforms.push(transform),
            depth + 1,
        )
    }
}

/// Whether nothing places any representation of a group.
pub open spec fn is_root(g: Graph, group: Seq<u64>) -> bool {
    forall|i: int| 0 <= i < group.len() ==> !g.is_placed(#[trigger] group[i])
}

/// The shells of the first groups that nothing places, and of all that is placed inside them.
pub open spec fn visit_roots(g: Graph, groups: Seq<Seq<u64>>, n: int) -> Seq<InstanceView>
    decreases n,
{
    if n <= 0 {
        Seq::empty()
    } else if is_root(g, groups[n - 1]) {
        visit_roots(g, groups, n - 1) + visit(g, groups, n - 1, Seq::empty(), 0)
    } else {
        visit_roots(g, groups, n - 1)
    }
}

/// Whether an entity is a shell.
pub open spec fn is_shell(e: EntityView) -> bool {
    exists|k: int|
        0 <= k < e.records().len() && ((#[trigger] e.records()[k]).name == "CLOSED_SHELL"@
            || e.records()[k].name == "OPEN_SHELL"@)
}

/// The shells that the assembly structure does not account for, in the order of their ids.
pub open spec fn is_loose(es: Seq<EntityView>, g: Graph, loose: Seq<u64>) -> bool {
    &&& increasing(loose)
    &&& forall|id: u64| #[trigger]
        loose.contains(id) <==> !accounted_for(es, g.marks, id) && exists|i: int|
            0 <= i < es.len() && (#[trigger] es[i]).id() == id && is_shell(es[i])
}

/// A shell drawn where it is.
pub open spec fn in_place(id: u64) -> InstanceView {
    InstanceView { shell: ShellRef { id, reversed: false }, transforms: Seq::empty() }
}

/// Every shell to draw, with the transforms that place it in the model: first those that the
/// assembly structure leads to, then the loose ones where they are.
pub open spec fn is_instances(
    es: Seq<EntityView>,
    singular: Set<u64>,
    instances: Seq<InstanceView>,
) -> bool {
    let g = graph(es, singular, es.len() as int);
    exists|groups: Seq<Seq<u64>>, loose: Seq<u64>|
        {
            &&& #[trigger] is_grouping(g, groups)
            &&& #[trigger] is_loose(es, g, loose)
            &&& instances == visit_roots(g, groups, groups.len() as int) + loose.map_values(
                |id: u64| in_place(id),
            )
        }
}

// ---------------------------------------------------------------------------
// The walk
// ---------------------------------------------------------------------------

/// The transforms of a list and one more.
fn extended(transforms: &Vec<Transform>, last: Option<Transform>) -> (r: Vec<Transform>)
    ensures
        r@ == match last {
            Some(last) => transforms@.push(last),
            None => transforms@,
        },
{
    let mut r: Vec<Transform> = Vec::new();
    for i in 0..transforms.len()
        invariant
            r@ == transforms@.take(i as int),
    {
        r.push(transforms[i]);
        assert(transforms@.take(i + 1) =~= transforms@.take(i as int).push(transforms@[i as int]));
    }
    assert(transforms@.take(transforms@.len() as int) =~= transforms@);
    if let Some(last) = last {
        r.push(last);
    }
    r
}

proof fn lemma_instances_push(instances: Seq<Instance>, one: Instance)
    ensures
        instances_view(instances.push(one)) == instances_view(instances).push(one@),
{
    assert(instances_view(instances.push(one)) =~= instances_view(instances).push(one@));
}

/// The walk down an assembly.
struct Walk<'a> {
    structure: &'a Structure,
    groups: &'a Groups,
}

impl<'a> Walk<'a> {
    spec fn wf(&self, es: Seq<EntityView>, g: Graph) -> bool {
        &&& self.structure.models(es, g)
        &&& self.groups.wf()
        &&& is_grouping(g, self.groups@)
    }

    /// Draws a group and all that is placed inside it.
    fn visit(
        &self,
        Ghost(es): Ghost<Seq<EntityView>>,
        Ghost(g): Ghost<Graph>,
        index: usize,
        transforms: &Vec<Transform>,
        depth: usize,
        instances: &mut Vec<Instance>,
    )
        requires
            self.wf(es, g),
            index < self.groups@.len(),
            depth <= MAX_DEPTH + 1,
        ensures
            instances_view(final(instances)@) == instances_view(old(instances)@) + visit(
                g,
                self.groups@,
                index as int,
                transforms@,
                depth as int,
            ),
        decreases MAX_DEPTH + 1 - depth, 1int,
    {
        let ghost base = instances_view(instances@);
        if depth > MAX_DEPTH {
            assert(base + Seq::<InstanceView>::empty() =~= base);
            return ;
        }
        let group = &self.groups.groups[index];
        assert(group@ == self.groups@[index as int]);
        assert(base + visit_reps(
            g,
            self.groups@,
            group@.take(0),
            transforms@,
            depth as int,
        ) =~= base);
        for i in 0..group.len()
            invariant
                self.wf(es, g),
                depth <= MAX_DEPTH,
                instances_view(instances@) == base + visit_reps(
                    g,
                    self.groups@,
                    group@.take(i as int),
                    transforms@,
                    depth as int,
                ),
        {
            let rep = group[i];
            let ghost reps = group@.take(i + 1);
            assert(reps.drop_last() =~= group@.take(i as int));
            assert(reps.last() == rep);
            let ghost done = instances_view(instances@);
            self.draw_shells(Ghost(es), Ghost(g), rep, transforms, instances);
            let ghost drawn = instances_view(instances@);
            self.visit_children(Ghost(es), Ghost(g), rep, transforms, depth, instances);
            proof {
                let shells = placed_shells(listed(g.shells, rep), transforms@);
                let below = visit_children(
                    g,
                    self.groups@,
                    listed(g.children, rep),
                    transforms@,
                    depth as int,
                );
                let before = visit_reps(
                    g,
                    self.groups@,
                    group@.take(i as int),
                    transforms@,
                    depth as int,
                );
                assert(base + before + shells + below =~= base + (before + shells + below));
            }
        }
        assert(group@.take(group@.len() as int) =~= group@);
    }

    /// Draws the shells of a representation.
    fn draw_shells(
        &self,
        Ghost(es): Ghost<Seq<EntityView>>,
        Ghost(g): Ghost<Graph>,
        rep: u64,
        transforms: &Vec<Transform>,
        instances: &mut Vec<Instance>,
    )
        requires
            self.wf(es, g),
        ensures
            instances_view(final(instances)@) == instances_view(old(instances)@) + placed_shells(
                listed(g.shells, rep),
                transforms@,
            ),
    {
        let ghost base = instances_view(instances@);
        let ghost all = placed_shells(listed(g.shells, rep), transforms@);
        let count = self.structure.shells.count(rep);
        assert(base + all.take(0) =~= base);
        for n in 0..count
            invariant
                self.wf(es, g),
                count == self.structure.shells.at(rep).len(),
                all == placed_shells(listed(g.shells, rep), transforms@),
                instances_view(instances@) == base + all.take(n as int),
        {
            let shell = *self.structure.shells.value(rep, n);
            let instance = Instance { shell, transforms: extended(transforms, None) };
            proof {
                lemma_instances_push(instances@, instance);
                assert(all[n as int] == instance@);
                assert((base + all.take(n as int)).push(instance@) =~= base + all.take(n + 1));
            }
            instances.push(instance);
        }
        assert(all.take(all.len() as int) =~= all);
    }

    /// Draws what a representation places inside it.
    fn visit_children(
        &self,
        Ghost(es): Ghost<Seq<EntityView>>,
        Ghost(g): Ghost<Graph>,
        rep: u64,
        transforms: &Vec<Transform>,
        depth: usize,
        instances: &mut Vec<Instance>,
    )
        requires
            self.wf(es, g),
            depth <= MAX_DEPTH,
        ensures
            instances_view(final(instances)@) == instances_view(old(instances)@) + visit_children(
                g,
                self.groups@,
                listed(g.children, rep),
                transforms@,
                depth as int,
            ),
        decreases MAX_DEPTH + 1 - depth, 0int,
    {
        let ghost base = instances_view(instances@);
        let ghost all = listed(g.children, rep);
        let count = self.structure.children.count(rep);
        assert(base + visit_children(
            g,
            self.groups@,
            all.take(0),
            transforms@,
            depth as int,
        ) =~= base);
        for n in 0..count
            invariant
                self.wf(es, g),
                depth <= MAX_DEPTH,
                count == self.structure.children.at(rep).len(),
                all == listed(g.children, rep),
                instances_view(instances@) == base + visit_children(
                    g,
                    self.groups@,
                    all.take(n as int),
                    transforms@,
                    depth as int,
                ),
        {
            let (child, transform) = *self.structure.children.value(rep, n);
            assert(all[n as int] == (child, transform));
            assert(all.take(n + 1).drop_last() =~= all.take(n as int));
            assert(all.take(n + 1).last() == (child, transform));
            assert(self.groups.group_of@.contains_key(child) && self.groups.group_of@[child]
                == group_of(self.groups@, child)) by {
                assert(all.contains((child, transform)));
                lemma_listed_contains(g.children, rep, (child, transform));
                let j = choose|j: int|
                    0 <= j < g.children.len() && g.children[j] == (rep, (child, transform));
                assert(g.children[j].1.0 == child);
                assert(places(g.children, child));
                assert(g.is_rep(child));
                assert(in_groups(self.groups@, child));
                let k = group_of(self.groups@, child);
                assert(self.groups@[k].contains(child));
                let i = choose|i: int|
                    0 <= i < self.groups@[k].len() && self.groups@[k][i] == child;
                assert(self.groups.group_of@.contains_key(self.groups@[k][i]));
            }
            let ghost before = visit_children(
                g,
                self.groups@,
                all.take(n as int),
                transforms@,
                depth as int,
            );
            if let Some(child_group) = self.groups.group_of.get(&child) {
                let child_group = *child_group;
                let child_transforms = extended(transforms, Some(transform));
                self.visit(
                    Ghost(es),
                    Ghost(g),
                    child_group,
                    &child_transforms,
                    depth + 1,
                    instances,
                );
                proof {
                    let below = visit(
                        g,
                        self.groups@,
                        child_group as int,
                        child_transforms@,
                        depth + 1,
                    );
                    assert(base + before + below =~= base + (before + below));
                }
            }
        }
        assert(all.take(all.len() as int) =~= all);
    }

    /// Whether nothing places any representation of a group.
    fn is_root(
        &self,
        Ghost(es): Ghost<Seq<EntityView>>,
        Ghost(g): Ghost<Graph>,
        index: usize,
    ) -> (r: bool)
        requires
            self.wf(es, g),
            index < self.groups@.len(),
        ensures
            r == is_root(g, self.groups@[index as int]),
    {
        let group = &self.groups.groups[index];
        assert(group@ == self.groups@[index as int]);
        for i in 0..group.len()
            invariant
                self.wf(es, g),
                group@ == self.groups@[index as int],
                forall|j: int| 0 <= j < i ==> !g.is_placed(#[trigger] group@[j]),
        {
            if self.structure.placed.contains(&group[i]) {
                assert(g.is_placed(group@[i as int]));
                return false;
            }
        }
        true
    }
}

/// Whether an entity is a shell.
fn shell_entity(e: &Entity) -> (r: bool)
    ensures
        r == is_shell(e@),
{
    let count = e.record_count();
    for k in 0..count
        invariant
            count == e@.records().len(),
            forall|j: int|
                0 <= j < k ==> (#[trigger] e@.records()[j]).name != "CLOSED_SHELL"@
                    && e@.records()[j].name != "OPEN_SHELL"@,
    {
        let record = e.record_at(k);
        if record.is_named("CLOSED_SHELL") || record.is_named("OPEN_SHELL") {
            assert(is_shell(e@)) by {
                assert(e@.records()[k as int].name == record@.name);
            }
            return true;
        }
    }
    false
}

impl Assembly {
    /// The shells that the assembly structure does not account for, in the order of their ids.
    fn loose(&self, Ghost(g): Ghost<Graph>, known: &HashSet<u64>) -> (r: Vec<u64>)
        requires
            self.wf(),
            forall|id: u64| #[trigger]
                known@.contains(id) <==> accounted_for(self@, g.marks, id),
        ensures
            is_loose(self@, g, r@),
    {
        let mut ids: Vec<u64> = Vec::new();
        let count = self.count();
        for i in 0..count
            invariant
                self.wf(),
                count == self@.len(),
                forall|id: u64| #[trigger]
                    known@.contains(id) <==> accounted_for(self@, g.marks, id),
                forall|id: u64| #[trigger]
                    ids@.contains(id) <==> !accounted_for(self@, g.marks, id) && exists|k: int|
                        0 <= k < i && (#[trigger] self@[k]).id() == id && is_shell(self@[k]),
        {
            let e = self.nth(i);
            let id = e.id();
            let ghost before = ids@;
            let loose = !known.contains(&id) && shell_entity(e);
            if loose {
                ids.push(id);
            }
            assert forall|x: u64| #[trigger] ids@.contains(x) <==> !accounted_for(
                self@,
                g.marks,
                x,
            ) && exists|k: int|
                0 <= k < i + 1 && (#[trigger] self@[k]).id() == x && is_shell(self@[k]) by {
                lemma_push_contains(before, id, x);
                assert(known@.contains(x) <==> accounted_for(self@, g.marks, x));
                assert(before.contains(x) <==> !accounted_for(self@, g.marks, x) && exists|k: int|
                    0 <= k < i && (#[trigger] self@[k]).id() == x && is_shell(self@[k]));
                if before.contains(x) {
                    let k = choose|k: int|
                        0 <= k < i && (#[trigger] self@[k]).id() == x && is_shell(self@[k]);
                    assert(self@[k].id() == x);
                }
                if x == id {
                    assert(self@[i as int].id() == x);
                }
                if exists|k: int|
                    0 <= k < i + 1 && (#[trigger] self@[k]).id() == x && is_shell(self@[k]) {
                    let k = choose|k: int|
                        0 <= k < i + 1 && (#[trigger] self@[k]).id() == x && is_shell(self@[k]);
                    if k < i {
                        assert(self@[k].id() == x);
                    }
                }
            }
        }
        let r = sorted_set(ids);
        assert forall|id: u64| #[trigger] r@.contains(id) <==> !accounted_for(self@, g.marks, id)
            && exists|i: int| 0 <= i < self@.len() && (#[trigger] self@[i]).id() == id && is_shell(
            self@[i],
        ) by {
            assert(r@.contains(id) <==> ids@.contains(id));
        }
        r
    }

    /// Every shell to draw, with the transforms that place it in the model. The placements in
    /// `singular` have no inverse.
    pub fn shell_instances(&self, singular: &HashSet<u64>) -> (r: Vec<Instance>)
        requires
            self.wf(),
        ensures
            is_instances(self@, singular@, instances_view(r@)),
    {
        let ghost g = graph(self@, singular@, self@.len() as int);
        let structure = self.structure(singular);
        proof {
            law_links_symmetric(self@, singular@, self@.len() as int);
        }
        let groups = group(&structure, Ghost(self@), Ghost(g));
        let walk = Walk { structure: &structure, groups: &groups };
        let mut instances: Vec<Instance> = Vec::new();
        assert(instances_view(instances@) =~= Seq::empty());
        let empty: Vec<Transform> = Vec::new();
        let count = groups.groups.len();
        for index in 0..count
            invariant
                walk.wf(self@, g),
                walk.groups@ == groups@,
                count == groups@.len(),
                empty@ == Seq::<Transform>::empty(),
                instances_view(instances@) == visit_roots(g, groups@, index as int),
        {
            if walk.is_root(Ghost(self@), Ghost(g), index) {
                walk.visit(Ghost(self@), Ghost(g), index, &empty, 0, &mut instances);
            }
        }
        let loose = self.loose(Ghost(g), &structure.known);
        let ghost placed = instances_view(instances@);
        let ghost all = loose@.map_values(|id: u64| in_place(id));
        assert(placed + all.take(0) =~= placed);
        for i in 0..loose.len()
            invariant
                all == loose@.map_values(|id: u64| in_place(id)),
                instances_view(instances@) == placed + all.take(i as int),
        {
            let instance = Instance {
                shell: ShellRef { id: loose[i], reversed: false },
                transforms: Vec::new(),
            };
            proof {
                lemma_instances_push(instances@, instance);
                assert(instance@.transforms =~= Seq::empty());
                assert(all[i as int] == instance@);
                assert((placed + all.take(i as int)).push(instance@) =~= placed + all.take(i + 1));
            }
            instances.push(instance);
        }
        assert(all.take(all.len() as int) =~= all);
        assert(is_grouping(g, groups@) && is_loose(self@, g, loose@));
        instances
    }
}

/// Whether some instance draws the shell with an id.
pub open spec fn is_drawn(instances: Seq<Instance>, id: u64) -> bool {
    exists|i: int| 0 <= i < instances.len() && (#[trigger] instances[i]).shell.id == id
}

/// The shells of some instances in the order of their ids, each of them once.
pub fn shell_ids(instances: &Vec<Instance>) -> (r: Vec<u64>)
    ensures
        increasing(r@),
        forall|id: u64| #[trigger]
            r@.contains(id) <==> exists|i: int|
                0 <= i < instances@.len() && (#[trigger] instances@[i]).shell.id == id,
        forall|id: u64| #[trigger] r@.contains(id) <==> is_drawn(instances@, id),
{
    let mut ids: Vec<u64> = Vec::new();
    for i in 0..instances.len()
        invariant
            ids@.len() == i,
            forall|k: int| 0 <= k < i ==> #[trigger] ids@[k] == instances@[k].shell.id,
    {
        ids.push(instances[i].shell.id);
    }
    let r = sorted_set(ids);
    assert forall|id: u64| #[trigger] r@.contains(id) <==> exists|i: int|
        0 <= i < instances@.len() && (#[trigger] instances@[i]).shell.id == id by {
        assert(r@.contains(id) <==> ids@.contains(id));
        if ids@.contains(id) {
            let k = choose|k: int| 0 <= k < ids@.len() && ids@[k] == id;
            assert(instances@[k].shell.id == id);
        }
        if exists|i: int| 0 <= i < instances@.len() && (#[trigger] instances@[i]).shell.id == id {
            let k = choose|k: int|
                0 <= k < instances@.len() && (#[trigger] instances@[k]).shell.id == id;
            assert(ids@[k] == id);
        }
    }
    r
}

// ---------------------------------------------------------------------------
// Laws
// ---------------------------------------------------------------------------

/// No shell is lost: one that the assembly structure does not account for is drawn where it is.
pub proof fn law_no_shell_lost(
    es: Seq<EntityView>,
    singular: Set<u64>,
    instances: Seq<InstanceView>,
    i: int,
)
    requires
        is_instances(es, singular, instances),
        0 <= i < es.len(),
        is_shell(es[i]),
    ensures
        accounted_for(es, graph(es, singular, es.len() as int).marks, es[i].id())
            || instances.contains(in_place(es[i].id())),
{
    let g = graph(es, singular, es.len() as int);
    let id = es[i].id();
    if !accounted_for(es, g.marks, id) {
        let (groups, loose) = choose|groups: Seq<Seq<u64>>, loose: Seq<u64>|
            {
                &&& #[trigger] is_grouping(g, groups)
                &&& #[trigger] is_loose(es, g, loose)
                &&& instances == visit_roots(g, groups, groups.len() as int) + loose.map_values(
                    |id: u64| in_place(id),
                )
            };
        assert(loose.contains(id));
        let k = choose|k: int| 0 <= k < loose.len() && loose[k] == id;
        let n = visit_roots(g, groups, groups.len() as int).len() as int;
        assert(instances[n + k] == in_place(id));
    }
}

/// A representation that nothing places, neither itself nor by way of one that shares its
/// coordinate system, has its shells drawn where they are.
pub proof fn law_root_shells_drawn(
    es: Seq<EntityView>,
    singular: Set<u64>,
    instances: Seq<InstanceView>,
    rep: u64,
    shell: ShellRef,
)
    requires
        is_instances(es, singular, instances),
        graph(es, singular, es.len() as int).shells.contains((rep, shell)),
        forall|other: u64|
            connected(graph(es, singular, es.len() as int), rep, other) ==> !#[trigger] graph(
                es,
                singular,
                es.len() as int,
            ).is_placed(other),
    ensures
        instances.contains(InstanceView { shell, transforms: Seq::empty() }),
{
    let g = graph(es, singular, es.len() as int);
    law_links_symmetric(es, singular, es.len() as int);
    let (groups, loose) = choose|groups: Seq<Seq<u64>>, loose: Seq<u64>|
        {
            &&& #[trigger] is_grouping(g, groups)
            &&& #[trigger] is_loose(es, g, loose)
            &&& instances == visit_roots(g, groups, groups.len() as int) + loose.map_values(
                |id: u64| in_place(id),
            )
        };
    let e = choose|e: int| 0 <= e < g.shells.len() && g.shells[e] == (rep, shell);
    assert(g.shells[e].0 == rep);
    assert(has_key(g.shells, rep));
    assert(g.is_rep(rep));
    assert(in_groups(groups, rep));
    let k = group_of(groups, rep);
    let group = groups[k];
    assert(group.contains(rep));
    assert(is_root(g, group)) by {
        assert forall|i: int| 0 <= i < group.len() implies !g.is_placed(#[trigger] group[i]) by {
            law_same_group(g, groups, rep, group[i]);
            assert(group.contains(group[i]));
        }
    }
    let drawn = InstanceView { shell, transforms: Seq::<Transform>::empty() };
    let n = choose|n: int| 0 <= n < group.len() && group[n] == rep;
    lemma_listed_contains(g.shells, rep, shell);
    assert(group.take(group.len() as int) =~= group);
    lemma_visit_reps_shells(g, groups, group, n, group.len() as int, Seq::empty(), 0, shell);
    lemma_visit_roots_contains(g, groups, k, groups.len() as int, drawn);
    let i = choose|i: int|
        0 <= i < visit_roots(g, groups, groups.len() as int).len() && visit_roots(
            g,
            groups,
            groups.len() as int,
        )[i] == drawn;
    assert(instances[i] == drawn);
}

proof fn lemma_visit_reps_shells(
    g: Graph,
    groups: Seq<Seq<u64>>,
    group: Seq<u64>,
    n: int,
    m: int,
    transforms: Seq<Transform>,
    depth: int,
    shell: ShellRef,
)
    requires
        0 <= n < m <= group.len(),
        listed(g.shells, group[n]).contains(shell),
    ensures
        visit_reps(g, groups, group.take(m), transforms, depth).contains(
            (InstanceView { shell, transforms }),
        ),
    decreases m,
{
    let reps = group.take(m);
    let all = visit_reps(g, groups, reps, transforms, depth);
    let drawn = InstanceView { shell, transforms };
    let before = visit_reps(g, groups, reps.drop_last(), transforms, depth);
    assert(reps.drop_last() =~= group.take(m - 1));
    if n < m - 1 {
        lemma_visit_reps_shells(g, groups, group, n, m - 1, transforms, depth, shell);
        let i = choose|i: int| 0 <= i < before.len() && before[i] == drawn;
        assert(all[i] == drawn);
    } else {
        let shells = listed(g.shells, group[n]);
        let j = choose|j: int| 0 <= j < shells.len() && shells[j] == shell;
        assert(placed_shells(shells, transforms)[j] == drawn);
        assert(all[before.len() + j] == drawn);
    }
}

proof fn lemma_visit_roots_contains(
    g: Graph,
    groups: Seq<Seq<u64>>,
    k: int,
    n: int,
    drawn: InstanceView,
)
    requires
        0 <= k < n <= groups.len(),
        is_root(g, groups[k]),
        visit(g, groups, k, Seq::empty(), 0).contains(drawn),
    ensures
        visit_roots(g, groups, n).contains(drawn),
    decreases n,
{
    let before = visit_roots(g, groups, n - 1);
    let all = visit_roots(g, groups, n);
    if k < n - 1 {
        lemma_visit_roots_contains(g, groups, k, n - 1, drawn);
        let i = choose|i: int| 0 <= i < before.len() && before[i] == drawn;
        assert(all[i] == drawn);
    } else {
        let own = visit(g, groups, k, Seq::empty(), 0);
        let i = choose|i: int| 0 <= i < own.len() && own[i] == drawn;
        assert(all[before.len() + i] == drawn);
    }
}

/// A representation that another one places inside it has its shells drawn, placed by one more
/// transform, wherever the other one is drawn above the depth limit.
pub proof fn law_child_shells_drawn(
    g: Graph,
    groups: Seq<Seq<u64>>,
    index: int,
    transforms: Seq<Transform>,
    depth: int,
    rep: u64,
    child: u64,
    transform: Transform,
    shell: ShellRef,
)
    requires
        is_grouping(g, groups),
        0 <= index < groups.len(),
        depth < MAX_DEPTH,
        groups[index].contains(rep),
        g.children.contains((rep, (child, transform))),
        g.shells.contains((child, shell)),
    ensures
        visit(g, groups, index, transforms, depth).contains(
            (InstanceView { shell, transforms: transforms.push(transform) }),
        ),
{
    let drawn = InstanceView { shell, transforms: transforms.push(transform) };
    let group = groups[index];
    // The child is in a group, where it is drawn.
    let e = choose|e: int| 0 <= e < g.shells.len() && g.shells[e] == (child, shell);
    assert(g.shells[e].0 == child);
    assert(has_key(g.shells, child));
    assert(g.is_rep(child));
    assert(in_groups(groups, child));
    let inner = groups[group_of(groups, child)];
    assert(inner.contains(child));
    let m = choose|m: int| 0 <= m < inner.len() && inner[m] == child;
    lemma_listed_contains(g.shells, child, shell);
    assert(inner.take(inner.len() as int) =~= inner);
    lemma_visit_reps_shells(
        g,
        groups,
        inner,
        m,
        inner.len() as int,
        transforms.push(transform),
        depth + 1,
        shell,
    );
    assert(visit(
        g,
        groups,
        group_of(groups, child),
        transforms.push(transform),
        depth + 1,
    ).contains(drawn));
    // The group of the representation leads there.
    lemma_listed_contains(g.children, rep, (child, transform));
    let children = listed(g.children, rep);
    let c = choose|c: int| 0 <= c < children.len() && children[c] == (child, transform);
    assert(children.take(children.len() as int) =~= children);
    lemma_visit_children_contains(
        g,
        groups,
        children,
        c,
        children.len() as int,
        transforms,
        depth,
        drawn,
    );
    let n = choose|n: int| 0 <= n < group.len() && group[n] == rep;
    assert(group.take(group.len() as int) =~= group);
    lemma_visit_reps_children(g, groups, group, n, group.len() as int, transforms, depth, drawn);
}

proof fn lemma_visit_children_contains(
    g: Graph,
    groups: Seq<Seq<u64>>,
    children: Seq<(u64, Transform)>,
    c: int,
    n: int,
    transforms: Seq<Transform>,
    depth: int,
    drawn: InstanceView,
)
    requires
        depth <= MAX_DEPTH,
        0 <= c < n <= children.len(),
        visit(
            g,
            groups,
            group_of(groups, children[c].0),
            transforms.push(children[c].1),
            depth + 1,
        ).contains(drawn),
    ensures
        visit_children(g, groups, children.take(n), transforms, depth).contains(drawn),
    decreases n,
{
    let taken = children.take(n);
    assert(taken.drop_last() =~= children.take(n - 1));
    assert(taken.last() == children[n - 1]);
    let before = visit_children(g, groups, children.take(n - 1), transforms, depth);
    let all = visit_children(g, groups, taken, transforms, depth);
    if c < n - 1 {
        lemma_visit_children_contains(g, groups, children, c, n - 1, transforms, depth, drawn);
        let k = choose|k: int| 0 <= k < before.len() && before[k] == drawn;
        assert(all[k] == drawn);
    } else {
        let own = visit(
            g,
            groups,
            group_of(groups, children[c].0),
            transforms.push(children[c].1),
            depth + 1,
        );
        let k = choose|k: int| 0 <= k < own.len() && own[k] == drawn;
        assert(all[before.len() + k] == drawn);
    }
}

proof fn lemma_visit_reps_children(
    g: Graph,
    groups: Seq<Seq<u64>>,
    group: Seq<u64>,
    n: int,
    m: int,
    transforms: Seq<Transform>,
    depth: int,
    drawn: InstanceView,
)
    requires
        0 <= n < m <= group.len(),
        visit_children(g, groups, listed(g.children, group[n]), transforms, depth).contains(drawn),
    ensures
        visit_reps(g, groups, group.take(m), transforms, depth).contains(drawn),
    decreases m,
{
    let reps = group.take(m);
    assert(reps.drop_last() =~= group.take(m - 1));
    assert(reps.last() == group[m - 1]);
    let before = visit_reps(g, groups, reps.drop_last(), transforms, depth);
    let all = visit_reps(g, groups, reps, transforms, depth);
    if n < m - 1 {
        lemma_visit_reps_children(g, groups, group, n, m - 1, transforms, depth, drawn);
        let k = choose|k: int| 0 <= k < before.len() && before[k] == drawn;
        assert(all[k] == drawn);
    } else {
        let shells = placed_shells(listed(g.shells, group[n]), transforms);
        let below = visit_children(g, groups, listed(g.children, group[n]), transforms, depth);
        let k = choose|k: int| 0 <= k < below.len() && below[k] == drawn;
        assert(all[before.len() + shells.len() + k] == drawn);
    }
}

/// However an assembly places its parts, cycles included, no shell is placed by more
/// transforms than the depth limit.
pub proof fn law_depth_limited(
    es: Seq<EntityView>,
    singular: Set<u64>,
    instances: Seq<InstanceView>,
    i: int,
)
    requires
        is_instances(es, singular, instances),
        0 <= i < instances.len(),
    ensures
        instances[i].transforms.len() <= MAX_DEPTH,
{
    let g = graph(es, singular, es.len() as int);
    let (groups, loose) = choose|groups: Seq<Seq<u64>>, loose: Seq<u64>|
        {
            &&& #[trigger] is_grouping(g, groups)
            &&& #[trigger] is_loose(es, g, loose)
            &&& instances == visit_roots(g, groups, groups.len() as int) + loose.map_values(
                |id: u64| in_place(id),
            )
        };
    lemma_roots_depth(g, groups, groups.len() as int);
}

/// Every instance has at most as many transforms as the depth limit.
spec fn limited(instances: Seq<InstanceView>) -> bool {
    forall|i: int|
        0 <= i < instances.len() ==> (#[trigger] instances[i]).transforms.len() <= MAX_DEPTH
}

proof fn lemma_roots_depth(g: Graph, groups: Seq<Seq<u64>>, n: int)
    ensures
        limited(visit_roots(g, groups, n)),
    decreases n,
{
    if n > 0 {
        lemma_roots_depth(g, groups, n - 1);
        lemma_visit_depth(g, groups, n - 1, Seq::empty(), 0);
    }
}

proof fn lemma_visit_depth(
    g: Graph,
    groups: Seq<Seq<u64>>,
    index: int,
    transforms: Seq<Transform>,
    depth: int,
)
    requires
        transforms.len() == depth,
    ensures
        limited(visit(g, groups, index, transforms, depth)),
    decreases MAX_DEPTH + 1 - depth, 2int, 0int,
{
    if depth <= MAX_DEPTH {
        lemma_visit_reps_depth(g, groups, groups[index], transforms, depth);
    }
}

proof fn lemma_visit_reps_depth(
    g: Graph,
    groups: Seq<Seq<u64>>,
    reps: Seq<u64>,
    transforms: Seq<Transform>,
    depth: int,
)
    requires
        transforms.len() == depth,
        depth <= MAX_DEPTH,
    ensures
        limited(visit_reps(g, groups, reps, transforms, depth)),
    decreases MAX_DEPTH + 1 - depth, 1int, reps.len() as int,
{
    if reps.len() > 0 {
        lemma_visit_reps_depth(g, groups, reps.drop_last(), transforms, depth);
        lemma_visit_children_depth(
            g,
            groups,
            listed(g.children, reps.last()),
            transforms,
            depth,
        );
    }
}

proof fn lemma_visit_children_depth(
    g: Graph,
    groups: Seq<Seq<u64>>,
    children: Seq<(u64, Transform)>,
    transforms: Seq<Transform>,
    depth: int,
)
    requires
        transforms.len() == depth,
    ensures
        limited(visit_children(g, groups, children, transforms, depth)),
    decreases MAX_DEPTH + 1 - depth, 0int, children.len() as int,
{
    if children.len() > 0 && depth <= MAX_DEPTH {
        let (child, transform) = children.last();
        lemma_visit_children_depth(g, groups, children.drop_last(), transforms, depth);
        lemma_visit_depth(
            g,
            groups,
            group_of(groups, child),
            transforms.push(transform),
            depth + 1,
        );
    }
}

} // verus!
