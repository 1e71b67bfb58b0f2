//! What holds of the shells that an assembly draws.
use vstd::prelude::*;

use super::assembly::{ShellRef, Transform};
use super::entity::EntityView;
use super::groups::{
    connected, group_of, in_groups, is_group, is_grouping, is_path, law_links_symmetric,
    law_same_group, linked,
};
use super::lists::{has_key, listed};
use super::structure::{accounted_for, graph, places, Graph};
use super::walk::{
    in_place, is_instances, is_loose, is_shell, placed_shells, visit, visit_children, visit_reps,
    visit_roots, InstanceView,
};

verus! {

// ---------------------------------------------------------------------------
// Lists
// ---------------------------------------------------------------------------

/// The values of a key are those of the entries with that key, in order.
pub proof fn law_listed<T>(a: Seq<(u64, T)>, b: Seq<(u64, T)>, key: u64, entry: (u64, T))
    ensures
        listed(a + b, key) == listed(a, key) + listed(b, key),
        listed(seq![entry], key) == if entry.0 == key {
            seq![entry.1]
        } else {
            Seq::<T>::empty()
        },
        listed(Seq::<(u64, T)>::empty(), key) == Seq::<T>::empty(),
    decreases b.len(),
{
    reveal_with_fuel(listed, 2);
    assert(seq![entry].drop_last() =~= Seq::empty());
    if entry.0 == key {
        assert(listed(seq![entry], key) =~= seq![entry.1]);
    }
    if b.len() == 0 {
        assert(a + b =~= a);
        assert(listed(a, key) + listed(b, key) =~= listed(a, key));
    } else {
        law_listed(a, b.drop_last(), key, entry);
        assert((a + b).drop_last() =~= a + b.drop_last());
        assert((a + b).last() == b.last());
        assert(listed(a + b, key) =~= listed(a, key) + listed(b, key));
    }
}

// ---------------------------------------------------------------------------
// Groups
// ---------------------------------------------------------------------------

/// Whether a chain of links leads from one representation to another.
pub open spec fn is_chain(g: Graph, chain: Seq<u64>, a: u64, b: u64) -> bool {
    &&& chain.len() > 0
    &&& chain[0] == a
    &&& chain[chain.len() - 1] == b
    &&& forall|i: int|
        0 < i < chain.len() ==> g.links.contains((chain[i - 1], #[trigger] chain[i]))
}

/// Whether links connect two representations.
pub open spec fn are_joined(g: Graph, a: u64, b: u64) -> bool {
    exists|chain: Seq<u64>| #[trigger] is_chain(g, chain, a, b)
}

proof fn lemma_joined(g: Graph, a: u64, b: u64)
    ensures
        connected(g, a, b) <==> are_joined(g, a, b),
{
    if connected(g, a, b) {
        let path = choose|path: Seq<u64>| is_path(g, path, a, b);
        assert forall|i: int| 0 < i < path.len() implies g.links.contains(
            (path[i - 1], #[trigger] path[i]),
        ) by {
            assert(linked(g, path[i - 1], path[i]));
        }
        assert(is_chain(g, path, a, b));
    }
    if are_joined(g, a, b) {
        let chain = choose|chain: Seq<u64>| #[trigger] is_chain(g, chain, a, b);
        assert forall|i: int| #![trigger chain[i]] 0 < i < chain.len() implies linked(
            g,
            chain[i - 1],
            chain[i],
        ) by {
        }
        assert(is_path(g, chain, a, b));
    }
}

/// Whether a number occurs in a graph as a representation: at either end of a link, as a parent or
/// a child, or with a shell.
pub open spec fn occurs_as_rep(g: Graph, rep: u64) -> bool {
    ||| exists|i: int| 0 <= i < g.links.len() && (#[trigger] g.links[i]).0 == rep
    ||| exists|i: int|
        0 <= i < g.children.len() && ((#[trigger] g.children[i]).0 == rep || g.children[i].1.0
            == rep)
    ||| exists|i: int| 0 <= i < g.shells.len() && (#[trigger] g.shells[i]).0 == rep
}

proof fn lemma_occurs(g: Graph, rep: u64)
    ensures
        g.is_rep(rep) <==> occurs_as_rep(g, rep),
{
    if has_key(g.children, rep) {
        let i = choose|i: int| 0 <= i < g.children.len() && (#[trigger] g.children[i]).0 == rep;
        assert(g.children[i].0 == rep);
    }
    if places(g.children, rep) {
        let i = choose|i: int| 0 <= i < g.children.len() && (#[trigger] g.children[i]).1.0 == rep;
        assert(g.children[i].1.0 == rep);
    }
}

/// Every representation is in exactly one group, once. Two of them are in the same group if and
/// only if links connect them. A group starts with its smallest representation, and the groups are
/// in the order of those.
pub proof fn law_groups(
    es: Seq<EntityView>,
    singular: Set<u64>,
    groups: Seq<Seq<u64>>,
    a: u64,
    b: u64,
    k: int,
    l: int,
)
    requires
        is_grouping(graph(es, singular, es.len() as int), groups),
        0 <= k < groups.len(),
        0 <= l < groups.len(),
    ensures
        ({
            let g = graph(es, singular, es.len() as int);
            &&& occurs_as_rep(g, a) <==> exists|k: int|
                0 <= k < groups.len() && (#[trigger] groups[k]).contains(a)
            &&& groups[k].contains(a) && groups[l].contains(b) ==> (k == l <==> are_joined(g, a, b))
            &&& groups[k].len() > 0
            &&& groups[k].no_duplicates()
            &&& groups[k].contains(a) ==> groups[k][0] <= a
            &&& k < l ==> groups[k][0] < groups[l][0]
        }),
{
    let g = graph(es, singular, es.len() as int);
    law_links_symmetric(es, singular, es.len() as int);
    lemma_occurs(g, a);
    assert(is_group(g, groups[k]));
    if groups[k].contains(a) {
        lemma_group_of(g, groups, a, k);
        assert(in_groups(groups, a));
        assert(g.is_rep(a));
        law_same_group(g, groups, a, b);
        lemma_joined(g, a, b);
        if groups[l].contains(b) {
            if groups[k].contains(b) {
                let i = choose|i: int| 0 <= i < groups[k].len() && groups[k][i] == b;
                let j = choose|j: int| 0 <= j < groups[l].len() && groups[l][j] == b;
                assert(groups[k][i] == groups[l][j]);
            }
        }
    }
    assert(groups[k].no_duplicates()) by {
        assert forall|i: int, j: int|
            0 <= i < groups[k].len() && 0 <= j < groups[k].len() && i != j implies groups[k][i]
            != groups[k][j] by {
            if groups[k][i] == groups[k][j] {
                assert(groups[k][i] == groups[k][j]);
            }
        }
    }
}

proof fn lemma_group_of(g: Graph, groups: Seq<Seq<u64>>, rep: u64, k: int)
    requires
        is_grouping(g, groups),
        0 <= k < groups.len(),
        groups[k].contains(rep),
    ensures
        group_of(groups, rep) == k,
{
    let l = group_of(groups, rep);
    assert(0 <= l < groups.len() && groups[l].contains(rep));
    let i = choose|i: int| 0 <= i < groups[k].len() && groups[k][i] == rep;
    let j = choose|j: int| 0 <= j < groups[l].len() && groups[l][j] == rep;
    assert(groups[k][i] == groups[l][j]);
}

// ---------------------------------------------------------------------------
// Walking
// ---------------------------------------------------------------------------

/// Whether parts are what the children of a representation draw: each the group that it is in, one
/// level deeper, with the child's transform behind those that lead to the representation.
pub open spec fn are_below(
    g: Graph,
    groups: Seq<Seq<u64>>,
    children: Seq<(u64, Transform)>,
    transforms: Seq<Transform>,
    depth: int,
    at: Seq<int>,
    below: Seq<Seq<InstanceView>>,
) -> bool {
    &&& at.len() == children.len()
    &&& below.len() == children.len()
    &&& forall|c: int|
        0 <= c < children.len() ==> {
            &&& 0 <= #[trigger] at[c] < groups.len()
            &&& groups[at[c]].contains(children[c].0)
            &&& below[c] == visit(g, groups, at[c], transforms.push(children[c].1), depth + 1)
        }
}

proof fn lemma_below(
    g: Graph,
    groups: Seq<Seq<u64>>,
    children: Seq<(u64, Transform)>,
    transforms: Seq<Transform>,
    depth: int,
    at: Seq<int>,
    below: Seq<Seq<InstanceView>>,
)
    requires
        is_grouping(g, groups),
        depth <= 64,
        are_below(g, groups, children, transforms, depth, at, below),
    ensures
        visit_children(g, groups, children, transforms, depth) == below.flatten_alt(),
    decreases children.len(),
{
    if children.len() > 0 {
        let n = children.len() - 1;
        let rest = children.drop_last();
        let rest_at = at.drop_last();
        let rest_below = below.drop_last();
        assert forall|c: int| 0 <= c < rest.len() implies {
            &&& 0 <= #[trigger] rest_at[c] < groups.len()
            &&& groups[rest_at[c]].contains(rest[c].0)
            &&& rest_below[c] == visit(
                g,
                groups,
                rest_at[c],
                transforms.push(rest[c].1),
                depth + 1,
            )
        } by {
            assert(rest_at[c] == at[c]);
        }
        lemma_below(g, groups, rest, transforms, depth, rest_at, rest_below);
        assert(0 <= at[n] < groups.len());
        lemma_group_of(g, groups, children[n].0, at[n]);
        assert(below.last() == below[n]);
    }
}

/// Whether a part is what a representation draws: its shells in order, where the transforms place
/// them, and behind them what its children draw, one after the other.
pub open spec fn is_drawn(
    g: Graph,
    groups: Seq<Seq<u64>>,
    rep: u64,
    transforms: Seq<Transform>,
    depth: int,
    part: Seq<InstanceView>,
) -> bool {
    let shells = listed(g.shells, rep);
    exists|at: Seq<int>, below: Seq<Seq<InstanceView>>|
        {
            &&& #[trigger] are_below(
                g,
                groups,
                listed(g.children, rep),
                transforms,
                depth,
                at,
                below,
            )
            &&& part == Seq::new(
                shells.len(),
                |s: int| InstanceView { shell: shells[s], transforms },
            ) + below.flatten_alt()
        }
}

/// A group draws what each of its representations draws, in order. Below 64 levels nothing is
/// drawn any more.
pub proof fn law_visit(
    g: Graph,
    groups: Seq<Seq<u64>>,
    index: int,
    transforms: Seq<Transform>,
    depth: int,
    parts: Seq<Seq<InstanceView>>,
)
    requires
        is_grouping(g, groups),
    ensures
        depth > 64 ==> visit(g, groups, index, transforms, depth).len() == 0,
        depth <= 64 && parts.len() == groups[index].len() && (forall|i: int|
            0 <= i < parts.len() ==> is_drawn(
                g,
                groups,
                groups[index][i],
                transforms,
                depth,
                #[trigger] parts[i],
            )) ==> visit(g, groups, index, transforms, depth) == parts.flatten_alt(),
{
    if depth <= 64 && parts.len() == groups[index].len() && (forall|i: int|
        0 <= i < parts.len() ==> is_drawn(
            g,
            groups,
            groups[index][i],
            transforms,
            depth,
            #[trigger] parts[i],
        )) {
        lemma_reps(g, groups, groups[index], transforms, depth, parts);
    }
}

proof fn lemma_reps(
    g: Graph,
    groups: Seq<Seq<u64>>,
    reps: Seq<u64>,
    transforms: Seq<Transform>,
    depth: int,
    parts: Seq<Seq<InstanceView>>,
)
    requires
        is_grouping(g, groups),
        depth <= 64,
        parts.len() == reps.len(),
        forall|i: int|
            0 <= i < parts.len() ==> is_drawn(
                g,
                groups,
                reps[i],
                transforms,
                depth,
                #[trigger] parts[i],
            ),
    ensures
        visit_reps(g, groups, reps, transforms, depth) == parts.flatten_alt(),
    decreases reps.len(),
{
    if reps.len() > 0 {
        let n = reps.len() - 1;
        let rest = reps.drop_last();
        let before = parts.drop_last();
        assert forall|i: int| 0 <= i < before.len() implies is_drawn(
            g,
            groups,
            rest[i],
            transforms,
            depth,
            #[trigger] before[i],
        ) by {
            assert(before[i] == parts[i]);
        }
        lemma_reps(g, groups, rest, transforms, depth, before);
        let rep = reps[n];
        let shells = listed(g.shells, rep);
        assert(is_drawn(g, groups, rep, transforms, depth, parts[n]));
        let (at, below) = choose|at: Seq<int>, below: Seq<Seq<InstanceView>>|
            {
                &&& #[trigger] are_below(
                    g,
                    groups,
                    listed(g.children, rep),
                    transforms,
                    depth,
                    at,
                    below,
                )
                &&& parts[n] == Seq::new(
                    shells.len(),
                    |s: int| InstanceView { shell: shells[s], transforms },
                ) + below.flatten_alt()
            };
        lemma_below(g, groups, listed(g.children, rep), transforms, depth, at, below);
        let own = placed_shells(shells, transforms);
        assert(own =~= Seq::new(
            shells.len(),
            |s: int| InstanceView { shell: shells[s], transforms },
        ));
        let all = visit_reps(g, groups, rest, transforms, depth);
        assert(all + own + below.flatten_alt() =~= all + (own + below.flatten_alt()));
        assert(parts.last() == parts[n]);
    }
}

/// Whether none of the representations of a group is a child of another one.
pub open spec fn is_unplaced(g: Graph, group: Seq<u64>) -> bool {
    forall|i: int, c: int|
        0 <= i < group.len() && 0 <= c < g.children.len() ==> (#[trigger] g.children[c]).1.0
            != #[trigger] group[i]
}

/// The groups that nothing places are drawn where they are, in order. The others are not.
pub proof fn law_roots(g: Graph, groups: Seq<Seq<u64>>, n: int)
    requires
        0 <= n < groups.len(),
    ensures
        visit_roots(g, groups, 0).len() == 0,
        is_unplaced(g, groups[n]) ==> visit_roots(g, groups, n + 1) == visit_roots(g, groups, n)
            + visit(g, groups, n, Seq::empty(), 0),
        !is_unplaced(g, groups[n]) ==> visit_roots(g, groups, n + 1) == visit_roots(g, groups, n),
{
    let group = groups[n];
    if is_unplaced(g, group) {
        assert forall|i: int| 0 <= i < group.len() implies !g.is_placed(#[trigger] group[i]) by {
            if g.is_placed(group[i]) {
                let c = choose|c: int|
                    0 <= c < g.children.len() && (#[trigger] g.children[c]).1.0 == group[i];
                assert(g.children[c].1.0 != group[i]);
            }
        }
    } else {
        let (i, c) = choose|i: int, c: int|
            0 <= i < group.len() && 0 <= c < g.children.len() && (#[trigger] g.children[c]).1.0
                == #[trigger] group[i];
        assert(g.is_placed(group[i]));
    }
}

// ---------------------------------------------------------------------------
// Loose shells
// ---------------------------------------------------------------------------

/// Whether an entity is a shell: one of its records is named so.
pub open spec fn is_named_shell(e: EntityView) -> bool {
    match e {
        EntityView::Simple { record, .. } => record.name == "CLOSED_SHELL"@ || record.name
            == "OPEN_SHELL"@,
        EntityView::Complex { records, .. } => exists|k: int|
            0 <= k < records.len() && ((#[trigger] records[k]).name == "CLOSED_SHELL"@
                || records[k].name == "OPEN_SHELL"@),
    }
}

proof fn lemma_named_shell(e: EntityView)
    ensures
        is_shell(e) <==> is_named_shell(e),
{
    if is_named_shell(e) {
        match e {
            EntityView::Simple { record, .. } => {
                assert(e.records()[0] == record);
            },
            EntityView::Complex { records, .. } => {
                let k = choose|k: int|
                    0 <= k < records.len() && ((#[trigger] records[k]).name == "CLOSED_SHELL"@
                        || records[k].name == "OPEN_SHELL"@);
                assert(e.records()[k] == records[k]);
            },
        }
    }
}

/// Whether ids are those of the shells that no mark accounts for, in ascending order.
pub open spec fn are_loose(es: Seq<EntityView>, marks: Seq<u64>, loose: Seq<u64>) -> bool {
    &&& forall|i: int, j: int| 0 <= i < j < loose.len() ==> #[trigger] loose[i] < #[trigger] loose[j]
    &&& forall|id: u64| #[trigger]
        loose.contains(id) <==> !accounted_for(es, marks, id) && exists|i: int|
            0 <= i < es.len() && is_named_shell(#[trigger] es[i]) && es[i].id() == id
}

/// What an assembly draws is what its groups draw that nothing places, and then the shells that it
/// does not account for, by their ids, where they are and as they are.
pub proof fn law_instances(es: Seq<EntityView>, singular: Set<u64>, instances: Seq<InstanceView>)
    requires
        is_instances(es, singular, instances),
    ensures
        ({
            let g = graph(es, singular, es.len() as int);
            exists|groups: Seq<Seq<u64>>, loose: Seq<u64>|
                {
                    &&& #[trigger] is_grouping(g, groups)
                    &&& #[trigger] are_loose(es, g.marks, loose)
                    &&& instances == visit_roots(g, groups, groups.len() as int) + Seq::new(
                        loose.len(),
                        |i: int|
                            InstanceView {
                                shell: ShellRef { id: loose[i], reversed: false },
                                transforms: Seq::empty(),
                            },
                    )
                }
        }),
{
    let g = graph(es, singular, es.len() as int);
    let (groups, loose) = choose|groups: Seq<Seq<u64>>, loose: Seq<u64>|
        {
            &&& #[trigger] is_grouping(g, groups)
            &&& #[trigger] is_loose(es, g, loose)
            &&& instances == visit_roots(g, groups, groups.len() as int) + loose.map_values(
                |id: u64| in_place(id),
            )
        };
    assert forall|id: u64| #[trigger] loose.contains(id) <==> !accounted_for(es, g.marks, id)
        && exists|i: int|
        0 <= i < es.len() && is_named_shell(#[trigger] es[i]) && es[i].id() == id by {
        if exists|i: int| 0 <= i < es.len() && (#[trigger] es[i]).id() == id && is_shell(es[i]) {
            let i = choose|i: int|
                0 <= i < es.len() && (#[trigger] es[i]).id() == id && is_shell(es[i]);
            lemma_named_shell(es[i]);
            assert(is_named_shell(es[i]) && es[i].id() == id);
        }
        if exists|i: int| 0 <= i < es.len() && is_named_shell(#[trigger] es[i]) && es[i].id() == id {
            let i = choose|i: int|
                0 <= i < es.len() && is_named_shell(#[trigger] es[i]) && es[i].id() == id;
            lemma_named_shell(es[i]);
            assert(es[i].id() == id && is_shell(es[i]));
        }
    }
    assert(are_loose(es, g.marks, loose));
    assert(loose.map_values(|id: u64| in_place(id)) =~= Seq::new(
        loose.len(),
        |i: int|
            InstanceView {
                shell: ShellRef { id: loose[i], reversed: false },
                transforms: Seq::empty(),
            },
    ));
}

} // verus!
