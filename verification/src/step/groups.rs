//! Groups of representations that share a coordinate system.
use std::collections::HashMap;
use vstd::prelude::*;

use super::entity::EntityView;
use super::lists::{has_key, lemma_listed_contains, listed};
use super::structure::{
    graph, with_drawn, with_hidden, with_items, Graph, Structure,
};
use crate::sequences::{increasing, lemma_push_contains, sorted_set};

verus! {

// ---------------------------------------------------------------------------
// Groups
// ---------------------------------------------------------------------------

/// Whether a representation shares its coordinate system directly with another one.
pub open spec fn linked(g: Graph, a: u64, b: u64) -> bool {
    g.links.contains((a, b))
}

/// A walk from one representation to another along links.
pub open spec fn is_path(g: Graph, path: Seq<u64>, a: u64, b: u64) -> bool {
    &&& path.len() > 0
    &&& path[0] == a
    &&& path.last() == b
    &&& forall|i: int| #![trigger path[i]] 0 < i < path.len() ==> linked(g, path[i - 1], path[i])
}

/// Whether two representations share a coordinate system.
pub open spec fn connected(g: Graph, a: u64, b: u64) -> bool {
    exists|path: Seq<u64>| is_path(g, path, a, b)
}

/// Whether links hold in both directions.
pub open spec fn symmetric(g: Graph) -> bool {
    forall|a: u64, b: u64| #[trigger] linked(g, a, b) ==> linked(g, b, a)
}

/// A division of the representations into groups that share a coordinate system. A group starts
/// with its smallest representation, and the groups are in the order of those.
pub open spec fn is_grouping(g: Graph, groups: Seq<Seq<u64>>) -> bool {
    &&& forall|rep: u64| #[trigger] g.is_rep(rep) <==> in_groups(groups, rep)
    &&& forall|k: int, l: int, i: int, j: int|
        0 <= k < groups.len() && 0 <= l < groups.len() && 0 <= i < groups[k].len() && 0 <= j
            < groups[l].len() && #[trigger] groups[k][i] == #[trigger] groups[l][j] ==> k == l && i
            == j
    &&& forall|k: int| 0 <= k < groups.len() ==> is_group(g, #[trigger] groups[k])
    &&& forall|k: int, l: int|
        0 <= k < l < groups.len() ==> (#[trigger] groups[k])[0] < (#[trigger] groups[l])[0]
}

/// Whether a representation is in one of the groups.
pub open spec fn in_groups(groups: Seq<Seq<u64>>, rep: u64) -> bool {
    exists|k: int| 0 <= k < groups.len() && (#[trigger] groups[k]).contains(rep)
}

/// A group: its first representation, which is its smallest, and all that are connected to it.
pub open spec fn is_group(g: Graph, group: Seq<u64>) -> bool {
    &&& group.len() > 0
    &&& forall|i: int|
        0 <= i < group.len() ==> connected(g, group[0], #[trigger] group[i]) && group[0] <= group[i]
    &&& forall|a: u64, b: u64| group.contains(a) && #[trigger] linked(g, a, b) ==> group.contains(b)
}

/// The group that a representation is in.
pub open spec fn group_of(groups: Seq<Seq<u64>>, rep: u64) -> int {
    choose|k: int| 0 <= k < groups.len() && (#[trigger] groups[k]).contains(rep)
}

// ---------------------------------------------------------------------------
// Links
// ---------------------------------------------------------------------------

proof fn lemma_items_keep_links(
    es: Seq<EntityView>,
    singular: Set<u64>,
    g: Graph,
    rep: u64,
    items: Seq<u64>,
)
    ensures
        with_items(es, singular, g, rep, items).links == g.links,
    decreases items.len(),
{
    if items.len() > 0 {
        let before = with_items(es, singular, g, rep, items.drop_last());
        lemma_items_keep_links(es, singular, g, rep, items.drop_last());
        match super::assembly::record(es, items.last()) {
            Some(r) => {
                let drawn = super::structure::drawn_shells(r);
                lemma_drawn_keep_links(es, before, rep, drawn);
                lemma_hidden_keep_links(
                    with_drawn(es, before, rep, drawn),
                    super::structure::hidden_shells(r),
                );
            },
            None => {},
        }
    }
}

proof fn lemma_drawn_keep_links(es: Seq<EntityView>, g: Graph, rep: u64, shells: Seq<u64>)
    ensures
        with_drawn(es, g, rep, shells).links == g.links,
    decreases shells.len(),
{
    if shells.len() > 0 {
        lemma_drawn_keep_links(es, g, rep, shells.drop_last());
    }
}

proof fn lemma_hidden_keep_links(g: Graph, shells: Seq<u64>)
    ensures
        with_hidden(g, shells).links == g.links,
    decreases shells.len(),
{
    if shells.len() > 0 {
        lemma_hidden_keep_links(g, shells.drop_last());
    }
}

/// Sharing a coordinate system directly goes both ways.
pub proof fn law_links_symmetric(es: Seq<EntityView>, singular: Set<u64>, n: int)
    ensures
        symmetric(graph(es, singular, n)),
    decreases n,
{
    if n > 0 {
        law_links_symmetric(es, singular, n - 1);
        let before = graph(es, singular, n - 1);
        let after = graph(es, singular, n);
        assert forall|rep: u64, items: Seq<u64>|
            (#[trigger] with_items(es, singular, before, rep, items)).links == before.links by {
            lemma_items_keep_links(es, singular, before, rep, items);
        }
        if after.links != before.links {
            let m = before.links.len() as int;
            let (a, b) = after.links[m];
            assert(after.links =~= before.links.push((a, b)).push((b, a)));
            assert(after.links[m + 1] == (b, a));
            assert forall|x: u64, y: u64| #[trigger] linked(after, x, y) implies linked(
                after,
                y,
                x,
            ) by {
                let i = choose|i: int| 0 <= i < after.links.len() && after.links[i] == (x, y);
                if i < m {
                    assert(before.links[i] == (x, y));
                    assert(linked(before, x, y));
                    assert(linked(before, y, x));
                    let j = choose|j: int| 0 <= j < before.links.len() && before.links[j] == (y, x);
                    assert(after.links[j] == (y, x));
                }
            }
        } else {
            assert forall|x: u64, y: u64| #[trigger] linked(after, x, y) implies linked(
                after,
                y,
                x,
            ) by {
                assert(linked(before, x, y));
                assert(linked(before, y, x));
            }
        }
    }
}

// ---------------------------------------------------------------------------
// Grouping
// ---------------------------------------------------------------------------

/// The groups of the representations of a file.
pub struct Groups {
    pub groups: Vec<Vec<u64>>,
    /// The number of each representation's group.
    pub group_of: HashMap<u64, usize>,
}

impl View for Groups {
    type V = Seq<Seq<u64>>;

    open spec fn view(&self) -> Seq<Seq<u64>> {
        self.groups@.map_values(|group: Vec<u64>| group@)
    }
}

impl Groups {
    /// The group numbers are those of the groups.
    pub open spec fn wf(&self) -> bool {
        &&& forall|rep: u64| #[trigger]
            self.group_of@.contains_key(rep) ==> self.group_of@[rep] < self@.len()
                && self@[self.group_of@[rep] as int].contains(rep)
        &&& forall|k: int, i: int|
            0 <= k < self@.len() && 0 <= i < self@[k].len() ==> self.group_of@.contains_key(
                #[trigger] self@[k][i],
            ) && self.group_of@[self@[k][i]] == k
    }
}

/// The groups so far, while grouping: the smallest representations are in them.
spec fn partial(g: Graph, groups: Groups, reps: Seq<u64>, n: int) -> bool {
    &&& groups.wf()
    &&& forall|k: int, i: int, j: int|
        0 <= k < groups@.len() && 0 <= i < groups@[k].len() && 0 <= j < groups@[k].len()
            && #[trigger] groups@[k][i] == #[trigger] groups@[k][j] ==> i == j
    &&& forall|k: int| 0 <= k < groups@.len() ==> is_group(g, #[trigger] groups@[k])
    &&& forall|k: int, l: int|
        0 <= k < l < groups@.len() ==> (#[trigger] groups@[k])[0] < (#[trigger] groups@[l])[0]
    &&& forall|k: int|
        0 <= k < groups@.len() ==> reps.take(n).contains((#[trigger] groups@[k])[0])
    &&& forall|i: int| 0 <= i < n ==> groups.group_of@.contains_key(#[trigger] reps[i])
    &&& forall|rep: u64| #[trigger] groups.group_of@.contains_key(rep) ==> g.is_rep(rep)
}

/// The group being put together: what is done and what is left to look at.
spec fn growing(
    g: Graph,
    before: Map<u64, usize>,
    map: Map<u64, usize>,
    index: usize,
    rep: u64,
    group: Seq<u64>,
    stack: Seq<u64>,
) -> bool {
    &&& forall|x: u64| #[trigger]
        map.contains_key(x) <==> before.contains_key(x) || group.contains(x) || stack.contains(x)
    &&& forall|x: u64| #[trigger] before.contains_key(x) ==> map[x] == before[x]
    &&& forall|x: u64|
        (#[trigger] group.contains(x) ==> !before.contains_key(x) && map[x] == index && g.is_rep(x)
            && connected(g, rep, x))
    &&& forall|x: u64|
        (#[trigger] stack.contains(x) ==> !before.contains_key(x) && map[x] == index && g.is_rep(x)
            && connected(g, rep, x))
    &&& group.no_duplicates()
    &&& stack.no_duplicates()
    &&& forall|x: u64| #[trigger] group.contains(x) ==> !stack.contains(x)
    &&& group.len() == 0 ==> stack == seq![rep]
    &&& group.len() > 0 ==> group[0] == rep
}

/// No representation of the earlier groups is linked to one outside them.
spec fn shut(g: Graph, before: Map<u64, usize>) -> bool {
    forall|a: u64, b: u64| before.contains_key(a) && #[trigger] linked(g, a, b)
        ==> before.contains_key(b)
}

proof fn lemma_connected_self(g: Graph, a: u64)
    ensures
        connected(g, a, a),
{
    assert(is_path(g, seq![a], a, a));
}

proof fn lemma_connected_step(g: Graph, a: u64, b: u64, c: u64)
    requires
        connected(g, a, b),
        linked(g, b, c),
    ensures
        connected(g, a, c),
{
    let path = choose|path: Seq<u64>| is_path(g, path, a, b);
    let longer = path.push(c);
    assert forall|i: int| #![trigger longer[i]] 0 < i < longer.len() implies linked(
        g,
        longer[i - 1],
        longer[i],
    ) by {
        if i < path.len() {
            assert(path[i] == longer[i]);
        }
    }
    assert(is_path(g, longer, a, c));
}

proof fn lemma_distinct_fits(s: Seq<u64>, t: Seq<u64>)
    requires
        s.no_duplicates(),
        forall|x: u64| #[trigger] s.contains(x) ==> t.contains(x),
    ensures
        s.len() <= t.len(),
{
    s.unique_seq_to_set();
    t.lemma_cardinality_of_set();
    vstd::seq_lib::seq_to_set_is_finite(t);
    assert forall|x: u64| s.to_set().contains(x) implies t.to_set().contains(x) by {
        assert(s.contains(x));
    }
    vstd::set_lib::lemma_len_subset(s.to_set(), t.to_set());
}

proof fn lemma_linked_is_rep(g: Graph, a: u64, b: u64)
    requires
        symmetric(g),
        linked(g, a, b),
    ensures
        g.is_rep(b),
{
    assert(linked(g, b, a));
    let i = choose|i: int| 0 <= i < g.links.len() && g.links[i] == (b, a);
    assert(g.links[i].0 == b);
    assert(has_key(g.links, b));
}

/// Looks at the neighbours of a representation that was just taken from the stack.
fn grow(
    structure: &Structure,
    Ghost(g): Ghost<Graph>,
    Ghost(before): Ghost<Map<u64, usize>>,
    map: &mut HashMap<u64, usize>,
    index: usize,
    Ghost(rep): Ghost<u64>,
    Ghost(group): Ghost<Seq<u64>>,
    from: u64,
    stack: &mut Vec<u64>,
)
    requires
        structure.links.holds(g.links),
        symmetric(g),
        shut(g, before),
        growing(g, before, old(map)@, index, rep, group, old(stack)@),
        group.contains(from),
        group.len() > 0,
    ensures
        growing(g, before, final(map)@, index, rep, group, final(stack)@),
        forall|b: u64| #[trigger] linked(g, from, b) ==> group.contains(b)
            || final(stack)@.contains(b),
        forall|b: u64| #[trigger] old(stack)@.contains(b) ==> final(stack)@.contains(b),
{
    let count = structure.links.count(from);
    for n in 0..count
        invariant
            structure.links.holds(g.links),
            symmetric(g),
            shut(g, before),
            count == structure.links.at(from).len(),
            group.contains(from),
            group.len() > 0,
            growing(g, before, map@, index, rep, group, stack@),
            forall|j: int|
                0 <= j < n ==> group.contains(#[trigger] structure.links.at(from)[j])
                    || stack@.contains(structure.links.at(from)[j]),
            forall|b: u64| #[trigger] old(stack)@.contains(b) ==> stack@.contains(b),
    {
        let next = *structure.links.value(from, n);
        assert(linked(g, from, next)) by {
            assert(listed(g.links, from).contains(next)) by {
                assert(listed(g.links, from)[n as int] == next);
            }
            lemma_listed_contains(g.links, from, next);
        }
        assert(!before.contains_key(next)) by {
            assert(linked(g, next, from));
        }
        if !map.contains_key(&next) {
            let ghost older = stack@;
            let ghost map_before = map@;
            map.insert(next, index);
            stack.push(next);
            proof {
                lemma_linked_is_rep(g, from, next);
                lemma_connected_step(g, rep, from, next);
                assert forall|x: u64| #[trigger] stack@.contains(x) <==> older.contains(x) || x
                    == next by {
                    lemma_push_contains(older, next, x);
                }
                assert(!older.contains(next));
                assert forall|i: int, j: int|
                    0 <= i < stack@.len() && 0 <= j < stack@.len() && i != j implies stack@[i]
                    != stack@[j] by {
                    if i < older.len() {
                        assert(older.contains(stack@[i]));
                    }
                    if j < older.len() {
                        assert(older.contains(stack@[j]));
                    }
                }
            }
        }
    }
    assert forall|b: u64| #[trigger] linked(g, from, b) implies group.contains(b)
        || stack@.contains(b) by {
        lemma_listed_contains(g.links, from, b);
        let j = choose|j: int| 0 <= j < listed(g.links, from).len() && listed(g.links, from)[j] == b;
        assert(structure.links.at(from)[j] == b);
    }
}

/// Puts together the group of a representation that is in no group yet.
fn gather(
    structure: &Structure,
    Ghost(g): Ghost<Graph>,
    reps: &Vec<u64>,
    map: &mut HashMap<u64, usize>,
    index: usize,
    rep: u64,
) -> (group: Vec<u64>)
    requires
        structure.links.holds(g.links),
        symmetric(g),
        shut(g, old(map)@),
        !old(map)@.contains_key(rep),
        g.is_rep(rep),
        forall|x: u64| #[trigger] reps@.contains(x) <==> g.is_rep(x),
    ensures
        growing(g, old(map)@, final(map)@, index, rep, group@, Seq::empty()),
        group@.len() > 0,
        forall|a: u64, b: u64| group@.contains(a) && #[trigger] linked(g, a, b)
            ==> group@.contains(b),
{
    let ghost before = map@;
    let mut group: Vec<u64> = Vec::new();
    let mut stack: Vec<u64> = Vec::new();
    stack.push(rep);
    map.insert(rep, index);
    proof {
        lemma_connected_self(g, rep);
        assert(stack@ =~= seq![rep]);
        assert(stack@[0] == rep);
        assert forall|x: u64| #[trigger] stack@.contains(x) <==> x == rep by {
            if x == rep {
                assert(stack@[0] == x);
            }
        }
    }
    while stack.len() > 0
        invariant
            structure.links.holds(g.links),
            symmetric(g),
            shut(g, before),
            forall|x: u64| #[trigger] reps@.contains(x) <==> g.is_rep(x),
            growing(g, before, map@, index, rep, group@, stack@),
            group@.len() <= reps@.len(),
            forall|a: u64, b: u64| group@.contains(a) && #[trigger] linked(g, a, b)
                ==> group@.contains(b) || stack@.contains(b),
        decreases reps@.len() - group@.len(),
    {
        let ghost group_before = group@;
        let ghost stack_before = stack@;
        let r = stack.pop().unwrap();
        group.push(r);
        proof {
            assert(stack_before =~= stack@.push(r));
            assert(stack_before[stack@.len() as int] == r);
            assert(stack_before.contains(r));
            assert forall|x: u64| #[trigger] stack_before.contains(x) <==> stack@.contains(x) || x
                == r by {
                lemma_push_contains(stack@, r, x);
            }
            assert forall|x: u64| #[trigger] group@.contains(x) <==> group_before.contains(x) || x
                == r by {
                lemma_push_contains(group_before, r, x);
            }
            assert(!stack@.contains(r)) by {
                if stack@.contains(r) {
                    let i = choose|i: int| 0 <= i < stack@.len() && stack@[i] == r;
                    assert(stack_before[i] == r);
                }
            }
            assert(stack@.no_duplicates()) by {
                assert forall|i: int, j: int|
                    0 <= i < stack@.len() && 0 <= j < stack@.len() && i != j implies stack@[i]
                    != stack@[j] by {
                    assert(stack_before[i] == stack@[i]);
                    assert(stack_before[j] == stack@[j]);
                }
            }
            assert(!group_before.contains(r));
            assert(group@.no_duplicates()) by {
                assert forall|i: int, j: int|
                    0 <= i < group@.len() && 0 <= j < group@.len() && i != j implies group@[i]
                    != group@[j] by {
                    if i < group_before.len() {
                        assert(group_before.contains(group@[i]));
                    }
                    if j < group_before.len() {
                        assert(group_before.contains(group@[j]));
                    }
                }
            }
            assert(group@[0] == rep) by {
                if group_before.len() == 0 {
                    assert(stack_before == seq![rep]);
                    assert(stack_before[0] == rep);
                }
            }
            assert forall|x: u64| #[trigger] map@.contains_key(x) <==> before.contains_key(x)
                || group@.contains(x) || stack@.contains(x) by {
                assert(map@.contains_key(x) <==> before.contains_key(x) || group_before.contains(x)
                    || stack_before.contains(x));
                assert(stack_before.contains(x) <==> stack@.contains(x) || x == r);
            }
            assert forall|x: u64| #[trigger] group@.contains(x) implies !stack@.contains(x) by {
                if stack@.contains(x) {
                    assert(stack_before.contains(x));
                }
            }
            assert forall|x: u64| #[trigger] stack@.contains(x) implies stack_before.contains(x) by {
                assert(stack_before.contains(x) <==> stack@.contains(x) || x == r);
            }
            assert(growing(g, before, map@, index, rep, group@, stack@));
            assert(group@.contains(r));
            assert forall|x: u64| #[trigger] group@.contains(x) implies reps@.contains(x) by {
                assert(g.is_rep(x));
            }
            lemma_distinct_fits(group@, reps@);
        }
        let ghost stack_between = stack@;
        grow(
            structure,
            Ghost(g),
            Ghost(before),
            map,
            index,
            Ghost(rep),
            Ghost(group@),
            r,
            &mut stack,
        );
        assert forall|a: u64, b: u64| group@.contains(a) && #[trigger] linked(g, a, b) implies
            group@.contains(b) || stack@.contains(b) by {
            if a != r {
                assert(group_before.contains(a));
                assert(group_before.contains(b) || stack_before.contains(b));
                if stack_between.contains(b) {
                    assert(stack@.contains(b));
                }
            }
        }
    }
    assert(stack@ =~= Seq::empty());
    group
}

proof fn lemma_shut(g: Graph, groups: Groups, reps: Seq<u64>, n: int)
    requires
        partial(g, groups, reps, n),
    ensures
        shut(g, groups.group_of@),
{
    assert forall|a: u64, b: u64| groups.group_of@.contains_key(a) && #[trigger] linked(
        g,
        a,
        b,
    ) implies groups.group_of@.contains_key(b) by {
        let k = groups.group_of@[a] as int;
        assert(is_group(g, groups@[k]));
        assert(groups@[k].contains(b));
        let i = choose|i: int| 0 <= i < groups@[k].len() && groups@[k][i] == b;
        assert(groups.group_of@.contains_key(groups@[k][i]));
    }
}

/// The groups with one more keep what holds of groups while grouping.
proof fn lemma_one_more(
    g: Graph,
    before: Groups,
    after: Groups,
    group: Seq<u64>,
    reps: Seq<u64>,
    n: int,
)
    requires
        partial(g, before, reps, n),
        0 <= n < reps.len(),
        increasing(reps),
        forall|x: u64| #[trigger] reps.contains(x) <==> g.is_rep(x),
        after@ == before@.push(group),
        growing(
            g,
            before.group_of@,
            after.group_of@,
            before@.len() as usize,
            reps[n],
            group,
            Seq::empty(),
        ),
        before@.len() == before@.len() as usize,
        group.len() > 0,
        forall|a: u64, b: u64| group.contains(a) && #[trigger] linked(g, a, b) ==> group.contains(b),
    ensures
        partial(g, after, reps, n + 1),
{
    let index = before@.len() as int;
    let rep = reps[n];
    let old_map = before.group_of@;
    let map = after.group_of@;
    assert forall|k: int| 0 <= k < index implies #[trigger] after@[k] == before@[k] by {}
    assert(after@[index] == group);
    assert(!Seq::<u64>::empty().contains(0));
    assert forall|x: u64| #[trigger] map.contains_key(x) <==> old_map.contains_key(x)
        || group.contains(x) by {
        assert(!Seq::<u64>::empty().contains(x));
    }
    assert forall|x: u64| #[trigger] group.contains(x) implies x >= rep by {
        assert(g.is_rep(x));
        assert(reps.contains(x));
        let j = choose|j: int| 0 <= j < reps.len() && reps[j] == x;
        if j < n {
            assert(old_map.contains_key(reps[j]));
        }
    }
    assert(is_group(g, group)) by {
        assert(group[0] == rep);
        assert forall|i: int| 0 <= i < group.len() implies connected(g, group[0], #[trigger] group[i])
            && group[0] <= group[i] by {
            assert(group.contains(group[i]));
        }
    }
    assert(after.wf()) by {
        assert forall|x: u64| #[trigger] map.contains_key(x) implies map[x] < after@.len()
            && after@[map[x] as int].contains(x) by {
            if old_map.contains_key(x) {
                assert(before@[old_map[x] as int].contains(x));
            }
        }
        assert forall|k: int, i: int|
            0 <= k < after@.len() && 0 <= i < after@[k].len() implies map.contains_key(
            #[trigger] after@[k][i],
        ) && map[after@[k][i]] == k by {
            if k < index {
                assert(old_map.contains_key(before@[k][i]));
            } else {
                assert(group.contains(group[i]));
            }
        }
    }
    assert forall|k: int, i: int, j: int|
        0 <= k < after@.len() && 0 <= i < after@[k].len() && 0 <= j < after@[k].len()
            && #[trigger] after@[k][i] == #[trigger] after@[k][j] implies i == j by {
        if k < index {
            assert(before@[k][i] == before@[k][j]);
        }
    }
    assert forall|k: int, l: int| 0 <= k < l < after@.len() implies (#[trigger] after@[k])[0] < (
    #[trigger] after@[l])[0] by {
        if l == index {
            assert(reps.take(n).contains(before@[k][0]));
            let j = choose|j: int| 0 <= j < n && reps.take(n)[j] == before@[k][0];
            assert(reps[j] == before@[k][0]);
        }
    }
    assert forall|k: int| 0 <= k < after@.len() implies reps.take(n + 1).contains(
        (#[trigger] after@[k])[0],
    ) by {
        if k < index {
            assert(reps.take(n).contains(before@[k][0]));
            let j = choose|j: int| 0 <= j < n && reps.take(n)[j] == before@[k][0];
            assert(reps.take(n + 1)[j] == before@[k][0]);
        } else {
            assert(reps.take(n + 1)[n] == rep);
        }
    }
    assert forall|i: int| 0 <= i < n + 1 implies map.contains_key(#[trigger] reps[i]) by {
        if i < n {
            assert(old_map.contains_key(reps[i]));
        } else {
            assert(group[0] == rep);
            assert(group.contains(rep));
        }
    }
    assert forall|x: u64| #[trigger] map.contains_key(x) implies g.is_rep(x) by {
        if group.contains(x) {
        } else {
            assert(old_map.contains_key(x));
        }
    }
}

/// When every representation has its group, the grouping is complete.
proof fn lemma_complete(g: Graph, groups: Groups, reps: Seq<u64>)
    requires
        partial(g, groups, reps, reps.len() as int),
        forall|x: u64| #[trigger] reps.contains(x) <==> g.is_rep(x),
    ensures
        is_grouping(g, groups@),
{
    assert forall|rep: u64| #[trigger] g.is_rep(rep) <==> in_groups(groups@, rep) by {
        if g.is_rep(rep) {
            assert(reps.contains(rep));
            let i = choose|i: int| 0 <= i < reps.len() && reps[i] == rep;
            assert(groups.group_of@.contains_key(reps[i]));
            assert(groups@[groups.group_of@[rep] as int].contains(rep));
        }
        if in_groups(groups@, rep) {
            let k = choose|k: int| 0 <= k < groups@.len() && (#[trigger] groups@[k]).contains(rep);
            let i = choose|i: int| 0 <= i < groups@[k].len() && groups@[k][i] == rep;
            assert(groups.group_of@.contains_key(groups@[k][i]));
        }
    }
    assert forall|k: int, l: int, i: int, j: int|
        0 <= k < groups@.len() && 0 <= l < groups@.len() && 0 <= i < groups@[k].len() && 0 <= j
            < groups@[l].len() && #[trigger] groups@[k][i] == #[trigger] groups@[l][j] implies k
        == l && i == j by {
        assert(groups.group_of@[groups@[k][i]] == k);
        assert(groups.group_of@[groups@[l][j]] == l);
    }
}

/// Groups the representations that share a coordinate system.
pub(crate) fn group(
    structure: &Structure,
    Ghost(es): Ghost<Seq<EntityView>>,
    Ghost(g): Ghost<Graph>,
) -> (r: Groups)
    requires
        structure.models(es, g),
        symmetric(g),
    ensures
        is_grouping(g, r@),
        r.wf(),
{
    let mut all: Vec<u64> = Vec::new();
    for i in 0..structure.reps.len()
        invariant
            all@ == structure.reps@.take(i as int),
    {
        all.push(structure.reps[i]);
        assert(structure.reps@.take(i + 1) =~= structure.reps@.take(i as int).push(
            structure.reps@[i as int],
        ));
    }
    assert(structure.reps@.take(structure.reps@.len() as int) =~= structure.reps@);
    let reps = sorted_set(all);
    assert forall|x: u64| #[trigger] reps@.contains(x) <==> g.is_rep(x) by {
        assert(structure.reps@.contains(x) <==> g.is_rep(x));
        assert(all@.contains(x) <==> structure.reps@.contains(x));
    }
    let mut r = Groups { groups: Vec::new(), group_of: HashMap::new() };
    for i in 0..reps.len()
        invariant
            structure.models(es, g),
            symmetric(g),
            increasing(reps@),
            forall|x: u64| #[trigger] reps@.contains(x) <==> g.is_rep(x),
            partial(g, r, reps@, i as int),
    {
        let rep = reps[i];
        let ghost before = r;
        assert(reps@.contains(rep));
        if !r.group_of.contains_key(&rep) {
            proof {
                lemma_shut(g, r, reps@, i as int);
            }
            let index = r.groups.len();
            let group = gather(structure, Ghost(g), &reps, &mut r.group_of, index, rep);
            let ghost gathered = group@;
            r.groups.push(group);
            proof {
                assert(r@ =~= before@.push(gathered));
                lemma_one_more(g, before, r, gathered, reps@, i as int);
            }
        } else {
            assert(reps@.take(i as int) =~= reps@.take(i + 1).drop_last());
            assert forall|k: int| 0 <= k < r@.len() implies reps@.take(i + 1).contains(
                (#[trigger] r@[k])[0],
            ) by {
                assert(reps@.take(i as int).contains(r@[k][0]));
                let j = choose|j: int| 0 <= j < i && reps@.take(i as int)[j] == r@[k][0];
                assert(reps@.take(i + 1)[j] == r@[k][0]);
            }
        }
    }
    proof {
        lemma_complete(g, r, reps@);
    }
    r
}

// ---------------------------------------------------------------------------
// Laws
// ---------------------------------------------------------------------------

/// Two representations are in the same group exactly when links connect them.
pub proof fn law_same_group(g: Graph, groups: Seq<Seq<u64>>, a: u64, b: u64)
    requires
        symmetric(g),
        is_grouping(g, groups),
        g.is_rep(a),
    ensures
        groups[group_of(groups, a)].contains(b) <==> connected(g, a, b),
{
    let k = group_of(groups, a);
    assert(in_groups(groups, a));
    let group = groups[k];
    assert(is_group(g, group));
    if connected(g, a, b) {
        let path = choose|path: Seq<u64>| is_path(g, path, a, b);
        lemma_path_stays(g, group, path, path.len() - 1);
    }
    if group.contains(b) {
        let i = choose|i: int| 0 <= i < group.len() && group[i] == a;
        let j = choose|j: int| 0 <= j < group.len() && group[j] == b;
        assert(connected(g, group[0], group[i]) && connected(g, group[0], group[j]));
        let to_a = choose|path: Seq<u64>| is_path(g, path, group[0], a);
        let to_b = choose|path: Seq<u64>| is_path(g, path, group[0], b);
        lemma_connected_back(g, a, to_a, 0);
        lemma_connected_on(g, a, to_b, to_b.len() - 1);
    }
}

proof fn lemma_path_stays(g: Graph, group: Seq<u64>, path: Seq<u64>, n: int)
    requires
        is_group(g, group),
        0 <= n < path.len(),
        is_path(g, path, path[0], path.last()),
        group.contains(path[0]),
    ensures
        group.contains(path[n]),
    decreases n,
{
    if n > 0 {
        lemma_path_stays(g, group, path, n - 1);
        assert(linked(g, path[n - 1], path[n]));
    }
}

/// From the end of a path back to any place on it.
proof fn lemma_connected_back(g: Graph, end: u64, path: Seq<u64>, n: int)
    requires
        symmetric(g),
        0 <= n < path.len(),
        is_path(g, path, path[0], end),
    ensures
        connected(g, end, path[n]),
    decreases path.len() - n,
{
    if n == path.len() - 1 {
        lemma_connected_self(g, end);
    } else {
        lemma_connected_back(g, end, path, n + 1);
        assert(linked(g, path[n + 1 - 1], path[n + 1]));
        lemma_connected_step(g, end, path[n + 1], path[n]);
    }
}

/// From the start of a path on to any place on it.
proof fn lemma_connected_on(g: Graph, start: u64, path: Seq<u64>, n: int)
    requires
        0 <= n < path.len(),
        connected(g, start, path[0]),
        is_path(g, path, path[0], path.last()),
    ensures
        connected(g, start, path[n]),
    decreases n,
{
    if n > 0 {
        lemma_connected_on(g, start, path, n - 1);
        assert(linked(g, path[n - 1], path[n]));
        lemma_connected_step(g, start, path[n - 1], path[n]);
    }
}

} // verus!
