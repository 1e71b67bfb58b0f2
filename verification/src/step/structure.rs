//! How the representations of a STEP file hang together: which of them share a coordinate system,
//! which place others inside them, and which shells they show.
use std::collections::{HashMap, HashSet};
use vstd::prelude::*;

use super::assembly::{
    mapped_item, parents, record, shell_ref, transformation, Assembly, ShellRef, Transform,
};
use super::entity::{first_record, lemma_first_record_step, Entity, EntityView, Record, RecordView};
use super::lists::{has_key, lemma_has_key_push, lemma_listed_push, Lists};
use crate::sequences::lemma_push_contains;
use crate::text;

verus! {

// ---------------------------------------------------------------------------
// The graph of representations
// ---------------------------------------------------------------------------

/// What a STEP file says about its representations, in the order in which it says it.
#[verifier::ext_equal]
pub struct Graph {
    /// Pairs of representations that share a coordinate system, each pair in both directions.
    pub links: Seq<(u64, u64)>,
    /// Representations with another one that they place inside them, and where.
    pub children: Seq<(u64, (u64, Transform))>,
    /// Representations with a shell that they show.
    pub shells: Seq<(u64, ShellRef)>,
    /// The references to shells that solids and surface models account for.
    pub marks: Seq<u64>,
}

impl Graph {
    /// Nothing.
    pub open spec fn empty() -> Graph {
        Graph {
            links: Seq::empty(),
            children: Seq::empty(),
            shells: Seq::empty(),
            marks: Seq::empty(),
        }
    }

    /// Adds a pair of representations that share a coordinate system.
    pub open spec fn link(self, a: u64, b: u64) -> Graph {
        Graph { links: self.links.push((a, b)).push((b, a)), ..self }
    }

    /// Adds a representation that another one places inside it.
    pub open spec fn child(self, parent: u64, child: u64, transform: Transform) -> Graph {
        Graph { children: self.children.push((parent, (child, transform))), ..self }
    }

    /// Adds a shell that a representation shows.
    pub open spec fn shell(self, rep: u64, shell: ShellRef) -> Graph {
        Graph { shells: self.shells.push((rep, shell)), ..self }
    }

    /// Adds a reference to a shell that is accounted for.
    pub open spec fn mark(self, id: u64) -> Graph {
        Graph { marks: self.marks.push(id), ..self }
    }

    /// Whether something places a representation.
    pub open spec fn is_placed(self, rep: u64) -> bool {
        places(self.children, rep)
    }

    /// Whether a number is that of a representation of the graph.
    pub open spec fn is_rep(self, rep: u64) -> bool {
        ||| has_key(self.links, rep)
        ||| has_key(self.children, rep)
        ||| has_key(self.shells, rep)
        ||| places(self.children, rep)
    }
}

/// Whether one of some children is a given representation.
pub open spec fn places(children: Seq<(u64, (u64, Transform))>, rep: u64) -> bool {
    exists|i: int| 0 <= i < children.len() && (#[trigger] children[i]).1.0 == rep
}

/// Whether a shell is one that some references lead to, directly or through an oriented shell.
pub open spec fn accounted_for(es: Seq<EntityView>, marks: Seq<u64>, id: u64) -> bool {
    exists|i: int|
        0 <= i < marks.len() && (#[trigger] marks[i] == id || shell_ref(es, marks[i]).id == id)
}

/// A solid: its outer shell is its second argument.
pub open spec fn is_solid(name: Seq<char>) -> bool {
    name == "MANIFOLD_SOLID_BREP"@ || name == "FACETED_BREP"@ || name == "BREP_WITH_VOIDS"@
}

/// The references to shells in an item that are drawn.
pub open spec fn drawn_shells(r: RecordView) -> Seq<u64> {
    if is_solid(r.name) {
        match r.reference(1) {
            Some(shell) => seq![shell],
            None => Seq::empty(),
        }
    } else if r.name == "SHELL_BASED_SURFACE_MODEL"@ {
        r.references(1)
    } else {
        Seq::empty()
    }
}

/// The references to shells in an item that are never drawn: the voids hidden inside a solid.
pub open spec fn hidden_shells(r: RecordView) -> Seq<u64> {
    if r.name == "BREP_WITH_VOIDS"@ {
        r.references(2)
    } else {
        Seq::empty()
    }
}

/// A graph with some more shells that a representation shows.
pub open spec fn with_drawn(es: Seq<EntityView>, g: Graph, rep: u64, shells: Seq<u64>) -> Graph
    decreases shells.len(),
{
    if shells.len() == 0 {
        g
    } else {
        with_drawn(es, g, rep, shells.drop_last()).mark(shells.last()).shell(
            rep,
            shell_ref(es, shells.last()),
        )
    }
}

/// A graph with some more shells accounted for.
pub open spec fn with_hidden(g: Graph, shells: Seq<u64>) -> Graph
    decreases shells.len(),
{
    if shells.len() == 0 {
        g
    } else {
        with_hidden(g, shells.drop_last()).mark(shells.last())
    }
}

/// A graph with an item of a representation: a solid, a surface model or a placed copy of
/// another representation.
pub open spec fn with_item(
    es: Seq<EntityView>,
    singular: Set<u64>,
    g: Graph,
    rep: u64,
    item: u64,
) -> Graph {
    match record(es, item) {
        Some(r) => if r.name == "MAPPED_ITEM"@ {
            match mapped_item(es, singular, r) {
                Some((child, transform)) => g.child(rep, child, transform),
                None => g,
            }
        } else {
            with_hidden(with_drawn(es, g, rep, drawn_shells(r)), hidden_shells(r))
        },
        None => g,
    }
}

/// A graph with several items of a representation.
pub open spec fn with_items(
    es: Seq<EntityView>,
    singular: Set<u64>,
    g: Graph,
    rep: u64,
    items: Seq<u64>,
) -> Graph
    decreases items.len(),
{
    if items.len() == 0 {
        g
    } else {
        with_item(
            es,
            singular,
            with_items(es, singular, g, rep, items.drop_last()),
            rep,
            items.last(),
        )
    }
}

/// The record with the two representations of a relationship. In a complex entity they are in
/// the REPRESENTATION_RELATIONSHIP record, and SHAPE_REPRESENTATION_RELATIONSHIP() is empty.
pub open spec fn is_relationship(r: RecordView) -> bool {
    (r.name == "REPRESENTATION_RELATIONSHIP"@ || r.name == "SHAPE_REPRESENTATION_RELATIONSHIP"@)
        && r.arguments.len() >= 4
}

/// The transformation of a relationship that places one representation inside the other.
pub open spec fn relationship_transformation(e: EntityView) -> Option<u64> {
    match first_record(
        e.records(),
        |r: RecordView| r.name == "REPRESENTATION_RELATIONSHIP_WITH_TRANSFORMATION"@,
    ) {
        Some(r) => r.reference(0),
        None => None,
    }
}

/// The name of a shape representation.
pub open spec fn is_shape_representation(name: Seq<char>) -> bool {
    "SHAPE_REPRESENTATION"@.is_suffix_of(name) && name != "CONTEXT_DEPENDENT_SHAPE_REPRESENTATION"@
}

/// A graph with what one entity adds.
///
/// Representations joined by a plain relationship share a coordinate system. A relationship
/// with a transformation places a child inside a parent. The standard puts the child first, but
/// some exporters swap them, so the parent is first when the product structure says so.
pub open spec fn with_entity(
    es: Seq<EntityView>,
    singular: Set<u64>,
    g: Graph,
    e: EntityView,
) -> Graph {
    match first_record(e.records(), |r: RecordView| is_relationship(r)) {
        Some(r) => match (r.reference(2), r.reference(3)) {
            (Some(first), Some(second)) => match relationship_transformation(e) {
                None => g.link(first, second),
                Some(t) => {
                    let ps = parents(es);
                    if ps.contains_key(e.id()) && ps[e.id()] == first {
                        g.child(first, second, transformation(es, t, true))
                    } else {
                        g.child(second, first, transformation(es, t, false))
                    }
                },
            },
            _ => g,
        },
        None => match first_record(
            e.records(),
            |r: RecordView| is_shape_representation(r.name),
        ) {
            Some(r) => with_items(es, singular, g, e.id(), r.references(1)),
            None => g,
        },
    }
}

/// What the first entities say about the representations.
pub open spec fn graph(es: Seq<EntityView>, singular: Set<u64>, n: int) -> Graph
    decreases n,
{
    if n <= 0 {
        Graph::empty()
    } else {
        with_entity(es, singular, graph(es, singular, n - 1), es[n - 1])
    }
}

// ---------------------------------------------------------------------------
// Collecting the graph
// ---------------------------------------------------------------------------

/// The graph of a STEP file's representations, ready to be looked up.
pub struct Structure {
    pub links: Lists<u64>,
    pub children: Lists<(u64, Transform)>,
    pub shells: Lists<ShellRef>,
    /// The representations that something places.
    pub placed: HashSet<u64>,
    /// The shells that are accounted for.
    pub known: HashSet<u64>,
    /// The representations, possibly several times.
    pub reps: Vec<u64>,
}

impl Structure {
    /// Whether this is a given graph.
    pub open spec fn models(&self, es: Seq<EntityView>, g: Graph) -> bool {
        &&& self.links.holds(g.links)
        &&& self.children.holds(g.children)
        &&& self.shells.holds(g.shells)
        &&& forall|rep: u64| #[trigger] self.placed@.contains(rep) <==> g.is_placed(rep)
        &&& forall|id: u64| #[trigger]
            self.known@.contains(id) <==> accounted_for(es, g.marks, id)
        &&& forall|rep: u64| #[trigger] self.reps@.contains(rep) <==> g.is_rep(rep)
    }

    /// Nothing.
    fn new() -> (r: Structure)
        ensures
            forall|es: Seq<EntityView>| #[trigger] r.models(es, Graph::empty()),
    {
        Structure {
            links: Lists::new(),
            children: Lists::new(),
            shells: Lists::new(),
            placed: HashSet::new(),
            known: HashSet::new(),
            reps: Vec::new(),
        }
    }

    /// Adds a pair of representations that share a coordinate system.
    fn link(&mut self, Ghost(es): Ghost<Seq<EntityView>>, Ghost(g): Ghost<Graph>, a: u64, b: u64)
        requires
            old(self).models(es, g),
        ensures
            final(self).models(es, g.link(a, b)),
    {
        self.links.push(a, b);
        self.links.push(b, a);
        self.reps.push(a);
        self.reps.push(b);
        proof {
            let after = g.link(a, b);
            lemma_listed_push(g.links, a, b);
            lemma_listed_push(g.links.push((a, b)), b, a);
            assert forall|rep: u64| #[trigger] self.reps@.contains(rep) <==> after.is_rep(rep) by {
                lemma_push_contains(old(self).reps@, a, rep);
                lemma_push_contains(old(self).reps@.push(a), b, rep);
                lemma_has_key_push(g.links, (a, b), rep);
                lemma_has_key_push(g.links.push((a, b)), (b, a), rep);
            }
        }
    }

    /// Adds a representation that another one places inside it.
    fn child(
        &mut self,
        Ghost(es): Ghost<Seq<EntityView>>,
        Ghost(g): Ghost<Graph>,
        parent: u64,
        child: u64,
        transform: Transform,
    )
        requires
            old(self).models(es, g),
        ensures
            final(self).models(es, g.child(parent, child, transform)),
    {
        self.children.push(parent, (child, transform));
        self.placed.insert(child);
        self.reps.push(parent);
        self.reps.push(child);
        proof {
            let after = g.child(parent, child, transform);
            lemma_listed_push(g.children, parent, (child, transform));
            assert forall|rep: u64| #[trigger] self.placed@.contains(rep) <==> after.is_placed(
                rep,
            ) by {
                lemma_places_push(g.children, (parent, (child, transform)), rep);
            }
            assert forall|rep: u64| #[trigger] self.reps@.contains(rep) <==> after.is_rep(rep) by {
                lemma_push_contains(old(self).reps@, parent, rep);
                lemma_push_contains(old(self).reps@.push(parent), child, rep);
                lemma_has_key_push(g.children, (parent, (child, transform)), rep);
                lemma_places_push(g.children, (parent, (child, transform)), rep);
            }
        }
    }

    /// Adds a shell that a representation shows.
    fn shell(
        &mut self,
        Ghost(es): Ghost<Seq<EntityView>>,
        Ghost(g): Ghost<Graph>,
        rep: u64,
        shell: ShellRef,
    )
        requires
            old(self).models(es, g),
        ensures
            final(self).models(es, g.shell(rep, shell)),
    {
        self.shells.push(rep, shell);
        self.reps.push(rep);
        proof {
            let after = g.shell(rep, shell);
            lemma_listed_push(g.shells, rep, shell);
            assert forall|x: u64| #[trigger] self.reps@.contains(x) <==> after.is_rep(x) by {
                lemma_push_contains(old(self).reps@, rep, x);
                lemma_has_key_push(g.shells, (rep, shell), x);
            }
        }
    }
}

proof fn lemma_places_push(
    children: Seq<(u64, (u64, Transform))>,
    entry: (u64, (u64, Transform)),
    rep: u64,
)
    ensures
        places(children.push(entry), rep) <==> places(children, rep) || entry.1.0 == rep,
{
    let after = children.push(entry);
    assert(after[children.len() as int] == entry);
    if places(children, rep) {
        let i = choose|i: int| 0 <= i < children.len() && (#[trigger] children[i]).1.0 == rep;
        assert(after[i].1.0 == rep);
    }
    if places(after, rep) {
        let i = choose|i: int| 0 <= i < after.len() && (#[trigger] after[i]).1.0 == rep;
        if i < children.len() {
            assert(children[i].1.0 == rep);
        }
    }
}

proof fn lemma_accounted_for_push(es: Seq<EntityView>, marks: Seq<u64>, mark: u64, id: u64)
    ensures
        accounted_for(es, marks.push(mark), id) <==> accounted_for(es, marks, id) || mark == id
            || shell_ref(es, mark).id == id,
{
    let after = marks.push(mark);
    assert(after[marks.len() as int] == mark);
    if accounted_for(es, marks, id) {
        let i = choose|i: int|
            0 <= i < marks.len() && (#[trigger] marks[i] == id || shell_ref(es, marks[i]).id == id);
        assert(after[i] == marks[i]);
    }
    if accounted_for(es, after, id) {
        let i = choose|i: int|
            0 <= i < after.len() && (#[trigger] after[i] == id || shell_ref(es, after[i]).id == id);
        if i < marks.len() {
            assert(marks[i] == after[i]);
        }
    }
}

impl Assembly {
    /// What the entities say about the representations. The placements in `singular` have no
    /// inverse.
    pub fn structure(&self, singular: &HashSet<u64>) -> (r: Structure)
        requires
            self.wf(),
        ensures
            r.models(self@, graph(self@, singular@, self@.len() as int)),
    {
        let parents = self.assembly_parents();
        let mut r = Structure::new();
        let count = self.count();
        for i in 0..count
            invariant
                self.wf(),
                count == self@.len(),
                parents@ == super::assembly::parents(self@),
                r.models(self@, graph(self@, singular@, i as int)),
        {
            let ghost g = graph(self@, singular@, i as int);
            let e = self.nth(i);
            self.add_entity(singular, &parents, Ghost(g), e, &mut r);
        }
        r
    }

    /// Marks a shell that a reference leads to as accounted for.
    fn mark(&self, Ghost(g): Ghost<Graph>, id: u64, r: &mut Structure) -> (shell: ShellRef)
        requires
            self.wf(),
            old(r).models(self@, g),
        ensures
            final(r).models(self@, g.mark(id)),
            shell == shell_ref(self@, id),
    {
        let shell = self.shell(id, &mut r.known);
        proof {
            let after = g.mark(id);
            assert forall|x: u64| #[trigger] r.known@.contains(x) <==> accounted_for(
                self@,
                after.marks,
                x,
            ) by {
                lemma_accounted_for_push(self@, g.marks, id, x);
            }
        }
        shell
    }

    /// Adds shells that a representation shows.
    fn add_drawn(&self, Ghost(g): Ghost<Graph>, rep: u64, shells: &Vec<u64>, r: &mut Structure)
        requires
            self.wf(),
            old(r).models(self@, g),
        ensures
            final(r).models(self@, with_drawn(self@, g, rep, shells@)),
    {
        for i in 0..shells.len()
            invariant
                self.wf(),
                r.models(self@, with_drawn(self@, g, rep, shells@.take(i as int))),
        {
            let ghost before = with_drawn(self@, g, rep, shells@.take(i as int));
            assert(shells@.take(i + 1).drop_last() =~= shells@.take(i as int));
            let shell = self.mark(Ghost(before), shells[i], r);
            r.shell(Ghost(self@), Ghost(before.mark(shells@[i as int])), rep, shell);
        }
        assert(shells@.take(shells@.len() as int) =~= shells@);
    }

    /// Marks shells as accounted for.
    fn add_hidden(&self, Ghost(g): Ghost<Graph>, shells: &Vec<u64>, r: &mut Structure)
        requires
            self.wf(),
            old(r).models(self@, g),
        ensures
            final(r).models(self@, with_hidden(g, shells@)),
    {
        for i in 0..shells.len()
            invariant
                self.wf(),
                r.models(self@, with_hidden(g, shells@.take(i as int))),
        {
            let ghost before = with_hidden(g, shells@.take(i as int));
            assert(shells@.take(i + 1).drop_last() =~= shells@.take(i as int));
            self.mark(Ghost(before), shells[i], r);
        }
        assert(shells@.take(shells@.len() as int) =~= shells@);
    }

    /// Adds an item of a representation.
    fn add_item(
        &self,
        singular: &HashSet<u64>,
        Ghost(g): Ghost<Graph>,
        rep: u64,
        item: u64,
        r: &mut Structure,
    )
        requires
            self.wf(),
            old(r).models(self@, g),
        ensures
            final(r).models(self@, with_item(self@, singular@, g, rep, item)),
    {
        let item_record = match self.record(item) {
            Some(item_record) => item_record,
            None => return ,
        };
        if item_record.is_named("MAPPED_ITEM") {
            if let Some((child, transform)) = self.mapped_item(singular, item_record) {
                r.child(Ghost(self@), Ghost(g), rep, child, transform);
            }
        } else {
            let drawn = drawn(item_record);
            self.add_drawn(Ghost(g), rep, &drawn, r);
            let ghost g = with_drawn(self@, g, rep, drawn@);
            if item_record.is_named("BREP_WITH_VOIDS") {
                let voids = item_record.references(2);
                self.add_hidden(Ghost(g), &voids, r);
            } else {
                assert(hidden_shells(item_record@) =~= Seq::empty());
            }
        }
    }

    /// Adds what one entity says.
    fn add_entity(
        &self,
        singular: &HashSet<u64>,
        parents: &HashMap<u64, u64>,
        Ghost(g): Ghost<Graph>,
        e: &Entity,
        r: &mut Structure,
    )
        requires
            self.wf(),
            parents@ == super::assembly::parents(self@),
            old(r).models(self@, g),
        ensures
            final(r).models(self@, with_entity(self@, singular@, g, e@)),
    {
        match relationship(e) {
            Some(relationship) => {
                let (first, second) = match (relationship.reference(2), relationship.reference(3)) {
                    (Some(first), Some(second)) => (first, second),
                    _ => return ,
                };
                let transformation = match e.first_named(
                    "REPRESENTATION_RELATIONSHIP_WITH_TRANSFORMATION",
                ) {
                    Some(t) => t.reference(0),
                    None => None,
                };
                match transformation {
                    None => r.link(Ghost(self@), Ghost(g), first, second),
                    Some(t) => {
                        let parent_first = match parents.get(&e.id()) {
                            Some(parent) => *parent == first,
                            None => false,
                        };
                        let transform = self.transformation(t, parent_first);
                        if parent_first {
                            r.child(Ghost(self@), Ghost(g), first, second, transform);
                        } else {
                            r.child(Ghost(self@), Ghost(g), second, first, transform);
                        }
                    },
                }
            },
            None => if let Some(shape) = shape_representation(e) {
                let rep = e.id();
                let items = shape.references(1);
                for i in 0..items.len()
                    invariant
                        self.wf(),
                        r.models(
                            self@,
                            with_items(self@, singular@, g, rep, items@.take(i as int)),
                        ),
                {
                    let ghost before = with_items(self@, singular@, g, rep, items@.take(i as int));
                    assert(items@.take(i + 1).drop_last() =~= items@.take(i as int));
                    self.add_item(singular, Ghost(before), rep, items[i], r);
                }
                assert(items@.take(items@.len() as int) =~= items@);
            },
        }
    }
}

/// The references to shells in an item that are drawn.
fn drawn(r: &Record) -> (s: Vec<u64>)
    ensures
        s@ == drawn_shells(r@),
{
    if r.is_named("MANIFOLD_SOLID_BREP") || r.is_named("FACETED_BREP") || r.is_named(
        "BREP_WITH_VOIDS",
    ) {
        let mut shells: Vec<u64> = Vec::new();
        if let Some(shell) = r.reference(1) {
            shells.push(shell);
        }
        shells
    } else if r.is_named("SHELL_BASED_SURFACE_MODEL") {
        r.references(1)
    } else {
        Vec::new()
    }
}

/// The record with the two representations of a relationship.
fn relationship(e: &Entity) -> (r: Option<&Record>)
    ensures
        match r {
            Some(record) => first_record(e@.records(), |x: RecordView| is_relationship(x)) == Some(
                record@,
            ),
            None => first_record(e@.records(), |x: RecordView| is_relationship(x)) is None,
        },
{
    let ghost wanted = |x: RecordView| is_relationship(x);
    let count = e.record_count();
    for i in 0..count
        invariant
            count == e@.records().len(),
            wanted == (|x: RecordView| is_relationship(x)),
            first_record(e@.records().take(i as int), wanted) is None,
    {
        let record = e.record_at(i);
        proof {
            lemma_first_record_step(e@.records(), wanted, i as int);
        }
        if (record.is_named("REPRESENTATION_RELATIONSHIP") || record.is_named(
            "SHAPE_REPRESENTATION_RELATIONSHIP",
        )) && record.arguments.len() >= 4 {
            return Some(record);
        }
    }
    assert(e@.records().take(e@.records().len() as int) =~= e@.records());
    None
}

/// The record of a shape representation.
fn shape_representation(e: &Entity) -> (r: Option<&Record>)
    ensures
        match r {
            Some(record) => first_record(
                e@.records(),
                |x: RecordView| is_shape_representation(x.name),
            ) == Some(record@),
            None => first_record(
                e@.records(),
                |x: RecordView| is_shape_representation(x.name),
            ) is None,
        },
{
    let ghost wanted = |x: RecordView| is_shape_representation(x.name);
    let count = e.record_count();
    for i in 0..count
        invariant
            count == e@.records().len(),
            wanted == (|x: RecordView| is_shape_representation(x.name)),
            first_record(e@.records().take(i as int), wanted) is None,
    {
        let record = e.record_at(i);
        proof {
            lemma_first_record_step(e@.records(), wanted, i as int);
        }
        if text::ends_with(record.name.as_str(), "SHAPE_REPRESENTATION") && !record.is_named(
            "CONTEXT_DEPENDENT_SHAPE_REPRESENTATION",
        ) {
            return Some(record);
        }
    }
    assert(e@.records().take(e@.records().len() as int) =~= e@.records());
    None
}

// ---------------------------------------------------------------------------
// Laws
// ---------------------------------------------------------------------------

/// The voids of a solid are never drawn, but they are accounted for.
pub proof fn law_voids_hidden(
    es: Seq<EntityView>,
    singular: Set<u64>,
    g: Graph,
    rep: u64,
    item: u64,
    r: RecordView,
    i: int,
)
    requires
        record(es, item) == Some(r),
        r.name == "BREP_WITH_VOIDS"@,
        0 <= i < r.references(2).len(),
    ensures
        with_item(es, singular, g, rep, item).shells == match r.reference(1) {
            Some(outer) => g.shells.push((rep, shell_ref(es, outer))),
            None => g.shells,
        },
        accounted_for(es, with_item(es, singular, g, rep, item).marks, r.references(2)[i]),
{
    reveal_strlit("BREP_WITH_VOIDS");
    reveal_strlit("MAPPED_ITEM");
    assert("BREP_WITH_VOIDS"@.len() != "MAPPED_ITEM"@.len());
    let drawn = drawn_shells(r);
    let before = with_drawn(es, g, rep, drawn);
    let voids = hidden_shells(r);
    lemma_hidden(before, voids, voids.len() as int, i);
    assert(voids.take(voids.len() as int) =~= voids);
    match r.reference(1) {
        Some(outer) => {
            assert(drawn.drop_last() =~= Seq::empty());
            assert(with_drawn(es, g, rep, drawn.drop_last()) == g);
        },
        None => {},
    }
    let after = with_hidden(before, voids);
    let k = choose|k: int| 0 <= k < after.marks.len() && after.marks[k] == voids[i];
    assert(after.marks[k] == voids[i]);
}

proof fn lemma_hidden(g: Graph, shells: Seq<u64>, n: int, i: int)
    requires
        0 <= n <= shells.len(),
    ensures
        with_hidden(g, shells.take(n)).shells == g.shells,
        0 <= i < n ==> with_hidden(g, shells.take(n)).marks.contains(shells[i]),
    decreases n,
{
    if n > 0 {
        let taken = shells.take(n);
        assert(taken.drop_last() =~= shells.take(n - 1));
        lemma_hidden(g, shells, n - 1, i);
        let before = with_hidden(g, shells.take(n - 1));
        if 0 <= i < n {
            lemma_push_contains(before.marks, shells[n - 1], shells[i]);
        }
    }
}

} // verus!
