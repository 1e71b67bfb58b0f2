//! The entities of a STEP data section, as far as placing shells reads them.
use vstd::prelude::*;

verus! {

/// A value inside a list argument.
#[derive(Clone, Copy, PartialEq, Eq, Structural, Debug)]
pub enum Item {
    /// A reference to an entity, such as `#12`.
    Ref(u64),
    /// An integer.
    Integer(i64),
    /// A real number in double precision, as its bit pattern.
    Real(u64),
    /// Anything else.
    Other,
}

/// One argument of a record.
pub enum Argument {
    /// A reference to an entity, such as `#12`.
    Ref(u64),
    /// A list.
    List(Vec<Item>),
    /// An enumeration value, such as `T`, without or with its dots.
    Enumeration(String),
    /// Anything else.
    Other,
}

/// A named record with its arguments, such as `CARTESIAN_POINT('',(0.,0.,1.))`.
pub struct Record {
    pub name: String,
    pub arguments: Vec<Argument>,
}

/// An instance in the data section.
pub enum Entity {
    /// One record.
    Simple { id: u64, record: Record },
    /// Several records that make up one entity.
    Complex { id: u64, records: Vec<Record> },
}

// ---------------------------------------------------------------------------
// Models
// ---------------------------------------------------------------------------

/// The model of an `Argument`.
pub enum ArgumentView {
    Ref(u64),
    List(Seq<Item>),
    Enumeration(Seq<char>),
    Other,
}

/// The model of a `Record`.
pub struct RecordView {
    pub name: Seq<char>,
    pub arguments: Seq<ArgumentView>,
}

/// The model of an `Entity`.
pub enum EntityView {
    Simple { id: u64, record: RecordView },
    Complex { id: u64, records: Seq<RecordView> },
}

impl View for Argument {
    type V = ArgumentView;

    open spec fn view(&self) -> ArgumentView {
        match self {
            Argument::Ref(id) => ArgumentView::Ref(*id),
            Argument::List(items) => ArgumentView::List(items@),
            Argument::Enumeration(e) => ArgumentView::Enumeration(e@),
            Argument::Other => ArgumentView::Other,
        }
    }
}

/// The models of several arguments.
pub open spec fn arguments_view(arguments: Seq<Argument>) -> Seq<ArgumentView> {
    arguments.map_values(|a: Argument| a@)
}

impl View for Record {
    type V = RecordView;

    open spec fn view(&self) -> RecordView {
        RecordView { name: self.name@, arguments: arguments_view(self.arguments@) }
    }
}

/// The models of several records.
pub open spec fn records_view(records: Seq<Record>) -> Seq<RecordView> {
    records.map_values(|r: Record| r@)
}

impl View for Entity {
    type V = EntityView;

    open spec fn view(&self) -> EntityView {
        match self {
            Entity::Simple { id, record } => EntityView::Simple { id: *id, record: record@ },
            Entity::Complex { id, records } => EntityView::Complex {
                id: *id,
                records: records_view(records@),
            },
        }
    }
}

/// The models of several entities.
pub open spec fn entities_view(entities: Seq<Entity>) -> Seq<EntityView> {
    entities.map_values(|e: Entity| e@)
}

impl EntityView {
    /// The instance's name: the number behind `#`.
    pub open spec fn id(self) -> u64 {
        match self {
            EntityView::Simple { id, .. } => id,
            EntityView::Complex { id, .. } => id,
        }
    }

    /// The records of the entity, in order.
    pub open spec fn records(self) -> Seq<RecordView> {
        match self {
            EntityView::Simple { record, .. } => seq![record],
            EntityView::Complex { records, .. } => records,
        }
    }
}

/// The entities that a list refers to, in order.
pub open spec fn refs(items: Seq<Item>) -> Seq<u64>
    decreases items.len(),
{
    if items.len() == 0 {
        Seq::empty()
    } else {
        match items.last() {
            Item::Ref(id) => refs(items.drop_last()).push(id),
            _ => refs(items.drop_last()),
        }
    }
}

impl RecordView {
    /// The entity that an argument refers to, if it is a reference.
    pub open spec fn reference(self, index: int) -> Option<u64> {
        if 0 <= index < self.arguments.len() {
            match self.arguments[index] {
                ArgumentView::Ref(id) => Some(id),
                _ => None,
            }
        } else {
            None
        }
    }

    /// The entities that an argument refers to, if it is a list.
    pub open spec fn references(self, index: int) -> Seq<u64> {
        if 0 <= index < self.arguments.len() {
            match self.arguments[index] {
                ArgumentView::List(items) => refs(items),
                _ => Seq::empty(),
            }
        } else {
            Seq::empty()
        }
    }
}

/// The first record that meets a condition.
pub open spec fn first_record(
    records: Seq<RecordView>,
    wanted: spec_fn(RecordView) -> bool,
) -> Option<RecordView>
    decreases records.len(),
{
    if records.len() == 0 {
        None
    } else if first_record(records.drop_last(), wanted) is Some {
        first_record(records.drop_last(), wanted)
    } else if wanted(records.last()) {
        Some(records.last())
    } else {
        None
    }
}

// ---------------------------------------------------------------------------
// Reading entities
// ---------------------------------------------------------------------------

impl Record {
    /// The entity that an argument refers to, if it is a reference.
    pub fn reference(&self, index: usize) -> (r: Option<u64>)
        ensures
            r == self@.reference(index as int),
    {
        if index < self.arguments.len() {
            assert(self@.arguments[index as int] == self.arguments@[index as int]@);
            match &self.arguments[index] {
                Argument::Ref(id) => Some(*id),
                _ => None,
            }
        } else {
            None
        }
    }

    /// The entities that an argument refers to, if it is a list.
    pub fn references(&self, index: usize) -> (r: Vec<u64>)
        ensures
            r@ == self@.references(index as int),
    {
        let mut r: Vec<u64> = Vec::new();
        if index < self.arguments.len() {
            assert(self@.arguments[index as int] == self.arguments@[index as int]@);
            if let Argument::List(items) = &self.arguments[index] {
                for i in 0..items.len()
                    invariant
                        r@ == refs(items@.take(i as int)),
                {
                    assert(items@.take(i + 1).drop_last() =~= items@.take(i as int));
                    if let Item::Ref(id) = items[i] {
                        r.push(id);
                    }
                }
                assert(items@.take(items@.len() as int) =~= items@);
            }
        }
        r
    }

    /// Whether the record has a name.
    pub fn is_named(&self, name: &str) -> (r: bool)
        ensures
            r == (self@.name == name@),
    {
        self.name.as_str().eq(name)
    }
}

impl Entity {
    /// The instance's name: the number behind `#`.
    pub fn id(&self) -> (r: u64)
        ensures
            r == self@.id(),
    {
        match self {
            Entity::Simple { id, .. } => *id,
            Entity::Complex { id, .. } => *id,
        }
    }

    /// How many records the entity has.
    pub fn record_count(&self) -> (r: usize)
        ensures
            r == self@.records().len(),
    {
        match self {
            Entity::Simple { .. } => 1,
            Entity::Complex { records, .. } => records.len(),
        }
    }

    /// A record of the entity.
    pub fn record_at(&self, index: usize) -> (r: &Record)
        requires
            index < self@.records().len(),
        ensures
            r@ == self@.records()[index as int],
    {
        match self {
            Entity::Simple { record, .. } => record,
            Entity::Complex { records, .. } => &records[index],
        }
    }

    /// The first record with a name.
    pub fn first_named(&self, name: &str) -> (r: Option<&Record>)
        ensures
            match r {
                Some(record) => first_record(
                    self@.records(),
                    |x: RecordView| x.name == name@,
                ) == Some(record@),
                None => first_record(self@.records(), |x: RecordView| x.name == name@) is None,
            },
    {
        let ghost wanted = |x: RecordView| x.name == name@;
        let count = self.record_count();
        for i in 0..count
            invariant
                count == self@.records().len(),
                wanted == (|x: RecordView| x.name == name@),
                first_record(self@.records().take(i as int), wanted) is None,
        {
            let record = self.record_at(i);
            proof {
                lemma_first_record_step(self@.records(), wanted, i as int);
            }
            if record.is_named(name) {
                return Some(record);
            }
        }
        assert(self@.records().take(self@.records().len() as int) =~= self@.records());
        None
    }
}

/// Looking at one more record: the first that meets the condition stays the first.
pub proof fn lemma_first_record_step(
    records: Seq<RecordView>,
    wanted: spec_fn(RecordView) -> bool,
    i: int,
)
    requires
        0 <= i < records.len(),
        first_record(records.take(i), wanted) is None,
    ensures
        first_record(records.take(i + 1), wanted) == (if wanted(records[i]) {
            Some(records[i])
        } else {
            None
        }),
        wanted(records[i]) ==> first_record(records, wanted) == Some(records[i]),
{
    assert(records.take(i + 1).drop_last() =~= records.take(i));
    if wanted(records[i]) {
        lemma_first_record_extend(records, wanted, i + 1);
    }
}

proof fn lemma_first_record_extend(
    records: Seq<RecordView>,
    wanted: spec_fn(RecordView) -> bool,
    n: int,
)
    requires
        0 <= n <= records.len(),
        first_record(records.take(n), wanted) is Some,
    ensures
        first_record(records, wanted) == first_record(records.take(n), wanted),
    decreases records.len() - n,
{
    if n == records.len() {
        assert(records.take(n) =~= records);
    } else {
        assert(records.take(n + 1).drop_last() =~= records.take(n));
        lemma_first_record_extend(records, wanted, n + 1);
    }
}

} // verus!
