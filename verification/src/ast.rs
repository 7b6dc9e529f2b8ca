//! The exchange structure of a STEP Part 21 file.
//!
//! Every type has a view made of sequences, so that contracts compare contents and never
//! the identity of a `Vec` or a `String`.

use vstd::prelude::*;

verus! {

/// A reference as it stands in a parameter: `#12`, `@12`, `#NAME` or `@NAME`.
#[derive(Debug)]
pub enum Name {
    Entity(u64),
    Value(u64),
    ConstantEntity(String),
    ConstantValue(String),
}

/// A value in a record. A real number is kept as its shortest decimal text.
#[derive(Debug)]
pub enum Parameter {
    Typed { keyword: String, parameter: Box<Parameter> },
    Integer(i64),
    Real(String),
    String(String),
    Enumeration(String),
    List(Vec<Parameter>),
    Ref(Name),
    NotProvided,
    Omitted,
}

/// A keyword with its parameter list, such as `DIRECTION('',(1.,0.,0.))`.
#[derive(Debug)]
pub struct Record {
    pub name: String,
    pub parameter: Parameter,
}

/// One line of a DATA section.
#[derive(Debug)]
pub enum EntityInstance {
    Simple { id: u64, record: Record },
    Complex { id: u64, subsuper: Vec<Record> },
}

/// A DATA section.
#[derive(Debug)]
pub struct DataSection {
    pub meta: Vec<Parameter>,
    pub entities: Vec<EntityInstance>,
}

/// A whole exchange file. Of the optional sections only their sizes are kept: a file that
/// has one is refused.
#[derive(Debug)]
pub struct Exchange {
    pub header: Vec<Record>,
    pub anchor: usize,
    pub reference: usize,
    pub data: Vec<DataSection>,
    pub signature: usize,
}

pub enum NameView {
    Entity(u64),
    Value(u64),
    ConstantEntity(Seq<char>),
    ConstantValue(Seq<char>),
}

pub enum ParamView {
    Typed { keyword: Seq<char>, parameter: Box<ParamView> },
    Integer(i64),
    Real(Seq<char>),
    String(Seq<char>),
    Enumeration(Seq<char>),
    List(Seq<ParamView>),
    Ref(NameView),
    NotProvided,
    Omitted,
}

#[verifier::ext_equal]
pub struct RecordView {
    pub name: Seq<char>,
    pub parameter: ParamView,
}

#[verifier::ext_equal]
pub enum EntityView {
    Simple { id: u64, record: RecordView },
    Complex { id: u64, subsuper: Seq<RecordView> },
}

#[verifier::ext_equal]
pub struct SectionView {
    pub meta: Seq<ParamView>,
    pub entities: Seq<EntityView>,
}

#[verifier::ext_equal]
pub struct ExchangeView {
    pub header: Seq<RecordView>,
    pub anchor: nat,
    pub reference: nat,
    pub data: Seq<SectionView>,
    pub signature: nat,
}

impl View for Name {
    type V = NameView;

    open spec fn view(&self) -> NameView {
        match self {
            Name::Entity(id) => NameView::Entity(*id),
            Name::Value(id) => NameView::Value(*id),
            Name::ConstantEntity(s) => NameView::ConstantEntity(s@),
            Name::ConstantValue(s) => NameView::ConstantValue(s@),
        }
    }
}

pub open spec fn param_view(p: Parameter) -> ParamView
    decreases p,
{
    match p {
        Parameter::Typed { keyword, parameter } => ParamView::Typed {
            keyword: keyword@,
            parameter: Box::new(param_view(*parameter)),
        },
        Parameter::Integer(v) => ParamView::Integer(v),
        Parameter::Real(s) => ParamView::Real(s@),
        Parameter::String(s) => ParamView::String(s@),
        Parameter::Enumeration(s) => ParamView::Enumeration(s@),
        Parameter::List(items) => ParamView::List(
            Seq::new(
                items@.len(),
                |i: int|
                    if 0 <= i < items@.len() {
                        param_view(items@[i])
                    } else {
                        ParamView::Omitted
                    },
            ),
        ),
        Parameter::Ref(name) => ParamView::Ref(name@),
        Parameter::NotProvided => ParamView::NotProvided,
        Parameter::Omitted => ParamView::Omitted,
    }
}

impl View for Parameter {
    type V = ParamView;

    open spec fn view(&self) -> ParamView {
        param_view(*self)
    }
}

pub open spec fn params_view(items: Seq<Parameter>) -> Seq<ParamView> {
    Seq::new(items.len(), |i: int| items[i]@)
}

impl View for Record {
    type V = RecordView;

    open spec fn view(&self) -> RecordView {
        RecordView { name: self.name@, parameter: self.parameter@ }
    }
}

pub open spec fn records_view(records: Seq<Record>) -> Seq<RecordView> {
    Seq::new(records.len(), |i: int| records[i]@)
}

impl View for EntityInstance {
    type V = EntityView;

    open spec fn view(&self) -> EntityView {
        match self {
            EntityInstance::Simple { id, record } => EntityView::Simple {
                id: *id,
                record: record@,
            },
            EntityInstance::Complex { id, subsuper } => EntityView::Complex {
                id: *id,
                subsuper: records_view(subsuper@),
            },
        }
    }
}

pub open spec fn entities_view(entities: Seq<EntityInstance>) -> Seq<EntityView> {
    Seq::new(entities.len(), |i: int| entities[i]@)
}

impl View for DataSection {
    type V = SectionView;

    open spec fn view(&self) -> SectionView {
        SectionView { meta: params_view(self.meta@), entities: entities_view(self.entities@) }
    }
}

pub open spec fn sections_view(sections: Seq<DataSection>) -> Seq<SectionView> {
    Seq::new(sections.len(), |i: int| sections[i]@)
}

impl View for Exchange {
    type V = ExchangeView;

    open spec fn view(&self) -> ExchangeView {
        ExchangeView {
            header: records_view(self.header@),
            anchor: self.anchor as nat,
            reference: self.reference as nat,
            data: sections_view(self.data@),
            signature: self.signature as nat,
        }
    }
}

impl EntityView {
    pub open spec fn id(self) -> u64 {
        match self {
            EntityView::Simple { id, .. } => id,
            EntityView::Complex { id, .. } => id,
        }
    }

    /// The records of the entity: one for a simple entity, any number for a complex one.
    pub open spec fn records(self) -> Seq<RecordView> {
        match self {
            EntityView::Simple { record, .. } => seq![record],
            EntityView::Complex { subsuper, .. } => subsuper,
        }
    }

    /// The same entity under another id.
    pub open spec fn with_id(self, new_id: u64) -> EntityView {
        match self {
            EntityView::Simple { record, .. } => EntityView::Simple { id: new_id, record },
            EntityView::Complex { subsuper, .. } => EntityView::Complex { id: new_id, subsuper },
        }
    }
}

impl Clone for Name {
    fn clone(&self) -> (out: Name)
        ensures
            out@ == self@,
    {
        match self {
            Name::Entity(id) => Name::Entity(*id),
            Name::Value(id) => Name::Value(*id),
            Name::ConstantEntity(s) => Name::ConstantEntity(s.clone()),
            Name::ConstantValue(s) => Name::ConstantValue(s.clone()),
        }
    }
}

impl Clone for Parameter {
    fn clone(&self) -> (out: Parameter)
        ensures
            out@ == self@,
        decreases self,
    {
        match self {
            Parameter::Typed { keyword, parameter } => Parameter::Typed {
                keyword: keyword.clone(),
                parameter: Box::new((&**parameter).clone()),
            },
            Parameter::Integer(v) => Parameter::Integer(*v),
            Parameter::Real(s) => Parameter::Real(s.clone()),
            Parameter::String(s) => Parameter::String(s.clone()),
            Parameter::Enumeration(s) => Parameter::Enumeration(s.clone()),
            Parameter::List(items) => {
                let mut out: Vec<Parameter> = Vec::new();
                let mut i: usize = 0;
                while i < items.len()
                    invariant
                        i <= items.len(),
                        out.len() == i,
                        decreases_to!(self => items@),
                        forall|j: int| 0 <= j < i ==> (#[trigger] out@[j])@ == items@[j]@,
                    decreases items.len() - i,
                {
                    let item = (&items[i]).clone();
                    out.push(item);
                    i = i + 1;
                }
                let copy = Parameter::List(out);
                assert(copy@->List_0 =~= self@->List_0);
                copy
            },
            Parameter::Ref(name) => Parameter::Ref(name.clone()),
            Parameter::NotProvided => Parameter::NotProvided,
            Parameter::Omitted => Parameter::Omitted,
        }
    }
}

pub fn clone_params(items: &Vec<Parameter>) -> (out: Vec<Parameter>)
    ensures
        params_view(out@) == params_view(items@),
{
    let mut out: Vec<Parameter> = Vec::new();
    let mut i: usize = 0;
    while i < items.len()
        invariant
            i <= items.len(),
            out.len() == i,
            forall|j: int| 0 <= j < i ==> (#[trigger] out@[j])@ == items@[j]@,
        decreases items.len() - i,
    {
        out.push(items[i].clone());
        i = i + 1;
    }
    assert(params_view(out@) =~= params_view(items@));
    out
}

impl Clone for Record {
    fn clone(&self) -> (out: Record)
        ensures
            out@ == self@,
    {
        Record { name: self.name.clone(), parameter: self.parameter.clone() }
    }
}

impl Clone for EntityInstance {
    fn clone(&self) -> (out: EntityInstance)
        ensures
            out@ == self@,
    {
        match self {
            EntityInstance::Simple { id, record } => EntityInstance::Simple {
                id: *id,
                record: record.clone(),
            },
            EntityInstance::Complex { id, subsuper } => {
                let mut out: Vec<Record> = Vec::new();
                let mut i: usize = 0;
                while i < subsuper.len()
                    invariant
                        i <= subsuper.len(),
                        out.len() == i,
                        forall|j: int| 0 <= j < i ==> (#[trigger] out@[j])@ == subsuper@[j]@,
                    decreases subsuper.len() - i,
                {
                    out.push(subsuper[i].clone());
                    i = i + 1;
                }
                assert(records_view(out@) =~= records_view(subsuper@));
                EntityInstance::Complex { id: *id, subsuper: out }
            },
        }
    }
}

pub fn clone_entities(entities: &Vec<EntityInstance>) -> (out: Vec<EntityInstance>)
    ensures
        entities_view(out@) == entities_view(entities@),
{
    let mut out: Vec<EntityInstance> = Vec::new();
    let mut i: usize = 0;
    while i < entities.len()
        invariant
            i <= entities.len(),
            out.len() == i,
            forall|j: int| 0 <= j < i ==> (#[trigger] out@[j])@ == entities@[j]@,
        decreases entities.len() - i,
    {
        out.push(entities[i].clone());
        i = i + 1;
    }
    assert(entities_view(out@) =~= entities_view(entities@));
    out
}

/// The id of an entity.
pub fn entity_id(entity: &EntityInstance) -> (id: u64)
    ensures
        id == entity@.id(),
{
    match entity {
        EntityInstance::Simple { id, .. } => *id,
        EntityInstance::Complex { id, .. } => *id,
    }
}

/// Two parameters hold the same value. Reals are compared by their text.
pub fn same_param(a: &Parameter, b: &Parameter) -> (same: bool)
    ensures
        same == (a@ == b@),
    decreases a,
{
    match (a, b) {
        (Parameter::Typed { keyword: ka, parameter: pa }, Parameter::Typed { keyword: kb, parameter: pb }) => {
            *ka == *kb && same_param(&**pa, &**pb)
        },
        (Parameter::Integer(x), Parameter::Integer(y)) => *x == *y,
        (Parameter::Real(x), Parameter::Real(y)) => *x == *y,
        (Parameter::String(x), Parameter::String(y)) => *x == *y,
        (Parameter::Enumeration(x), Parameter::Enumeration(y)) => *x == *y,
        (Parameter::List(x), Parameter::List(y)) => {
            if x.len() != y.len() {
                assert(a@->List_0.len() != b@->List_0.len());
                return false;
            }
            proof {
                lemma_list_view(*x);
                lemma_list_view(*y);
            }
            let mut i: usize = 0;
            while i < x.len()
                invariant
                    i <= x.len(),
                    x.len() == y.len(),
                    decreases_to!(a => x@),
                    a@ == ParamView::List(params_view(x@)),
                    b@ == ParamView::List(params_view(y@)),
                    forall|j: int| 0 <= j < i ==> (#[trigger] x@[j])@ == y@[j]@,
                decreases x.len() - i,
            {
                if !same_param(&x[i], &y[i]) {
                    assert(params_view(x@)[i as int] != params_view(y@)[i as int]);
                    return false;
                }
                i = i + 1;
            }
            assert(params_view(x@) =~= params_view(y@));
            true
        },
        (Parameter::Ref(x), Parameter::Ref(y)) => match (x, y) {
            (Name::Entity(i), Name::Entity(j)) => *i == *j,
            (Name::Value(i), Name::Value(j)) => *i == *j,
            (Name::ConstantEntity(i), Name::ConstantEntity(j)) => *i == *j,
            (Name::ConstantValue(i), Name::ConstantValue(j)) => *i == *j,
            _ => false,
        },
        (Parameter::NotProvided, Parameter::NotProvided) => true,
        (Parameter::Omitted, Parameter::Omitted) => true,
        _ => false,
    }
}

/// What the view of a list parameter holds.
pub proof fn lemma_list_view(items: Vec<Parameter>)
    ensures
        Parameter::List(items)@ == ParamView::List(params_view(items@)),
{
    assert(Parameter::List(items)@->List_0 =~= params_view(items@));
}

} // verus!
