use vstd::prelude::*;

verus! {

/// The scalar types a text value can be coerced into.
#[derive(Clone, Copy, PartialEq, Eq, Debug)]
pub enum ScalarKind {
    Str,
    Bool,
    Int,
}

/// A parse failure, returned whole to the caller.
#[derive(PartialEq, Eq, Debug)]
pub enum XmlError {
    /// A required scalar field of the named record was never populated.
    MissingField { record: String, field: String },
    /// `text` could not be converted into a value of `kind`.
    FromStr { kind: ScalarKind, text: String },
    /// The input ended before an expected element was found.
    UnexpectedEof,
}

/// Mathematical model of an `XmlError`.
pub enum ErrorV {
    MissingField { record: Seq<char>, field: Seq<char> },
    FromStr { kind: ScalarKind, text: Seq<char> },
    UnexpectedEof,
}

impl XmlError {
    pub open spec fn view(&self) -> ErrorV {
        match *self {
            XmlError::MissingField { record, field } => ErrorV::MissingField {
                record: record@,
                field: field@,
            },
            XmlError::FromStr { kind, text } => ErrorV::FromStr { kind, text: text@ },
            XmlError::UnexpectedEof => ErrorV::UnexpectedEof,
        }
    }
}

/// A value held by a field of a parsed record.
#[derive(PartialEq, Eq, Debug)]
pub enum Value {
    Str(String),
    Bool(bool),
    Int(i64),
    Rec(Record),
}

/// A parsed record: the variant it was read as (0 for a plain struct) and one
/// slot per declared field, in declared order.
#[derive(PartialEq, Eq, Debug)]
pub struct Record {
    pub variant: usize,
    pub fields: Vec<Slot>,
}

/// A field's value, shaped by the field's cardinality.
#[derive(PartialEq, Eq, Debug)]
pub enum Slot {
    One(Value),
    Opt(Option<Value>),
    Many(Vec<Value>),
}

/// Mathematical model of a `Value`.
pub enum ValueV {
    Str(Seq<char>),
    Bool(bool),
    Int(i64),
    Rec(RecordV),
}

/// Mathematical model of a `Record`.
pub struct RecordV {
    pub variant: nat,
    pub fields: Seq<SlotV>,
}

/// Mathematical model of a `Slot`.
pub enum SlotV {
    One(ValueV),
    Opt(Option<ValueV>),
    Many(Seq<ValueV>),
}

pub open spec fn value_view(v: Value) -> ValueV
    decreases v,
{
    match v {
        Value::Str(s) => ValueV::Str(s@),
        Value::Bool(b) => ValueV::Bool(b),
        Value::Int(n) => ValueV::Int(n),
        Value::Rec(r) => ValueV::Rec(
            RecordV { variant: r.variant as nat, fields: slots_view(r.fields, r.fields.len() as nat) },
        ),
    }
}

/// Models of the first `n` slots of `s`.
pub open spec fn slots_view(s: Vec<Slot>, n: nat) -> Seq<SlotV>
    decreases s, n,
{
    if n == 0 || n > s.len() {
        Seq::empty()
    } else {
        slots_view(s, (n - 1) as nat).push(slot_view(s[n - 1]))
    }
}

pub open spec fn opt_view(o: Option<Value>) -> Option<ValueV>
    decreases o,
{
    match o {
        Some(v) => Some(value_view(v)),
        None => None,
    }
}

pub open spec fn slot_view(s: Slot) -> SlotV
    decreases s,
{
    match s {
        Slot::One(v) => SlotV::One(value_view(v)),
        Slot::Opt(o) => SlotV::Opt(opt_view(o)),
        Slot::Many(vs) => SlotV::Many(values_view(vs, vs.len() as nat)),
    }
}

/// Models of the first `n` values of `s`.
pub open spec fn values_view(s: Vec<Value>, n: nat) -> Seq<ValueV>
    decreases s, n,
{
    if n == 0 || n > s.len() {
        Seq::empty()
    } else {
        values_view(s, (n - 1) as nat).push(value_view(s[n - 1]))
    }
}

impl Record {
    pub open spec fn view(&self) -> RecordV {
        value_view(Value::Rec(*self))->Rec_0
    }
}

pub open spec fn value_result(r: Result<Value, XmlError>) -> Result<ValueV, ErrorV> {
    match r {
        Ok(v) => Ok(value_view(v)),
        Err(e) => Err(e@),
    }
}

pub open spec fn record_result(r: Result<Record, XmlError>) -> Result<RecordV, ErrorV> {
    match r {
        Ok(v) => Ok(v@),
        Err(e) => Err(e@),
    }
}

pub open spec fn all_slots(s: Vec<Slot>) -> Seq<SlotV> {
    slots_view(s, s.len() as nat)
}

pub open spec fn all_values(s: Vec<Value>) -> Seq<ValueV> {
    values_view(s, s.len() as nat)
}

pub proof fn lemma_slots_view(s: Vec<Slot>, n: nat)
    requires
        n <= s.len(),
    ensures
        slots_view(s, n).len() == n,
        forall|j: int| 0 <= j < n ==> #[trigger] slots_view(s, n)[j] == slot_view(s[j]),
    decreases n,
{
    if n > 0 {
        lemma_slots_view(s, (n - 1) as nat);
    }
}

pub proof fn lemma_values_view(s: Vec<Value>, n: nat)
    requires
        n <= s.len(),
    ensures
        values_view(s, n).len() == n,
        forall|j: int| 0 <= j < n ==> #[trigger] values_view(s, n)[j] == value_view(s[j]),
    decreases n,
{
    if n > 0 {
        lemma_values_view(s, (n - 1) as nat);
    }
}

/// The model of a whole vector of slots, entry by entry.
pub proof fn lemma_all_slots(s: Vec<Slot>)
    ensures
        all_slots(s).len() == s.len(),
        forall|j: int| 0 <= j < s.len() ==> #[trigger] all_slots(s)[j] == slot_view(s[j]),
{
    lemma_slots_view(s, s.len() as nat);
}

/// The model of a whole vector of values, entry by entry.
pub proof fn lemma_all_values(s: Vec<Value>)
    ensures
        all_values(s).len() == s.len(),
        forall|j: int| 0 <= j < s.len() ==> #[trigger] all_values(s)[j] == value_view(s[j]),
{
    lemma_values_view(s, s.len() as nat);
}

} // verus!
