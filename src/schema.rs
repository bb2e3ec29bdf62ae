use vstd::prelude::*;
use crate::tag::QName;
use crate::value::ScalarKind;

verus! {

/// How a field is bound to the element.
#[derive(Clone, Copy, PartialEq, Eq, Structural, Debug)]
pub enum Role {
    Attribute,
    Child,
    Text,
    FlattenText,
}

/// How many values a field holds.
#[derive(Clone, Copy, PartialEq, Eq, Structural, Debug)]
pub enum Cardinality {
    Scalar,
    Optional,
    Repeated,
}

/// One declared field. `tags` are the names it binds to (several for a
/// `Child` field with aliases; unused for `Text`). `kind` is the scalar type of
/// `Attribute`, `Text` and `FlattenText` values; `child_type` is the index in
/// the schema of the type a `Child` element is read as.
pub struct FieldSchema {
    pub name: String,
    pub role: Role,
    pub tags: Vec<QName>,
    pub card: Cardinality,
    pub default: bool,
    pub kind: ScalarKind,
    pub child_type: usize,
}

/// The shape of an element-bearing record.
pub struct RecordSchema {
    pub name: String,
    pub tag: QName,
    pub fields: Vec<FieldSchema>,
}

/// One case of a tagged union.
pub enum VariantSchema {
    /// Read by its own record reader, selected by the record's tag.
    Named(RecordSchema),
    /// Selected by any of `tags`, then read entirely as the type `inner`.
    Transparent { tags: Vec<QName>, inner: usize },
}

pub enum TypeSchema {
    Struct(RecordSchema),
    Enum { name: String, variants: Vec<VariantSchema> },
}

/// A table of record types; types refer to each other by index.
pub struct Schema {
    pub types: Vec<TypeSchema>,
}

pub open spec fn field_wf(f: FieldSchema, n_types: nat) -> bool {
    &&& (f.role == Role::Child ==> f.child_type < n_types && !f.default)
    &&& (f.role == Role::Attribute || f.role == Role::Text ==> f.card != Cardinality::Repeated)
}

/// The field is bound to a child element (a nested record or its text).
pub open spec fn is_nested(f: FieldSchema) -> bool {
    f.role == Role::Child || f.role == Role::FlattenText
}

/// Fields `i` and `j` cannot stand in one record: a record with a `Text`
/// field has no second one and no field bound to child elements.
pub open spec fn clash(fi: FieldSchema, fj: FieldSchema) -> bool {
    (fi.role == Role::Text && (fj.role == Role::Text || is_nested(fj))) || (is_nested(fi)
        && fj.role == Role::Text)
}

pub open spec fn record_wf(rs: RecordSchema, n_types: nat) -> bool {
    &&& forall|i: int| 0 <= i < rs.fields.len() ==> field_wf(#[trigger] rs.fields@[i], n_types)
    &&& forall|i: int, j: int|
        0 <= i < j < rs.fields.len() ==> !clash(#[trigger] rs.fields@[i], #[trigger] rs.fields@[j])
}

pub open spec fn variant_wf(v: VariantSchema, own: nat, n_types: nat) -> bool {
    match v {
        VariantSchema::Named(rs) => record_wf(rs, n_types),
        VariantSchema::Transparent { inner, .. } => inner < own,
    }
}

pub open spec fn variants_wf(variants: Seq<VariantSchema>, own: nat, n_types: nat) -> bool {
    forall|j: int| 0 <= j < variants.len() ==> variant_wf(#[trigger] variants[j], own, n_types)
}

pub open spec fn type_wf(t: TypeSchema, own: nat, n_types: nat) -> bool {
    match t {
        TypeSchema::Struct(rs) => record_wf(rs, n_types),
        TypeSchema::Enum { variants, .. } => variants_wf(variants@, own, n_types),
    }
}

impl Schema {
    /// Every `Child` field names a type of the table and has no default,
    /// attributes and text are never repeated, and a transparent variant
    /// names a type that comes earlier in the table (so delegation ends).
    pub open spec fn wf(&self) -> bool {
        forall|t: int|
            0 <= t < self.types.len() ==> type_wf(
                #[trigger] self.types@[t],
                t as nat,
                self.types.len() as nat,
            )
    }
}

fn field_ok(f: &FieldSchema, n_types: usize) -> (r: bool)
    ensures
        r == field_wf(*f, n_types as nat),
{
    let child_ok = f.role != Role::Child || (f.child_type < n_types && !f.default);
    let card_ok = (f.role != Role::Attribute && f.role != Role::Text) || f.card
        != Cardinality::Repeated;
    child_ok && card_ok
}

fn record_ok(rs: &RecordSchema, n_types: usize) -> (r: bool)
    ensures
        r == record_wf(*rs, n_types as nat),
{
    let ghost fields = rs.fields@;
    let mut seen_text = false;
    let mut seen_nested = false;
    let mut i: usize = 0;
    while i < rs.fields.len()
        invariant
            i <= rs.fields.len(),
            fields == rs.fields@,
            forall|j: int| 0 <= j < i ==> field_wf(#[trigger] fields[j], n_types as nat),
            forall|a: int, b: int| 0 <= a < b < i ==> !clash(#[trigger] fields[a], #[trigger] fields[b]),
            seen_text == exists|a: int| 0 <= a < i && (#[trigger] fields[a]).role == Role::Text,
            seen_nested == exists|a: int| 0 <= a < i && is_nested(#[trigger] fields[a]),
        decreases rs.fields.len() - i,
    {
        let f = &rs.fields[i];
        if !field_ok(f, n_types) {
            return false;
        }
        let text = f.role == Role::Text;
        let nested = f.role == Role::Child || f.role == Role::FlattenText;
        if (text && (seen_text || seen_nested)) || (nested && seen_text) {
            proof {
                let a = if text && seen_text {
                    choose|a: int| 0 <= a < i && (#[trigger] fields[a]).role == Role::Text
                } else if text {
                    choose|a: int| 0 <= a < i && is_nested(#[trigger] fields[a])
                } else {
                    choose|a: int| 0 <= a < i && (#[trigger] fields[a]).role == Role::Text
                };
                assert(clash(fields[a], fields[i as int]));
            }
            return false;
        }
        proof {
            assert forall|a: int, b: int| 0 <= a < b < i + 1 implies !clash(
                #[trigger] fields[a],
                #[trigger] fields[b],
            ) by {
                if b == i {
                    if fields[a].role == Role::Text {
                        assert(seen_text);
                    }
                    if is_nested(fields[a]) {
                        assert(seen_nested);
                    }
                }
            }
        }
        seen_text = seen_text || text;
        seen_nested = seen_nested || nested;
        i = i + 1;
    }
    true
}

fn variants_ok(variants: &Vec<VariantSchema>, own: usize, n_types: usize) -> (r: bool)
    ensures
        r == variants_wf(variants@, own as nat, n_types as nat),
{
    let mut j: usize = 0;
    while j < variants.len()
        invariant
            j <= variants.len(),
            forall|q: int|
                0 <= q < j ==> variant_wf(#[trigger] variants@[q], own as nat, n_types as nat),
        decreases variants.len() - j,
    {
        let ok = match &variants[j] {
            VariantSchema::Named(rs) => record_ok(rs, n_types),
            VariantSchema::Transparent { inner, .. } => *inner < own,
        };
        if !ok {
            return false;
        }
        j = j + 1;
    }
    true
}

fn type_ok(t: &TypeSchema, own: usize, n_types: usize) -> (r: bool)
    ensures
        r == type_wf(*t, own as nat, n_types as nat),
{
    match t {
        TypeSchema::Struct(rs) => record_ok(rs, n_types),
        TypeSchema::Enum { variants, .. } => variants_ok(variants, own, n_types),
    }
}

impl Schema {
    /// Tells whether the schema is well formed, so that readers may be run
    /// with it.
    pub fn check(&self) -> (r: bool)
        ensures
            r == self.wf(),
    {
        let mut t: usize = 0;
        while t < self.types.len()
            invariant
                t <= self.types.len(),
                forall|q: int|
                    0 <= q < t ==> type_wf(
                        #[trigger] self.types@[q],
                        q as nat,
                        self.types.len() as nat,
                    ),
            decreases self.types.len() - t,
        {
            if !type_ok(&self.types[t], t, self.types.len()) {
                return false;
            }
            t = t + 1;
        }
        true
    }
}

} // verus!
