use vstd::prelude::*;
use crate::coerce::{coerce, coerce_spec};
use crate::schema::{
    Cardinality, FieldSchema, RecordSchema, Role, Schema, TypeSchema, VariantSchema, field_wf,
    record_wf, type_wf, variant_wf, variants_wf,
};
use crate::tag::QName;
use crate::tree::{Attr, Element, Node, text_of};
use crate::value::{
    ErrorV, Record, RecordV, ScalarKind, Slot, SlotV, Value, ValueV, XmlError, all_slots,
    all_values, lemma_all_slots, lemma_all_values, record_result, slot_view, value_view,
};

verus! {

/// One of the field's declared tags is `n`.
pub open spec fn has_tag(f: FieldSchema, n: QName) -> bool {
    name_in(f.tags@, n)
}

/// Field `f` takes a token named `n` in the given role (a `Text` field takes
/// the element's text whatever its name).
pub open spec fn binds(f: FieldSchema, role: Role, n: QName) -> bool {
    f.role == role && (role == Role::Text || has_tag(f, n))
}

/// The first of the first `k` fields that binds `n` in `role`.
pub open spec fn first_field(fields: Seq<FieldSchema>, role: Role, n: QName, k: nat) -> Option<nat>
    decreases k,
{
    if k == 0 || k > fields.len() {
        None
    } else {
        match first_field(fields, role, n, (k - 1) as nat) {
            Some(i) => Some(i),
            None => if binds(fields[k - 1], role, n) {
                Some((k - 1) as nat)
            } else {
                None
            },
        }
    }
}

/// The field, in declared order, that a token named `n` in `role` is routed to.
pub open spec fn field_for(fields: Seq<FieldSchema>, role: Role, n: QName) -> Option<nat> {
    first_field(fields, role, n, fields.len())
}

/// The empty slot of each field: an empty sequence for a repeated one,
/// nothing for the others.
pub open spec fn init_acc(fields: Seq<FieldSchema>) -> Seq<SlotV> {
    Seq::new(
        fields.len(),
        |i: int|
            if fields[i].card == Cardinality::Repeated {
                SlotV::Many(Seq::empty())
            } else {
                SlotV::Opt(None)
            },
    )
}

/// Slot `k` after value `v` arrived: appended for a repeated field,
/// overwriting for the others.
pub open spec fn store(acc: Seq<SlotV>, k: int, f: FieldSchema, v: ValueV) -> Seq<SlotV> {
    if f.card == Cardinality::Repeated {
        acc.update(k, SlotV::Many(acc[k]->Many_0.push(v)))
    } else {
        acc.update(k, SlotV::Opt(Some(v)))
    }
}

/// Every slot has the shape its field's cardinality gives it while reading.
pub open spec fn shaped(fields: Seq<FieldSchema>, acc: Seq<SlotV>) -> bool {
    &&& acc.len() == fields.len()
    &&& forall|i: int|
        0 <= i < acc.len() ==> (if fields[i].card == Cardinality::Repeated {
            #[trigger] acc[i] is Many
        } else {
            acc[i] is Opt
        })
}

/// The slots after attribute `a` was read.
pub open spec fn attr_step(rs: RecordSchema, acc: Seq<SlotV>, a: Attr) -> Result<Seq<SlotV>, ErrorV> {
    match field_for(rs.fields@, Role::Attribute, a.name) {
        None => Ok(acc),
        Some(k) => match coerce_spec(rs.fields@[k as int].kind, a.value@) {
            Ok(v) => Ok(store(acc, k as int, rs.fields@[k as int], v)),
            Err(x) => Err(x),
        },
    }
}

/// The slots after the first `n` attributes of `e` were read.
pub open spec fn read_attrs_spec(rs: RecordSchema, e: Element, n: nat) -> Result<Seq<SlotV>, ErrorV>
    decreases n,
{
    if n == 0 || n > e.attrs.len() {
        Ok(init_acc(rs.fields@))
    } else {
        match read_attrs_spec(rs, e, (n - 1) as nat) {
            Ok(acc) => attr_step(rs, acc, e.attrs@[n - 1]),
            Err(x) => Err(x),
        }
    }
}

/// The slots of a text-only record after its text was read.
pub open spec fn text_step(rs: RecordSchema, acc: Seq<SlotV>, e: Element) -> Result<Seq<SlotV>, ErrorV> {
    match field_for(rs.fields@, Role::Text, e.name) {
        None => Ok(acc),
        Some(k) => match coerce_spec(rs.fields@[k as int].kind, text_of(e)) {
            Ok(v) => Ok(store(acc, k as int, rs.fields@[k as int], v)),
            Err(x) => Err(x),
        },
    }
}

/// The final value of one field from its slot.
pub open spec fn final_slot(rs: RecordSchema, f: FieldSchema, s: SlotV) -> Result<SlotV, ErrorV> {
    if f.card != Cardinality::Scalar {
        Ok(s)
    } else {
        match s {
            SlotV::Opt(Some(v)) => Ok(SlotV::One(v)),
            _ => if f.default {
                Ok(SlotV::One(default_value(f.kind)))
            } else {
                Err(ErrorV::MissingField { record: rs.name@, field: f.name@ })
            },
        }
    }
}

/// The zero value of a scalar kind.
pub open spec fn default_value(kind: ScalarKind) -> ValueV {
    match kind {
        ScalarKind::Str => ValueV::Str(Seq::empty()),
        ScalarKind::Bool => ValueV::Bool(false),
        ScalarKind::Int => ValueV::Int(0),
    }
}

/// The final values of the first `n` fields; the first field in declared
/// order that fails decides the error.
pub open spec fn finalize(rs: RecordSchema, acc: Seq<SlotV>, n: nat) -> Result<Seq<SlotV>, ErrorV>
    decreases n,
{
    if n == 0 || n > rs.fields.len() {
        Ok(Seq::empty())
    } else {
        match finalize(rs, acc, (n - 1) as nat) {
            Ok(out) => match final_slot(rs, rs.fields@[n - 1], acc[n - 1]) {
                Ok(s) => Ok(out.push(s)),
                Err(x) => Err(x),
            },
            Err(x) => Err(x),
        }
    }
}

/// A record has inline text content when one of its fields has the `Text` role.
pub open spec fn is_text_record(rs: RecordSchema, e: Element) -> bool {
    field_for(rs.fields@, Role::Text, e.name) is Some
}

/// The slots after the attributes and the first `n` content nodes of `e`
/// were read: a child bound to a `Child` field is read as that field's type,
/// one bound to a `FlattenText` field gives its text, any other is skipped.
pub open spec fn read_children_spec(s: Schema, rs: RecordSchema, e: Element, n: nat) -> Result<
    Seq<SlotV>,
    ErrorV,
>
    decreases e, n,
{
    if n == 0 || n > e.children.len() {
        read_attrs_spec(rs, e, e.attrs.len() as nat)
    } else {
        match read_children_spec(s, rs, e, (n - 1) as nat) {
            Err(x) => Err(x),
            Ok(acc) => match e.children@[n - 1] {
                Node::Text(_) => Ok(acc),
                Node::Elem(c) => match field_for(rs.fields@, Role::Child, c.name) {
                    Some(k) => match read_element_spec(s, rs.fields@[k as int].child_type as nat, c) {
                        Ok(r) => Ok(store(acc, k as int, rs.fields@[k as int], ValueV::Rec(r))),
                        Err(x) => Err(x),
                    },
                    None => match field_for(rs.fields@, Role::FlattenText, c.name) {
                        Some(k) => match coerce_spec(rs.fields@[k as int].kind, text_of(c)) {
                            Ok(v) => Ok(store(acc, k as int, rs.fields@[k as int], v)),
                            Err(x) => Err(x),
                        },
                        None => Ok(acc),
                    },
                },
            },
        }
    }
}

/// The fields of a record read from element `e` with record schema `rs`.
pub open spec fn read_record_spec(s: Schema, rs: RecordSchema, e: Element) -> Result<Seq<SlotV>, ErrorV>
    decreases e, e.children.len() + 1,
{
    let body = if is_text_record(rs, e) {
        match read_attrs_spec(rs, e, e.attrs.len() as nat) {
            Ok(acc) => text_step(rs, acc, e),
            Err(x) => Err(x),
        }
    } else {
        read_children_spec(s, rs, e, e.children.len() as nat)
    };
    match body {
        Ok(acc) => finalize(rs, acc, rs.fields.len() as nat),
        Err(x) => Err(x),
    }
}

/// Variant `v` is selected by the name `n`.
pub open spec fn variant_takes(v: VariantSchema, n: QName) -> bool {
    match v {
        VariantSchema::Named(rs) => rs.tag.same(n),
        VariantSchema::Transparent { tags, .. } => name_in(tags@, n),
    }
}

/// The first of the first `k` variants selected by `n`.
pub open spec fn first_variant(vs: Seq<VariantSchema>, n: QName, k: nat) -> Option<nat>
    decreases k,
{
    if k == 0 || k > vs.len() {
        None
    } else {
        match first_variant(vs, n, (k - 1) as nat) {
            Some(i) => Some(i),
            None => if variant_takes(vs[k - 1], n) {
                Some((k - 1) as nat)
            } else {
                None
            },
        }
    }
}

pub open spec fn variant_for(vs: Seq<VariantSchema>, n: QName) -> Option<nat> {
    first_variant(vs, n, vs.len())
}

/// The record that element `e` reads as, as the type `ty` of the schema. A
/// struct is read by its record reader; a union picks its variant by the
/// element's name and fails with `UnexpectedEof` when none takes it.
pub open spec fn read_element_spec(s: Schema, ty: nat, e: Element) -> Result<RecordV, ErrorV>
    decreases e, e.children.len() + 2 + ty,
{
    if ty >= s.types.len() {
        Err(ErrorV::UnexpectedEof)
    } else {
        match s.types@[ty as int] {
            TypeSchema::Struct(rs) => match read_record_spec(s, rs, e) {
                Ok(fs) => Ok(RecordV { variant: 0, fields: fs }),
                Err(x) => Err(x),
            },
            TypeSchema::Enum { variants, .. } => match variant_for(variants@, e.name) {
                None => Err(ErrorV::UnexpectedEof),
                Some(v) => match variants@[v as int] {
                    VariantSchema::Named(rs) => match read_record_spec(s, rs, e) {
                        Ok(fs) => Ok(RecordV { variant: v, fields: fs }),
                        Err(x) => Err(x),
                    },
                    VariantSchema::Transparent { inner, .. } => if inner < ty {
                        match read_element_spec(s, inner as nat, e) {
                            Ok(r) => Ok(
                                RecordV { variant: v, fields: seq![SlotV::One(ValueV::Rec(r))] },
                            ),
                            Err(x) => Err(x),
                        }
                    } else {
                        Err(ErrorV::UnexpectedEof)
                    },
                },
            },
        }
    }
}

/// The type `ty` reads an element named `n`: a struct by its tag, a union
/// when one of its variants takes the name.
pub open spec fn accepts(s: Schema, ty: nat, n: QName) -> bool {
    ty < s.types.len() && match s.types@[ty as int] {
        TypeSchema::Struct(rs) => rs.tag.same(n),
        TypeSchema::Enum { variants, .. } => variant_for(variants@, n) is Some,
    }
}

/// The first of the first `k` nodes that is an element the type `ty` reads.
pub open spec fn first_accepted(s: Schema, ty: nat, nodes: Seq<Node>, k: nat) -> Option<nat>
    decreases k,
{
    if k == 0 || k > nodes.len() {
        None
    } else {
        match first_accepted(s, ty, nodes, (k - 1) as nat) {
            Some(i) => Some(i),
            None => if nodes[k - 1] is Elem && accepts(s, ty, nodes[k - 1]->Elem_0.name) {
                Some((k - 1) as nat)
            } else {
                None
            },
        }
    }
}

/// Reading a record of type `ty` from a sequence of sibling nodes: the nodes
/// before the first element the type reads are skipped; with no such element
/// the input ended too early.
pub open spec fn read_nodes_spec(s: Schema, ty: nat, nodes: Seq<Node>) -> Result<RecordV, ErrorV> {
    match first_accepted(s, ty, nodes, nodes.len()) {
        Some(i) => read_element_spec(s, ty, nodes[i as int]->Elem_0),
        None => Err(ErrorV::UnexpectedEof),
    }
}

pub open spec fn slots_result(r: Result<Vec<Slot>, XmlError>) -> Result<Seq<SlotV>, ErrorV> {
    match r {
        Ok(v) => Ok(all_slots(v)),
        Err(e) => Err(e@),
    }
}

pub proof fn lemma_first_field_stays(fields: Seq<FieldSchema>, role: Role, n: QName, i: nat, k: nat)
    requires
        i <= k <= fields.len(),
        first_field(fields, role, n, i) is Some,
    ensures
        first_field(fields, role, n, k) == first_field(fields, role, n, i),
    decreases k,
{
    if k > i {
        lemma_first_field_stays(fields, role, n, i, (k - 1) as nat);
    }
}

proof fn lemma_first_variant_stays(vs: Seq<VariantSchema>, n: QName, i: nat, k: nat)
    requires
        i <= k <= vs.len(),
        first_variant(vs, n, i) is Some,
    ensures
        first_variant(vs, n, k) == first_variant(vs, n, i),
    decreases k,
{
    if k > i {
        lemma_first_variant_stays(vs, n, i, (k - 1) as nat);
    }
}

proof fn lemma_first_accepted_stays(s: Schema, ty: nat, nodes: Seq<Node>, i: nat, k: nat)
    requires
        i <= k <= nodes.len(),
        first_accepted(s, ty, nodes, i) is Some,
    ensures
        first_accepted(s, ty, nodes, k) == first_accepted(s, ty, nodes, i),
    decreases k,
{
    if k > i {
        lemma_first_accepted_stays(s, ty, nodes, i, (k - 1) as nat);
    }
}

pub proof fn lemma_attrs_err_stays(rs: RecordSchema, e: Element, i: nat, k: nat)
    requires
        i <= k <= e.attrs.len(),
        1 <= i,
        read_attrs_spec(rs, e, i) is Err,
    ensures
        read_attrs_spec(rs, e, k) == read_attrs_spec(rs, e, i),
    decreases k,
{
    if k > i {
        lemma_attrs_err_stays(rs, e, i, (k - 1) as nat);
    }
}

pub proof fn lemma_children_err_stays(s: Schema, rs: RecordSchema, e: Element, i: nat, k: nat)
    requires
        i <= k <= e.children.len(),
        read_children_spec(s, rs, e, i) is Err,
    ensures
        read_children_spec(s, rs, e, k) == read_children_spec(s, rs, e, i),
    decreases k,
{
    if k > i {
        lemma_children_err_stays(s, rs, e, i, (k - 1) as nat);
    }
}

pub proof fn lemma_store_shaped(fields: Seq<FieldSchema>, acc: Seq<SlotV>, k: int, v: ValueV)
    requires
        shaped(fields, acc),
        0 <= k < fields.len(),
    ensures
        shaped(fields, store(acc, k, fields[k], v)),
{
    let r = store(acc, k, fields[k], v);
    assert forall|i: int| 0 <= i < r.len() implies (if fields[i].card == Cardinality::Repeated {
        #[trigger] r[i] is Many
    } else {
        r[i] is Opt
    }) by {
        if i != k {
            assert(r[i] == acc[i]);
        }
    }
}

/// One of `tags` is `n`.
pub open spec fn name_in(tags: Seq<QName>, n: QName) -> bool {
    exists|j: int| 0 <= j < tags.len() && #[trigger] tags[j].same(n)
}

fn name_in_exec(tags: &Vec<QName>, n: &QName) -> (r: bool)
    ensures
        r == name_in(tags@, *n),
{
    let mut j: usize = 0;
    while j < tags.len()
        invariant
            j <= tags.len(),
            forall|q: int| 0 <= q < j ==> !(#[trigger] tags@[q].same(*n)),
        decreases tags.len() - j,
    {
        if tags[j].same_as(n) {
            assert(tags@[j as int].same(*n));
            return true;
        }
        j = j + 1;
    }
    false
}

/// The field, in declared order, that a token named `n` in `role` binds to.
pub fn find_field(fields: &Vec<FieldSchema>, role: Role, n: &QName) -> (r: Option<usize>)
    ensures
        match r {
            Some(k) => k < fields.len() && field_for(fields@, role, *n) == Some(k as nat) && binds(
                fields@[k as int],
                role,
                *n,
            ),
            None => field_for(fields@, role, *n) is None,
        },
{
    let mut i: usize = 0;
    while i < fields.len()
        invariant
            i <= fields.len(),
            first_field(fields@, role, *n, i as nat) is None,
        decreases fields.len() - i,
    {
        let f = &fields[i];
        if f.role == role && (role == Role::Text || name_in_exec(&f.tags, n)) {
            assert(first_field(fields@, role, *n, (i + 1) as nat) == Some(i as nat));
            proof {
                lemma_first_field_stays(fields@, role, *n, (i + 1) as nat, fields.len() as nat);
            }
            return Some(i);
        }
        i = i + 1;
    }
    None
}

fn variant_takes_exec(v: &VariantSchema, n: &QName) -> (r: bool)
    ensures
        r == variant_takes(*v, *n),
{
    match v {
        VariantSchema::Named(rs) => rs.tag.same_as(n),
        VariantSchema::Transparent { tags, .. } => name_in_exec(tags, n),
    }
}

/// The first variant of a union selected by the name `n`.
pub fn find_variant(vs: &Vec<VariantSchema>, n: &QName) -> (r: Option<usize>)
    ensures
        match r {
            Some(k) => k < vs.len() && variant_for(vs@, *n) == Some(k as nat) && variant_takes(
                vs@[k as int],
                *n,
            ),
            None => variant_for(vs@, *n) is None,
        },
{
    let mut i: usize = 0;
    while i < vs.len()
        invariant
            i <= vs.len(),
            first_variant(vs@, *n, i as nat) is None,
        decreases vs.len() - i,
    {
        if variant_takes_exec(&vs[i], n) {
            assert(first_variant(vs@, *n, (i + 1) as nat) == Some(i as nat));
            proof {
                lemma_first_variant_stays(vs@, *n, (i + 1) as nat, vs.len() as nat);
            }
            return Some(i);
        }
        i = i + 1;
    }
    None
}

fn init_slots(fields: &Vec<FieldSchema>) -> (acc: Vec<Slot>)
    ensures
        all_slots(acc) == init_acc(fields@),
        shaped(fields@, init_acc(fields@)),
{
    let mut acc: Vec<Slot> = Vec::new();
    let mut i: usize = 0;
    while i < fields.len()
        invariant
            i <= fields.len(),
            acc.len() == i,
            forall|j: int| 0 <= j < i ==> slot_view(#[trigger] acc@[j]) == init_acc(fields@)[j],
        decreases fields.len() - i,
    {
        if fields[i].card == Cardinality::Repeated {
            let vs: Vec<Value> = Vec::new();
            acc.push(Slot::Many(vs));
        } else {
            acc.push(Slot::Opt(None));
        }
        i = i + 1;
    }
    proof {
        lemma_all_slots(acc);
        assert(all_slots(acc) =~= init_acc(fields@));
    }
    acc
}

fn store_into(acc: &mut Vec<Slot>, k: usize, f: &FieldSchema, v: Value)
    requires
        k < old(acc).len(),
        f.card == Cardinality::Repeated ==> all_slots(*old(acc))[k as int] is Many,
    ensures
        all_slots(*final(acc)) == store(all_slots(*old(acc)), k as int, *f, value_view(v)),
        final(acc).len() == old(acc).len(),
{
    let ghost pre: Vec<Slot> = *acc;
    proof {
        lemma_all_slots(pre);
    }
    if f.card == Cardinality::Repeated {
        let s = acc.remove(k);
        match s {
            Slot::Many(mut vs) => {
                let ghost before: Vec<Value> = vs;
                proof {
                    lemma_all_values(before);
                }
                vs.push(v);
                proof {
                    lemma_all_values(vs);
                    assert(all_values(vs) =~= all_values(before).push(value_view(v)));
                }
                acc.insert(k, Slot::Many(vs));
            },
            other => {
                acc.insert(k, other);
            },
        }
    } else {
        acc.set(k, Slot::Opt(Some(v)));
    }
    proof {
        lemma_all_slots(*acc);
        assert(all_slots(*acc) =~= store(all_slots(pre), k as int, *f, value_view(v)));
    }
}

fn read_attrs(rs: &RecordSchema, e: &Element) -> (r: Result<Vec<Slot>, XmlError>)
    ensures
        slots_result(r) == read_attrs_spec(*rs, *e, e.attrs.len() as nat),
        r matches Ok(acc) ==> shaped(rs.fields@, all_slots(acc)),
{
    let mut acc = init_slots(&rs.fields);
    proof {
        lemma_all_slots(acc);
    }
    let mut i: usize = 0;
    while i < e.attrs.len()
        invariant
            i <= e.attrs.len(),
            read_attrs_spec(*rs, *e, i as nat) == Ok::<Seq<SlotV>, ErrorV>(all_slots(acc)),
            shaped(rs.fields@, all_slots(acc)),
            acc.len() == rs.fields.len(),
        decreases e.attrs.len() - i,
    {
        let a = &e.attrs[i];
        match find_field(&rs.fields, Role::Attribute, &a.name) {
            None => {},
            Some(k) => {
                match coerce(rs.fields[k].kind, &a.value) {
                    Ok(v) => {
                        proof {
                            lemma_store_shaped(rs.fields@, all_slots(acc), k as int, value_view(v));
                        }
                        store_into(&mut acc, k, &rs.fields[k], v);
                    },
                    Err(x) => {
                        proof {
                            lemma_attrs_err_stays(*rs, *e, (i + 1) as nat, e.attrs.len() as nat);
                        }
                        return Err(x);
                    },
                }
            },
        }
        i = i + 1;
    }
    Ok(acc)
}

pub proof fn lemma_finalize_err_stays(rs: RecordSchema, acc: Seq<SlotV>, i: nat, k: nat)
    requires
        i <= k <= rs.fields.len(),
        finalize(rs, acc, i) is Err,
    ensures
        finalize(rs, acc, k) == finalize(rs, acc, i),
    decreases k,
{
    if k > i {
        lemma_finalize_err_stays(rs, acc, i, (k - 1) as nat);
    }
}

fn default_of(kind: ScalarKind) -> (r: Value)
    ensures
        value_view(r) == default_value(kind),
{
    match kind {
        ScalarKind::Str => Value::Str(String::new()),
        ScalarKind::Bool => Value::Bool(false),
        ScalarKind::Int => Value::Int(0),
    }
}

fn final_one(rs: &RecordSchema, f: &FieldSchema, s: Slot) -> (r: Result<Slot, XmlError>)
    ensures
        match r {
            Ok(x) => final_slot(*rs, *f, slot_view(s)) == Ok::<SlotV, ErrorV>(slot_view(x)),
            Err(e) => final_slot(*rs, *f, slot_view(s)) == Err::<SlotV, ErrorV>(e@),
        },
{
    if f.card != Cardinality::Scalar {
        return Ok(s);
    }
    match s {
        Slot::Opt(Some(v)) => Ok(Slot::One(v)),
        _ => {
            if f.default {
                Ok(Slot::One(default_of(f.kind)))
            } else {
                Err(XmlError::MissingField { record: rs.name.clone(), field: f.name.clone() })
            }
        },
    }
}

fn finalize_slots(rs: &RecordSchema, acc: Vec<Slot>) -> (r: Result<Vec<Slot>, XmlError>)
    requires
        acc.len() == rs.fields.len(),
    ensures
        slots_result(r) == finalize(*rs, all_slots(acc), rs.fields.len() as nat),
{
    let ghost accv = all_slots(acc);
    proof {
        lemma_all_slots(acc);
    }
    let mut rest = acc;
    let mut out: Vec<Slot> = Vec::new();
    let mut i: usize = 0;
    while i < rs.fields.len()
        invariant
            i <= rs.fields.len(),
            accv.len() == rs.fields.len(),
            accv == all_slots(acc),
            rest.len() == rs.fields.len() - i,
            forall|j: int| 0 <= j < rest.len() ==> slot_view(#[trigger] rest@[j]) == accv[i + j],
            finalize(*rs, accv, i as nat) == Ok::<Seq<SlotV>, ErrorV>(all_slots(out)),
        decreases rs.fields.len() - i,
    {
        let ghost before = out;
        let s = rest.remove(0);
        assert(slot_view(s) == accv[i as int]);
        match final_one(rs, &rs.fields[i], s) {
            Ok(x) => {
                proof {
                    lemma_all_slots(before);
                }
                out.push(x);
                proof {
                    lemma_all_slots(out);
                    assert(all_slots(out) =~= all_slots(before).push(slot_view(x)));
                }
            },
            Err(e) => {
                assert(finalize(*rs, accv, (i + 1) as nat) == Err::<Seq<SlotV>, ErrorV>(e@));
                proof {
                    lemma_finalize_err_stays(*rs, accv, (i + 1) as nat, rs.fields.len() as nat);
                    assert(finalize(*rs, accv, rs.fields.len() as nat) == Err::<Seq<SlotV>, ErrorV>(e@));
                }
                return Err(e);
            },
        }
        i = i + 1;
    }
    Ok(out)
}

fn read_children(s: &Schema, rs: &RecordSchema, e: &Element) -> (r: Result<Vec<Slot>, XmlError>)
    requires
        s.wf(),
        record_wf(*rs, s.types.len() as nat),
    ensures
        slots_result(r) == read_children_spec(*s, *rs, *e, e.children.len() as nat),
        r matches Ok(acc) ==> shaped(rs.fields@, all_slots(acc)) && acc.len() == rs.fields.len(),
    decreases e, e.children.len(),
{
    let mut acc = match read_attrs(rs, e) {
        Ok(a) => a,
        Err(x) => {
            proof {
                lemma_children_err_stays(*s, *rs, *e, 0, e.children.len() as nat);
            }
            return Err(x);
        },
    };
    proof {
        lemma_all_slots(acc);
    }
    let mut i: usize = 0;
    while i < e.children.len()
        invariant
            i <= e.children.len(),
            s.wf(),
            record_wf(*rs, s.types.len() as nat),
            read_children_spec(*s, *rs, *e, i as nat) == Ok::<Seq<SlotV>, ErrorV>(all_slots(acc)),
            shaped(rs.fields@, all_slots(acc)),
            acc.len() == rs.fields.len(),
        decreases e.children.len() - i,
    {
        match &e.children[i] {
            Node::Text(_) => {},
            Node::Elem(c) => {
                match find_field(&rs.fields, Role::Child, &c.name) {
                    Some(k) => {
                        assert(field_wf(rs.fields@[k as int], s.types.len() as nat));
                        match read_element(s, rs.fields[k].child_type, c) {
                            Ok(r) => {
                                proof {
                                    lemma_store_shaped(
                                        rs.fields@,
                                        all_slots(acc),
                                        k as int,
                                        value_view(Value::Rec(r)),
                                    );
                                }
                                store_into(&mut acc, k, &rs.fields[k], Value::Rec(r));
                            },
                            Err(x) => {
                                proof {
                                    lemma_children_err_stays(
                                        *s,
                                        *rs,
                                        *e,
                                        (i + 1) as nat,
                                        e.children.len() as nat,
                                    );
                                }
                                return Err(x);
                            },
                        }
                    },
                    None => match find_field(&rs.fields, Role::FlattenText, &c.name) {
                        Some(k) => {
                            let text = c.text();
                            match coerce(rs.fields[k].kind, &text) {
                                Ok(v) => {
                                    proof {
                                        lemma_store_shaped(
                                            rs.fields@,
                                            all_slots(acc),
                                            k as int,
                                            value_view(v),
                                        );
                                    }
                                    store_into(&mut acc, k, &rs.fields[k], v);
                                },
                                Err(x) => {
                                    proof {
                                        lemma_children_err_stays(
                                            *s,
                                            *rs,
                                            *e,
                                            (i + 1) as nat,
                                            e.children.len() as nat,
                                        );
                                    }
                                    return Err(x);
                                },
                            }
                        },
                        None => {},
                    },
                }
            },
        }
        i = i + 1;
    }
    Ok(acc)
}

/// Reads the fields of one record from element `e` with record schema `rs`:
/// attributes first, then either the text content (a record with a `Text`
/// field) or the content nodes, then finalization. The result is exactly
/// `read_record_spec`.
pub fn read(s: &Schema, rs: &RecordSchema, e: &Element) -> (r: Result<Vec<Slot>, XmlError>)
    requires
        s.wf(),
        record_wf(*rs, s.types.len() as nat),
    ensures
        slots_result(r) == read_record_spec(*s, *rs, *e),
    decreases e, e.children.len() + 1,
{
    let body: Result<Vec<Slot>, XmlError> = match find_field(&rs.fields, Role::Text, &e.name) {
        Some(k) => match read_attrs(rs, e) {
            Ok(acc0) => {
                let mut acc = acc0;
                proof {
                    lemma_all_slots(acc);
                }
                let text = e.text();
                match coerce(rs.fields[k].kind, &text) {
                    Ok(v) => {
                        store_into(&mut acc, k, &rs.fields[k], v);
                        Ok(acc)
                    },
                    Err(x) => Err(x),
                }
            },
            Err(x) => Err(x),
        },
        None => read_children(s, rs, e),
    };
    match body {
        Ok(acc) => {
            proof {
                lemma_all_slots(acc);
            }
            finalize_slots(rs, acc)
        },
        Err(x) => Err(x),
    }
}

/// Reads element `e` as the type `ty` of the schema: a struct by its record
/// reader, a union by the variant its name selects (a transparent variant
/// delegating to its inner type). The result is exactly `read_element_spec`.
pub fn read_element(s: &Schema, ty: usize, e: &Element) -> (r: Result<Record, XmlError>)
    requires
        s.wf(),
    ensures
        record_result(r) == read_element_spec(*s, ty as nat, *e),
    decreases e, e.children.len() + 2 + ty,
{
    if ty >= s.types.len() {
        return Err(XmlError::UnexpectedEof);
    }
    assert(type_wf(s.types@[ty as int], ty as nat, s.types.len() as nat));
    match &s.types[ty] {
        TypeSchema::Struct(rs) => match read(s, rs, e) {
            Ok(fields) => {
                proof {
                    lemma_all_slots(fields);
                }
                Ok(Record { variant: 0, fields })
            },
            Err(x) => Err(x),
        },
        TypeSchema::Enum { variants, .. } => match find_variant(variants, &e.name) {
            None => Err(XmlError::UnexpectedEof),
            Some(v) => {
                assert(variants_wf(variants@, ty as nat, s.types.len() as nat));
                assert(variant_wf(variants@[v as int], ty as nat, s.types.len() as nat));
                match &variants[v] {
                    VariantSchema::Named(rs) => match read(s, rs, e) {
                        Ok(fields) => Ok(Record { variant: v, fields }),
                        Err(x) => Err(x),
                    },
                    VariantSchema::Transparent { inner, .. } => {
                        if *inner < ty {
                            match read_element(s, *inner, e) {
                                Ok(r) => {
                                    let mut fields: Vec<Slot> = Vec::new();
                                    fields.push(Slot::One(Value::Rec(r)));
                                    proof {
                                        lemma_all_slots(fields);
                                        assert(all_slots(fields) =~= seq![
                                            SlotV::One(ValueV::Rec(r@)),
                                        ]);
                                    }
                                    Ok(Record { variant: v, fields })
                                },
                                Err(x) => Err(x),
                            }
                        } else {
                            Err(XmlError::UnexpectedEof)
                        }
                    },
                }
            },
        },
    }
}

fn accepts_exec(s: &Schema, ty: usize, n: &QName) -> (r: bool)
    ensures
        r == accepts(*s, ty as nat, *n),
{
    if ty >= s.types.len() {
        return false;
    }
    match &s.types[ty] {
        TypeSchema::Struct(rs) => rs.tag.same_as(n),
        TypeSchema::Enum { variants, .. } => find_variant(variants, n).is_some(),
    }
}

/// Reads a record of type `ty` from a sequence of sibling nodes: nodes before
/// the first element the type takes are skipped, and with none the result is
/// `UnexpectedEof`. The result is exactly `read_nodes_spec`.
pub fn impl_read(s: &Schema, ty: usize, nodes: &Vec<Node>) -> (r: Result<Record, XmlError>)
    requires
        s.wf(),
    ensures
        record_result(r) == read_nodes_spec(*s, ty as nat, nodes@),
{
    let mut i: usize = 0;
    while i < nodes.len()
        invariant
            i <= nodes.len(),
            s.wf(),
            first_accepted(*s, ty as nat, nodes@, i as nat) is None,
        decreases nodes.len() - i,
    {
        match &nodes[i] {
            Node::Elem(c) => {
                if accepts_exec(s, ty, &c.name) {
                    assert(first_accepted(*s, ty as nat, nodes@, (i + 1) as nat) == Some(i as nat));
                    proof {
                        lemma_first_accepted_stays(
                            *s,
                            ty as nat,
                            nodes@,
                            (i + 1) as nat,
                            nodes.len() as nat,
                        );
                    }
                    return read_element(s, ty, c);
                }
            },
            Node::Text(_) => {},
        }
        i = i + 1;
    }
    Err(XmlError::UnexpectedEof)
}

} // verus!
