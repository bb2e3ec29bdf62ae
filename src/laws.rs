use vstd::prelude::*;
use crate::reader::{
    binds, field_for, final_slot, finalize, first_field, init_acc, is_text_record,
    lemma_finalize_err_stays, read_attrs_spec, read_children_spec, read_element_spec,
    read_record_spec,
};
use crate::schema::{Cardinality, FieldSchema, RecordSchema, Role, Schema};
use crate::tag::QName;
use crate::tree::{Attr, Element, Node};
use crate::value::{ErrorV, SlotV, ValueV};

verus! {

/// The values of the children among the first `n` of `e` that are routed to
/// the `Child` field `k`, in document order.
pub open spec fn bound_values(s: Schema, rs: RecordSchema, e: Element, k: nat, n: nat) -> Seq<ValueV>
    decreases n,
{
    if n == 0 || n > e.children.len() {
        Seq::empty()
    } else {
        let prev = bound_values(s, rs, e, k, (n - 1) as nat);
        match e.children@[n - 1] {
            Node::Elem(c) => if field_for(rs.fields@, Role::Child, c.name) == Some(k) {
                match read_element_spec(s, rs.fields@[k as int].child_type as nat, c) {
                    Ok(r) => prev.push(ValueV::Rec(r)),
                    Err(_) => prev,
                }
            } else {
                prev
            },
            Node::Text(_) => prev,
        }
    }
}

/// What the slot of a `Child` field holds once the values `bv` arrived.
pub open spec fn child_slot(card: Cardinality, bv: Seq<ValueV>) -> SlotV {
    if card == Cardinality::Repeated {
        SlotV::Many(bv)
    } else if bv.len() == 0 {
        SlotV::Opt(None)
    } else {
        SlotV::Opt(Some(bv.last()))
    }
}

pub proof fn lemma_first_field_binds(
    fields: Seq<FieldSchema>,
    role: Role,
    n: QName,
    k: nat,
)
    ensures
        first_field(fields, role, n, k) matches Some(i) ==> i < fields.len() && binds(
            fields[i as int],
            role,
            n,
        ),
    decreases k,
{
    if k > 0 && k <= fields.len() {
        lemma_first_field_binds(fields, role, n, (k - 1) as nat);
    }
}

/// Attributes leave alone a slot that none of them is routed to.
pub proof fn lemma_attrs_keep(rs: RecordSchema, e: Element, k: nat, n: nat)
    requires
        k < rs.fields.len(),
        n <= e.attrs.len(),
        forall|i: int|
            0 <= i < n ==> field_for(rs.fields@, Role::Attribute, (#[trigger] e.attrs@[i]).name)
                != Some(k),
    ensures
        read_attrs_spec(rs, e, n) matches Ok(acc) ==> acc.len() == rs.fields.len() && acc[k as int]
            == init_acc(rs.fields@)[k as int],
    decreases n,
{
    if n > 0 {
        lemma_attrs_keep(rs, e, k, (n - 1) as nat);
        let a = e.attrs@[n - 1];
        lemma_first_field_binds(rs.fields@, Role::Attribute, a.name, rs.fields.len() as nat);
    }
}

/// The slot of a `Child` field holds what `bound_values` collects.
pub proof fn lemma_child_slot(s: Schema, rs: RecordSchema, e: Element, k: nat, n: nat)
    requires
        k < rs.fields.len(),
        rs.fields@[k as int].role == Role::Child,
        n <= e.children.len(),
    ensures
        read_children_spec(s, rs, e, n) matches Ok(acc) ==> acc.len() == rs.fields.len() && acc[k as int]
            == child_slot(rs.fields@[k as int].card, bound_values(s, rs, e, k, n)),
    decreases n,
{
    if n == 0 {
        assert forall|i: int| 0 <= i < e.attrs.len() implies field_for(
            rs.fields@,
            Role::Attribute,
            (#[trigger] e.attrs@[i]).name,
        ) != Some(k) by {
            lemma_first_field_binds(rs.fields@, Role::Attribute, e.attrs@[i].name, rs.fields.len() as nat);
        }
        lemma_attrs_keep(rs, e, k, e.attrs.len() as nat);
        assert(bound_values(s, rs, e, k, 0) =~= Seq::<ValueV>::empty());
    } else {
        lemma_child_slot(s, rs, e, k, (n - 1) as nat);
        match e.children@[n - 1] {
            Node::Elem(c) => {
                lemma_first_field_binds(rs.fields@, Role::Child, c.name, rs.fields.len() as nat);
                lemma_first_field_binds(rs.fields@, Role::FlattenText, c.name, rs.fields.len() as nat);
            },
            Node::Text(_) => {},
        }
    }
}

/// Children leave alone the slot of a field that has neither the `Child` nor
/// the `FlattenText` role.
pub proof fn lemma_children_keep(s: Schema, rs: RecordSchema, e: Element, k: nat, n: nat)
    requires
        k < rs.fields.len(),
        rs.fields@[k as int].role != Role::Child,
        rs.fields@[k as int].role != Role::FlattenText,
        n <= e.children.len(),
    ensures
        read_children_spec(s, rs, e, n) matches Ok(acc) ==> (read_attrs_spec(
            rs,
            e,
            e.attrs.len() as nat,
        ) matches Ok(acc0) && acc0.len() == acc.len() && acc[k as int] == acc0[k as int]),
    decreases n,
{
    if n > 0 {
        lemma_children_keep(s, rs, e, k, (n - 1) as nat);
        lemma_children_len(s, rs, e, (n - 1) as nat);
        match e.children@[n - 1] {
            Node::Elem(c) => {
                lemma_first_field_binds(rs.fields@, Role::Child, c.name, rs.fields.len() as nat);
                lemma_first_field_binds(rs.fields@, Role::FlattenText, c.name, rs.fields.len() as nat);
            },
            Node::Text(_) => {},
        }
    }
}

/// Reading keeps one slot per field.
pub proof fn lemma_children_len(s: Schema, rs: RecordSchema, e: Element, n: nat)
    requires
        n <= e.children.len(),
    ensures
        read_children_spec(s, rs, e, n) matches Ok(acc) ==> acc.len() == rs.fields.len(),
    decreases n,
{
    if n == 0 {
        lemma_attrs_len(rs, e, e.attrs.len() as nat);
    } else {
        lemma_children_len(s, rs, e, (n - 1) as nat);
        match e.children@[n - 1] {
            Node::Elem(c) => {
                lemma_first_field_binds(rs.fields@, Role::Child, c.name, rs.fields.len() as nat);
                lemma_first_field_binds(rs.fields@, Role::FlattenText, c.name, rs.fields.len() as nat);
            },
            Node::Text(_) => {},
        }
    }
}

pub proof fn lemma_attrs_len(rs: RecordSchema, e: Element, n: nat)
    requires
        n <= e.attrs.len(),
    ensures
        read_attrs_spec(rs, e, n) matches Ok(acc) ==> acc.len() == rs.fields.len(),
    decreases n,
{
    if n > 0 {
        lemma_attrs_len(rs, e, (n - 1) as nat);
        lemma_first_field_binds(rs.fields@, Role::Attribute, e.attrs@[n - 1].name, rs.fields.len() as nat);
    }
}

/// Each finalized slot comes from its field's slot.
pub proof fn lemma_finalize_each(rs: RecordSchema, acc: Seq<SlotV>, n: nat)
    requires
        n <= rs.fields.len(),
    ensures
        finalize(rs, acc, n) matches Ok(out) ==> out.len() == n && forall|i: int|
            0 <= i < n ==> final_slot(rs, rs.fields@[i], acc[i]) == Ok::<SlotV, ErrorV>(
                #[trigger] out[i],
            ),
    decreases n,
{
    if n > 0 {
        lemma_finalize_each(rs, acc, (n - 1) as nat);
    }
}

/// Fields that can never fail finalize without error.
pub proof fn lemma_finalize_ok(rs: RecordSchema, acc: Seq<SlotV>, n: nat)
    requires
        n <= rs.fields.len(),
        forall|i: int|
            0 <= i < n ==> (#[trigger] rs.fields@[i]).card != Cardinality::Scalar
                || rs.fields@[i].default,
    ensures
        finalize(rs, acc, n) is Ok,
    decreases n,
{
    if n > 0 {
        lemma_finalize_ok(rs, acc, (n - 1) as nat);
    }
}

/// Last wins: when the elements routed to a scalar or optional `Child` field
/// occur more than once, the field holds the value read from the last one.
pub proof fn law_last_occurrence_wins(
    s: Schema,
    rs: RecordSchema,
    e: Element,
    k: nat,
    fs: Seq<SlotV>,
)
    requires
        k < rs.fields.len(),
        rs.fields@[k as int].role == Role::Child,
        rs.fields@[k as int].card != Cardinality::Repeated,
        !is_text_record(rs, e),
        read_record_spec(s, rs, e) == Ok::<Seq<SlotV>, ErrorV>(fs),
        bound_values(s, rs, e, k, e.children.len() as nat).len() > 0,
    ensures
        fs[k as int] == (if rs.fields@[k as int].card == Cardinality::Scalar {
            SlotV::One(bound_values(s, rs, e, k, e.children.len() as nat).last())
        } else {
            SlotV::Opt(Some(bound_values(s, rs, e, k, e.children.len() as nat).last()))
        }),
{
    lemma_child_slot(s, rs, e, k, e.children.len() as nat);
    let acc = read_children_spec(s, rs, e, e.children.len() as nat)->Ok_0;
    lemma_finalize_each(rs, acc, rs.fields.len() as nat);
}

/// Repeated order: a repeated `Child` field holds the values of the elements
/// routed to it, in document order, whatever other content lies between them.
pub proof fn law_repeated_keeps_order(
    s: Schema,
    rs: RecordSchema,
    e: Element,
    k: nat,
    fs: Seq<SlotV>,
)
    requires
        k < rs.fields.len(),
        rs.fields@[k as int].role == Role::Child,
        rs.fields@[k as int].card == Cardinality::Repeated,
        !is_text_record(rs, e),
        read_record_spec(s, rs, e) == Ok::<Seq<SlotV>, ErrorV>(fs),
    ensures
        fs[k as int] == SlotV::Many(bound_values(s, rs, e, k, e.children.len() as nat)),
{
    lemma_child_slot(s, rs, e, k, e.children.len() as nat);
    let acc = read_children_spec(s, rs, e, e.children.len() as nat)->Ok_0;
    lemma_finalize_each(rs, acc, rs.fields.len() as nat);
}

/// A required field that nothing fills: when an attribute or child field
/// that is scalar and has no default receives no token, and every field
/// declared before it may be absent, reading the rest of the element without
/// error ends in `MissingField` naming the record and that field.
pub proof fn law_required_field_missing(s: Schema, rs: RecordSchema, e: Element, k: nat)
    requires
        k < rs.fields.len(),
        rs.fields@[k as int].card == Cardinality::Scalar,
        !rs.fields@[k as int].default,
        rs.fields@[k as int].role == Role::Attribute || rs.fields@[k as int].role == Role::Child,
        forall|i: int|
            0 <= i < k ==> (#[trigger] rs.fields@[i]).card != Cardinality::Scalar
                || rs.fields@[i].default,
        !is_text_record(rs, e),
        forall|i: int|
            0 <= i < e.attrs.len() ==> field_for(rs.fields@, Role::Attribute, (#[trigger] e.attrs@[i]).name)
                != Some(k),
        forall|i: int|
            0 <= i < e.children.len() && (#[trigger] e.children@[i]) is Elem ==> field_for(
                rs.fields@,
                Role::Child,
                e.children@[i]->Elem_0.name,
            ) != Some(k),
        read_children_spec(s, rs, e, e.children.len() as nat) is Ok,
    ensures
        read_record_spec(s, rs, e) == Err::<Seq<SlotV>, ErrorV>(
            ErrorV::MissingField { record: rs.name@, field: rs.fields@[k as int].name@ },
        ),
{
    let acc = read_children_spec(s, rs, e, e.children.len() as nat)->Ok_0;
    if rs.fields@[k as int].role == Role::Attribute {
        lemma_children_keep(s, rs, e, k, e.children.len() as nat);
        lemma_attrs_keep(rs, e, k, e.attrs.len() as nat);
    } else {
        lemma_child_slot(s, rs, e, k, e.children.len() as nat);
        lemma_no_bound_values(s, rs, e, k, e.children.len() as nat);
    }
    assert(acc[k as int] == SlotV::Opt(None));
    lemma_finalize_ok(rs, acc, k);
    lemma_finalize_err_stays(rs, acc, k + 1, rs.fields.len() as nat);
}

pub proof fn lemma_no_bound_values(s: Schema, rs: RecordSchema, e: Element, k: nat, n: nat)
    requires
        n <= e.children.len(),
        forall|i: int|
            0 <= i < e.children.len() && (#[trigger] e.children@[i]) is Elem ==> field_for(
                rs.fields@,
                Role::Child,
                e.children@[i]->Elem_0.name,
            ) != Some(k),
    ensures
        bound_values(s, rs, e, k, n).len() == 0,
    decreases n,
{
    if n > 0 {
        lemma_no_bound_values(s, rs, e, k, (n - 1) as nat);
    }
}

pub proof fn lemma_attrs_insert(rs: RecordSchema, e: Element, e2: Element, p: int, a: Attr, n: nat)
    requires
        0 <= p <= e.attrs.len(),
        e2.attrs@ == e.attrs@.insert(p, a),
        field_for(rs.fields@, Role::Attribute, a.name) is None,
        n <= e.attrs.len(),
    ensures
        n <= p ==> read_attrs_spec(rs, e2, n) == read_attrs_spec(rs, e, n),
        n >= p ==> read_attrs_spec(rs, e2, n + 1) == read_attrs_spec(rs, e, n),
    decreases n,
{
    if n > 0 {
        lemma_attrs_insert(rs, e, e2, p, a, (n - 1) as nat);
    }
    if n <= p && n > 0 {
        assert(e2.attrs@[n - 1] == e.attrs@[n - 1]);
    }
    if n > p {
        assert(e2.attrs@[n as int] == e.attrs@[n - 1]);
    }
    if n == p {
        assert(e2.attrs@[n as int] == a);
    }
}

pub proof fn lemma_children_insert(
    s: Schema,
    rs: RecordSchema,
    e: Element,
    e2: Element,
    q: int,
    x: Element,
    n: nat,
)
    requires
        0 <= q <= e.children.len(),
        e2.children@ == e.children@.insert(q, Node::Elem(x)),
        field_for(rs.fields@, Role::Child, x.name) is None,
        field_for(rs.fields@, Role::FlattenText, x.name) is None,
        read_attrs_spec(rs, e2, e2.attrs.len() as nat) == read_attrs_spec(rs, e, e.attrs.len() as nat),
        n <= e.children.len(),
    ensures
        n <= q ==> read_children_spec(s, rs, e2, n) == read_children_spec(s, rs, e, n),
        n >= q ==> read_children_spec(s, rs, e2, n + 1) == read_children_spec(s, rs, e, n),
    decreases n,
{
    if n > 0 {
        lemma_children_insert(s, rs, e, e2, q, x, (n - 1) as nat);
    }
    if n <= q && n > 0 {
        assert(e2.children@[n - 1] == e.children@[n - 1]);
    }
    if n > q {
        assert(e2.children@[n as int] == e.children@[n - 1]);
    }
    if n == q {
        assert(e2.children@[n as int] == Node::Elem(x));
    }
}

/// Unknown input is skipped: adding to an element one attribute that no
/// field takes and one child element that no field takes, anywhere among the
/// others, leaves the result of reading it unchanged.
pub proof fn law_unknown_is_skipped(
    s: Schema,
    rs: RecordSchema,
    e: Element,
    e2: Element,
    p: int,
    a: Attr,
    q: int,
    x: Element,
)
    requires
        0 <= p <= e.attrs.len(),
        0 <= q <= e.children.len(),
        e2.name == e.name,
        e2.attrs@ == e.attrs@.insert(p, a),
        e2.children@ == e.children@.insert(q, Node::Elem(x)),
        field_for(rs.fields@, Role::Attribute, a.name) is None,
        field_for(rs.fields@, Role::Child, x.name) is None,
        field_for(rs.fields@, Role::FlattenText, x.name) is None,
        !is_text_record(rs, e),
    ensures
        read_record_spec(s, rs, e2) == read_record_spec(s, rs, e),
{
    lemma_attrs_insert(rs, e, e2, p, a, e.attrs.len() as nat);
    lemma_children_insert(s, rs, e, e2, q, x, e.children.len() as nat);
}

} // verus!
