use vstd::prelude::*;
use crate::coerce::coerce_spec;
use crate::laws::lemma_first_field_binds;
use crate::reader::{
    binds, field_for, final_slot, finalize, first_field, init_acc, is_text_record, name_in,
    read_attrs_spec, read_children_spec, read_element_spec, read_record_spec, store,
};
use crate::schema::{Cardinality, FieldSchema, RecordSchema, Role, Schema, TypeSchema};
use crate::tag::QName;
use crate::tree::{Attr, Element, Node};
use crate::value::{
    ErrorV, Record, RecordV, ScalarKind, Slot, SlotV, Value, ValueV, all_slots,
    lemma_all_slots, lemma_all_values, slot_view, value_view,
};

verus! {

/// The values a slot holds, in order.
pub open spec fn slot_values(s: SlotV) -> Seq<ValueV> {
    match s {
        SlotV::One(v) => seq![v],
        SlotV::Opt(Some(v)) => seq![v],
        SlotV::Opt(None) => Seq::empty(),
        SlotV::Many(vs) => vs,
    }
}

/// What the standard formatter writes for an integer.
pub uninterp spec fn int_text(n: i64) -> Seq<char>;

/// The text a scalar value is written as.
pub open spec fn scalar_text(v: ValueV) -> Seq<char> {
    match v {
        ValueV::Str(s) => s,
        ValueV::Bool(b) => if b {
            seq!['t', 'r', 'u', 'e']
        } else {
            seq!['f', 'a', 'l', 's', 'e']
        },
        ValueV::Int(n) => int_text(n),
        ValueV::Rec(_) => Seq::empty(),
    }
}

/// One written token: whether it is a text node, its name, its text, and
/// for a nested record the record's type and model.
pub type Item = (bool, Seq<char>, Seq<char>, Seq<char>, Option<(nat, RecordV)>);

/// The token that field `f` writes for value `v`.
pub open spec fn item_of(f: FieldSchema, v: ValueV) -> Item {
    (
        f.role == Role::Text,
        f.tags@[0].prefix@,
        f.tags@[0].local@,
        scalar_text(v),
        if f.role == Role::Child {
            Some((f.child_type as nat, v->Rec_0))
        } else {
            None
        },
    )
}

pub open spec fn field_items(f: FieldSchema, s: SlotV) -> Seq<Item> {
    slot_values(s).map_values(|v: ValueV| item_of(f, v))
}

/// The items that the first `k` fields with a role in `roles` write.
pub open spec fn items(rs: RecordSchema, fs: Seq<SlotV>, attrs: bool, k: nat) -> Seq<Item>
    decreases k,
{
    if k == 0 || k > rs.fields.len() {
        Seq::empty()
    } else {
        let f = rs.fields@[k - 1];
        let own = if (f.role == Role::Attribute) == attrs {
            field_items(f, fs[k - 1])
        } else {
            Seq::empty()
        };
        items(rs, fs, attrs, (k - 1) as nat) + own
    }
}

pub open spec fn attr_is(a: Attr, it: Item) -> bool {
    a.name.prefix@ == it.1 && a.name.local@ == it.2 && a.value@ == it.3
}

pub open spec fn text_node_is(n: Node, s: Seq<char>) -> bool {
    match n {
        Node::Text(t) => t@ == s,
        Node::Elem(_) => false,
    }
}

/// Node `n` stands for the token `it`: a text node, an element holding the
/// text, or an element that reads back as the nested record.
pub open spec fn node_is(s: Schema, n: Node, it: Item) -> bool {
    match it.4 {
        Some((ty, r)) => match n {
            Node::Elem(c) => c.name.prefix@ == it.1 && c.name.local@ == it.2 && read_element_spec(
                s,
                ty,
                c,
            ) == Ok::<RecordV, ErrorV>(r),
            Node::Text(_) => false,
        },
        None => if it.0 {
            text_node_is(n, it.3)
        } else {
            match n {
                Node::Elem(c) => c.name.prefix@ == it.1 && c.name.local@ == it.2 && c.attrs.len()
                    == 0 && c.children.len() == 1 && text_node_is(c.children@[0], it.3),
                Node::Text(_) => false,
            }
        },
    }
}

/// `e` holds what writing the slots `fs` with record schema `rs` gives: an
/// attribute per attribute value and, in declared field order, a text node
/// per text value, an element holding the text per flattened value and an
/// element per nested record.
pub open spec fn written(s: Schema, rs: RecordSchema, fs: Seq<SlotV>, e: Element) -> bool {
    let ai = items(rs, fs, true, rs.fields.len() as nat);
    let ci = items(rs, fs, false, rs.fields.len() as nat);
    &&& e.attrs.len() == ai.len()
    &&& forall|i: int| 0 <= i < ai.len() ==> attr_is(#[trigger] e.attrs@[i], ai[i])
    &&& e.children.len() == ci.len()
    &&& forall|i: int| 0 <= i < ci.len() ==> node_is(s, #[trigger] e.children@[i], ci[i])
}

/// Every field but a text field has a tag to write.
pub open spec fn writable_schema(rs: RecordSchema) -> bool {
    forall|k: int|
        0 <= k < rs.fields.len() ==> (#[trigger] rs.fields@[k]).role != Role::Text
            ==> rs.fields@[k].tags.len() > 0
}

/// The values of `s` have the scalar kind `kind`.
pub open spec fn values_of_kind(s: SlotV, kind: ScalarKind) -> bool {
    forall|i: int|
        0 <= i < slot_values(s).len() ==> match (#[trigger] slot_values(s)[i]) {
            ValueV::Str(_) => kind == ScalarKind::Str,
            ValueV::Bool(_) => kind == ScalarKind::Bool,
            _ => false,
        }
}

/// Each slot has the shape its field's cardinality gives it.
pub open spec fn shapes_fit(rs: RecordSchema, fs: Seq<SlotV>) -> bool {
    &&& fs.len() == rs.fields.len()
    &&& forall|k: int|
        0 <= k < rs.fields.len() ==> {
            let f = #[trigger] rs.fields@[k];
            &&& (f.card == Cardinality::Scalar ==> fs[k] is One)
            &&& (f.card == Cardinality::Optional ==> fs[k] is Opt)
            &&& (f.card == Cardinality::Repeated ==> fs[k] is Many)
        }
}

/// Field `k` is of kind string or boolean, holds values of that kind, and is
/// reached again by its first tag.
pub open spec fn field_returns(rs: RecordSchema, fs: Seq<SlotV>, k: int) -> bool {
    let f = rs.fields@[k];
    &&& field_for(rs.fields@, f.role, f.tags@[0]) == Some(k as nat)
    &&& f.kind == ScalarKind::Str || f.kind == ScalarKind::Bool
    &&& values_of_kind(fs[k], f.kind)
}

/// Every attribute field is scalar or optional and reached again by its
/// first tag.
pub open spec fn attrs_return(rs: RecordSchema, fs: Seq<SlotV>) -> bool {
    &&& shapes_fit(rs, fs)
    &&& writable_schema(rs)
    &&& forall|k: int|
        0 <= k < rs.fields.len() && (#[trigger] rs.fields@[k]).role == Role::Attribute ==> rs.fields@[k].card
            != Cardinality::Repeated && field_returns(rs, fs, k)
}

/// A record of attributes (scalar or optional), flattened text children
/// and nested records (any cardinality): attributes and flattened text of
/// kind string or boolean, every field reached again by its first tag, a
/// flattened tag not taken by a child field, and nested values records.
pub open spec fn content_record(rs: RecordSchema, fs: Seq<SlotV>) -> bool {
    &&& attrs_return(rs, fs)
    &&& forall|k: int|
        0 <= k < rs.fields.len() ==> {
            let f = #[trigger] rs.fields@[k];
            &&& f.role == Role::Attribute || f.role == Role::FlattenText || f.role == Role::Child
            &&& (f.role == Role::FlattenText ==> field_returns(rs, fs, k) && field_for(
                rs.fields@,
                Role::Child,
                f.tags@[0],
            ) is None)
            &&& (f.role == Role::Child ==> field_for(rs.fields@, Role::Child, f.tags@[0]) == Some(
                k as nat,
            ) && forall|i: int|
                0 <= i < slot_values(fs[k]).len() ==> (#[trigger] slot_values(fs[k])[i]) is Rec)
        }
}

/// A text-only record: field `t` is its one text field, scalar, of kind
/// string or boolean; all other fields are attributes as in `attrs_return`.
pub open spec fn text_record(rs: RecordSchema, fs: Seq<SlotV>, t: nat) -> bool {
    &&& attrs_return(rs, fs)
    &&& t < rs.fields.len()
    &&& rs.fields@[t as int].role == Role::Text
    &&& rs.fields@[t as int].card == Cardinality::Scalar
    &&& rs.fields@[t as int].kind == ScalarKind::Str || rs.fields@[t as int].kind == ScalarKind::Bool
    &&& values_of_kind(fs[t as int], rs.fields@[t as int].kind)
    &&& forall|k: int|
        0 <= k < rs.fields.len() && k != t ==> (#[trigger] rs.fields@[k]).role == Role::Attribute
}

/// The slot a field holds once its written values were read back.
pub open spec fn filled(f: FieldSchema, s: SlotV) -> SlotV {
    if f.card == Cardinality::Repeated {
        SlotV::Many(slot_values(s))
    } else if slot_values(s).len() == 0 {
        SlotV::Opt(None)
    } else {
        SlotV::Opt(Some(slot_values(s).last()))
    }
}

/// The slots after the attributes of the first `ka` fields and the content
/// of the first `kc` fields were read back.
pub open spec fn expected(rs: RecordSchema, fs: Seq<SlotV>, ka: nat, kc: nat) -> Seq<SlotV> {
    Seq::new(
        rs.fields.len() as nat,
        |j: int|
            if (rs.fields@[j].role == Role::Attribute && j < ka) || (rs.fields@[j].role
                != Role::Attribute && j < kc) {
                filled(rs.fields@[j], fs[j])
            } else {
                init_acc(rs.fields@)[j]
            },
    )
}

proof fn lemma_first_field_view(fields: Seq<FieldSchema>, role: Role, a: QName, b: QName, k: nat)
    requires
        a.prefix@ == b.prefix@,
        a.local@ == b.local@,
    ensures
        first_field(fields, role, a, k) == first_field(fields, role, b, k),
    decreases k,
{
    if k > 0 && k <= fields.len() {
        lemma_first_field_view(fields, role, a, b, (k - 1) as nat);
        let tags = fields[k - 1].tags@;
        assert forall|j: int| 0 <= j < tags.len() implies #[trigger] tags[j].same(a) == tags[j].same(
            b,
        ) by {}
        if name_in(tags, a) {
            let j = choose|j: int| 0 <= j < tags.len() && #[trigger] tags[j].same(a);
            assert(tags[j].same(b));
        }
        if name_in(tags, b) {
            let j = choose|j: int| 0 <= j < tags.len() && #[trigger] tags[j].same(b);
            assert(tags[j].same(a));
        }
        assert(binds(fields[k - 1], role, a) == binds(fields[k - 1], role, b));
    }
}
proof fn lemma_items_prefix(rs: RecordSchema, fs: Seq<SlotV>, attrs: bool, k: nat, n: nat)
    requires
        k <= n <= rs.fields.len(),
    ensures
        items(rs, fs, attrs, k).len() <= items(rs, fs, attrs, n).len(),
        forall|i: int|
            0 <= i < items(rs, fs, attrs, k).len() ==> #[trigger] items(rs, fs, attrs, n)[i]
                == items(rs, fs, attrs, k)[i],
    decreases n,
{
    if n > k {
        lemma_items_prefix(rs, fs, attrs, k, (n - 1) as nat);
    }
}
proof fn lemma_coerce_back(kind: ScalarKind, v: ValueV)
    requires
        kind == ScalarKind::Str ==> v is Str,
        kind == ScalarKind::Bool ==> v is Bool,
        kind == ScalarKind::Str || kind == ScalarKind::Bool,
    ensures
        coerce_spec(kind, scalar_text(v)) == Ok::<ValueV, ErrorV>(v),
{
}
proof fn lemma_finalize_back(rs: RecordSchema, fs: Seq<SlotV>, k: nat)
    requires
        shapes_fit(rs, fs),
        k <= rs.fields.len(),
    ensures
        finalize(rs, expected(rs, fs, rs.fields.len() as nat, rs.fields.len() as nat), k) == Ok::<
            Seq<SlotV>,
            ErrorV,
        >(fs.take(k as int)),
    decreases k,
{
    let n = rs.fields.len() as nat;
    if k == 0 {
        assert(fs.take(0) =~= Seq::<SlotV>::empty());
    } else {
        let j = (k - 1) as nat;
        lemma_finalize_back(rs, fs, j);
        let f = rs.fields@[j as int];
        assert(expected(rs, fs, n, n)[j as int] == filled(f, fs[j as int]));
        assert(final_slot(rs, f, filled(f, fs[j as int])) == Ok::<SlotV, ErrorV>(fs[j as int]));
        assert(fs.take(j as int).push(fs[j as int]) =~= fs.take(k as int));
    }
}
proof fn lemma_first_field_text(fields: Seq<FieldSchema>, n: QName, t: nat, k: nat)
    requires
        t < fields.len(),
        k <= fields.len(),
        fields[t as int].role == Role::Text,
        forall|i: int| 0 <= i < fields.len() && i != t ==> (#[trigger] fields[i]).role == Role::Attribute,
    ensures
        first_field(fields, Role::Text, n, k) == (if t < k {
            Some(t)
        } else {
            None::<nat>
        }),
    decreases k,
{
    if k > 0 {
        lemma_first_field_text(fields, n, t, (k - 1) as nat);
    }
}
proof fn lemma_only_text_items(rs: RecordSchema, fs: Seq<SlotV>, t: nat, k: nat)
    requires
        text_record(rs, fs, t),
        k <= rs.fields.len(),
    ensures
        items(rs, fs, false, k) == (if t < k {
            field_items(rs.fields@[t as int], fs[t as int])
        } else {
            Seq::<Item>::empty()
        }),
    decreases k,
{
    if k > 0 {
        lemma_only_text_items(rs, fs, t, (k - 1) as nat);
        let j = (k - 1) as int;
        if j != t {
            assert(rs.fields@[j].role == Role::Attribute);
        }
        assert(items(rs, fs, false, k) =~= (if t < k {
            field_items(rs.fields@[t as int], fs[t as int])
        } else {
            Seq::<Item>::empty()
        }));
    }
}

proof fn lemma_read_attrs_back(s: Schema, rs: RecordSchema, fs: Seq<SlotV>, e: Element, k: nat)
    requires
        attrs_return(rs, fs),
        written(s, rs, fs, e),
        k <= rs.fields.len(),
    ensures
        read_attrs_spec(rs, e, items(rs, fs, true, k).len()) == Ok::<Seq<SlotV>, ErrorV>(
            expected(rs, fs, k, 0),
        ),
    decreases k,
{
    let n = rs.fields.len() as nat;
    lemma_items_prefix(rs, fs, true, k, n);
    if k == 0 {
        assert(expected(rs, fs, 0, 0) =~= init_acc(rs.fields@));
    } else {
        let j = (k - 1) as nat;
        lemma_read_attrs_back(s, rs, fs, e, j);
        let f = rs.fields@[j as int];
        let m = items(rs, fs, true, j).len();
        assert(items(rs, fs, true, k) == items(rs, fs, true, j) + (if f.role == Role::Attribute {
            field_items(f, fs[j as int])
        } else {
            Seq::empty()
        }));
        if f.role == Role::Attribute && slot_values(fs[j as int]).len() > 0 {
            let v = slot_values(fs[j as int])[0];
            assert(slot_values(fs[j as int]).len() == 1);
            assert(items(rs, fs, true, k)[m as int] == field_items(f, fs[j as int])[0]);
            assert(items(rs, fs, true, n)[m as int] == items(rs, fs, true, k)[m as int]);
            let a = e.attrs@[m as int];
            assert(attr_is(a, items(rs, fs, true, n)[m as int]));
            lemma_first_field_view(rs.fields@, Role::Attribute, a.name, f.tags@[0], n);
            assert(field_returns(rs, fs, j as int));
            assert(values_of_kind(fs[j as int], f.kind));
            lemma_coerce_back(f.kind, v);
            assert(store(expected(rs, fs, j, 0), j as int, f, v) =~= expected(rs, fs, k, 0));
        } else {
            assert(expected(rs, fs, j, 0) =~= expected(rs, fs, k, 0));
        }
    }
}

/// Reading back the token that field `j` wrote for its `i`-th value.
proof fn lemma_read_item_back(
    s: Schema,
    rs: RecordSchema,
    fs: Seq<SlotV>,
    e: Element,
    j: nat,
    i: nat,
    idx: nat,
    acc: Seq<SlotV>,
)
    requires
        content_record(rs, fs),
        j < rs.fields.len(),
        rs.fields@[j as int].role != Role::Attribute,
        i < slot_values(fs[j as int]).len(),
        idx < e.children.len(),
        node_is(s, e.children@[idx as int], item_of(rs.fields@[j as int], slot_values(fs[j as int])[i as int])),
        read_children_spec(s, rs, e, idx) == Ok::<Seq<SlotV>, ErrorV>(acc),
    ensures
        read_children_spec(s, rs, e, idx + 1) == Ok::<Seq<SlotV>, ErrorV>(
            store(acc, j as int, rs.fields@[j as int], slot_values(fs[j as int])[i as int]),
        ),
{
    let n = rs.fields.len() as nat;
    let f = rs.fields@[j as int];
    let v = slot_values(fs[j as int])[i as int];
    let c = e.children@[idx as int]->Elem_0;
    assert(e.children@[idx as int] is Elem);
    lemma_first_field_view(rs.fields@, Role::Child, c.name, f.tags@[0], n);
    lemma_first_field_view(rs.fields@, Role::FlattenText, c.name, f.tags@[0], n);
    if f.role == Role::Child {
        assert(v is Rec);
        assert(ValueV::Rec(v->Rec_0) == v);
    } else {
        assert(field_returns(rs, fs, j as int));
        assert(values_of_kind(fs[j as int], f.kind));
        lemma_coerce_back(f.kind, v);
        assert(crate::tree::text_of(c) == scalar_text(v));
    }
}

proof fn lemma_read_repeated_back(
    s: Schema,
    rs: RecordSchema,
    fs: Seq<SlotV>,
    e: Element,
    j: nat,
    i: nat,
)
    requires
        content_record(rs, fs),
        written(s, rs, fs, e),
        j < rs.fields.len(),
        rs.fields@[j as int].role != Role::Attribute,
        rs.fields@[j as int].card == Cardinality::Repeated,
        i <= slot_values(fs[j as int]).len(),
        read_children_spec(s, rs, e, items(rs, fs, false, j).len()) == Ok::<Seq<SlotV>, ErrorV>(
            expected(rs, fs, rs.fields.len() as nat, j),
        ),
    ensures
        read_children_spec(s, rs, e, items(rs, fs, false, j).len() + i) == Ok::<Seq<SlotV>, ErrorV>(
            expected(rs, fs, rs.fields.len() as nat, j).update(
                j as int,
                SlotV::Many(slot_values(fs[j as int]).take(i as int)),
            ),
        ),
    decreases i,
{
    let n = rs.fields.len() as nat;
    let f = rs.fields@[j as int];
    let vs = slot_values(fs[j as int]);
    let base = expected(rs, fs, n, j);
    if i == 0 {
        assert(vs.take(0) =~= Seq::<ValueV>::empty());
        assert(base.update(j as int, SlotV::Many(vs.take(0))) =~= base);
    } else {
        lemma_read_repeated_back(s, rs, fs, e, j, (i - 1) as nat);
        let m = items(rs, fs, false, j).len();
        let k = j + 1;
        lemma_items_prefix(rs, fs, false, k as nat, n);
        assert(items(rs, fs, false, k as nat) == items(rs, fs, false, j) + field_items(f, fs[j as int]));
        let idx = m + i - 1;
        assert(items(rs, fs, false, k as nat)[idx] == field_items(f, fs[j as int])[i - 1]);
        assert(items(rs, fs, false, n)[idx] == items(rs, fs, false, k as nat)[idx]);
        let prev = base.update(j as int, SlotV::Many(vs.take(i - 1)));
        lemma_read_item_back(s, rs, fs, e, j, (i - 1) as nat, idx as nat, prev);
        let v = vs[i - 1];
        assert(vs.take(i - 1).push(v) =~= vs.take(i as int));
        assert(store(prev, j as int, f, v) =~= base.update(j as int, SlotV::Many(vs.take(i as int))));
    }
}

proof fn lemma_read_children_back(s: Schema, rs: RecordSchema, fs: Seq<SlotV>, e: Element, k: nat)
    requires
        content_record(rs, fs),
        written(s, rs, fs, e),
        k <= rs.fields.len(),
    ensures
        read_children_spec(s, rs, e, items(rs, fs, false, k).len()) == Ok::<Seq<SlotV>, ErrorV>(
            expected(rs, fs, rs.fields.len() as nat, k),
        ),
    decreases k,
{
    let n = rs.fields.len() as nat;
    lemma_items_prefix(rs, fs, false, k, n);
    if k == 0 {
        lemma_read_attrs_back(s, rs, fs, e, n);
    } else {
        let j = (k - 1) as nat;
        lemma_read_children_back(s, rs, fs, e, j);
        let f = rs.fields@[j as int];
        let m = items(rs, fs, false, j).len();
        assert(items(rs, fs, false, k) == items(rs, fs, false, j) + (if f.role != Role::Attribute {
            field_items(f, fs[j as int])
        } else {
            Seq::empty()
        }));
        if f.role != Role::Attribute && f.card == Cardinality::Repeated {
            let vs = slot_values(fs[j as int]);
            lemma_read_repeated_back(s, rs, fs, e, j, vs.len());
            assert(vs.take(vs.len() as int) =~= vs);
            assert(expected(rs, fs, n, j).update(j as int, SlotV::Many(vs)) =~= expected(rs, fs, n, k));
        } else if f.role != Role::Attribute && slot_values(fs[j as int]).len() > 0 {
            let v = slot_values(fs[j as int])[0];
            assert(slot_values(fs[j as int]).len() == 1);
            assert(items(rs, fs, false, k)[m as int] == field_items(f, fs[j as int])[0]);
            assert(items(rs, fs, false, n)[m as int] == items(rs, fs, false, k)[m as int]);
            lemma_read_item_back(s, rs, fs, e, j, 0, m as nat, expected(rs, fs, n, j));
            assert(store(expected(rs, fs, n, j), j as int, f, v) =~= expected(rs, fs, n, k));
        } else {
            assert(expected(rs, fs, n, j) =~= expected(rs, fs, n, k));
        }
    }
}

/// Round trip: a record of attributes, flattened text and nested records
/// (see `content_record`) reads back from what `write` gives as the very same
/// slots.
pub proof fn law_round_trip(s: Schema, rs: RecordSchema, fs: Seq<SlotV>, e: Element)
    requires
        content_record(rs, fs),
        written(s, rs, fs, e),
    ensures
        read_record_spec(s, rs, e) == Ok::<Seq<SlotV>, ErrorV>(fs),
{
    let n = rs.fields.len() as nat;
    lemma_first_field_binds(rs.fields@, Role::Text, e.name, n);
    assert(!is_text_record(rs, e));
    lemma_read_children_back(s, rs, fs, e, n);
    lemma_finalize_back(rs, fs, n);
    assert(fs.take(n as int) =~= fs);
}

/// Round trip of a text-only record: attributes (scalar or optional) and
/// one scalar text field, of kind string or boolean, read back from what
/// `write` gives as the very same slots.
pub proof fn law_text_round_trip(s: Schema, rs: RecordSchema, fs: Seq<SlotV>, e: Element, t: nat)
    requires
        text_record(rs, fs, t),
        written(s, rs, fs, e),
    ensures
        read_record_spec(s, rs, e) == Ok::<Seq<SlotV>, ErrorV>(fs),
{
    let n = rs.fields.len() as nat;
    let f = rs.fields@[t as int];
    lemma_first_field_text(rs.fields@, e.name, t, n);
    assert(is_text_record(rs, e));
    lemma_read_attrs_back(s, rs, fs, e, n);
    lemma_only_text_items(rs, fs, t, n);
    let v = slot_values(fs[t as int])[0];
    assert(e.children@[0] is Text);
    assert(crate::tree::last_text(e.children@, 0) == None::<Seq<char>>);
    assert(crate::tree::text_of(e) == scalar_text(v));
    lemma_coerce_back(f.kind, v);
    assert(store(expected(rs, fs, n, 0), t as int, f, v) =~= expected(rs, fs, n, n));
    lemma_finalize_back(rs, fs, n);
    assert(fs.take(n as int) =~= fs);
}

/// The slots read back: a content record or a text-only record.
pub open spec fn reads_back(rs: RecordSchema, fs: Seq<SlotV>) -> bool {
    content_record(rs, fs) || exists|t: nat| text_record(rs, fs, t)
}

/// Record `r` of type `ty` can be written and read back: the type is a
/// struct, the slots read back, and so do the nested records.
pub open spec fn rec_fits(s: Schema, ty: nat, r: Record) -> bool
    decreases r,
{
    ty < s.types.len() && match s.types@[ty as int] {
        TypeSchema::Struct(rs) => r.variant == 0 && r.fields.len() == rs.fields.len()
            && writable_schema(rs) && reads_back(rs, all_slots(r.fields)) && children_ready(
            s,
            rs,
            r.fields,
            r.fields.len() as nat,
        ),
        TypeSchema::Enum { .. } => false,
    }
}

/// The nested records of the first `n` child fields fit their types.
pub open spec fn children_ready(s: Schema, rs: RecordSchema, fs: Vec<Slot>, n: nat) -> bool
    decreases fs, n,
{
    if n == 0 || n > fs.len() {
        true
    } else {
        children_ready(s, rs, fs, (n - 1) as nat) && (n - 1 < rs.fields.len()
            && rs.fields@[n - 1].role == Role::Child ==> slot_ready(
            s,
            rs.fields@[n - 1].child_type as nat,
            fs[n - 1],
        ))
    }
}

pub open spec fn slot_ready(s: Schema, ty: nat, sl: Slot) -> bool
    decreases sl,
{
    match sl {
        Slot::One(v) => value_ready(s, ty, v),
        Slot::Opt(Some(v)) => value_ready(s, ty, v),
        Slot::Opt(None) => true,
        Slot::Many(vs) => values_ready(s, ty, vs, vs.len() as nat),
    }
}

pub open spec fn values_ready(s: Schema, ty: nat, vs: Vec<Value>, n: nat) -> bool
    decreases vs, n,
{
    if n == 0 || n > vs.len() {
        true
    } else {
        values_ready(s, ty, vs, (n - 1) as nat) && value_ready(s, ty, vs[n - 1])
    }
}

pub open spec fn value_ready(s: Schema, ty: nat, v: Value) -> bool
    decreases v,
{
    match v {
        Value::Rec(r) => rec_fits(s, ty, r),
        _ => false,
    }
}

proof fn lemma_children_ready_at(s: Schema, rs: RecordSchema, fs: Vec<Slot>, n: nat, k: nat)
    requires
        children_ready(s, rs, fs, n),
        k < n <= fs.len(),
        k < rs.fields.len(),
        rs.fields@[k as int].role == Role::Child,
    ensures
        slot_ready(s, rs.fields@[k as int].child_type as nat, fs[k as int]),
    decreases n,
{
    if k + 1 < n {
        lemma_children_ready_at(s, rs, fs, (n - 1) as nat, k);
    }
}

proof fn lemma_values_ready_at(s: Schema, ty: nat, vs: Vec<Value>, n: nat, i: nat)
    requires
        values_ready(s, ty, vs, n),
        i < n <= vs.len(),
    ensures
        value_ready(s, ty, vs[i as int]),
    decreases n,
{
    if i + 1 < n {
        lemma_values_ready_at(s, ty, vs, (n - 1) as nat, i);
    }
}

/// Relies on the standard formatter of `i64`: the text depends on the
/// number alone.
#[verifier::external_body]
fn int_to_text(n: i64) -> (r: String)
    ensures
        r@ == int_text(n),
{
    n.to_string()
}

fn scalar_to_text(v: &Value) -> (r: String)
    ensures
        r@ == scalar_text(value_view(*v)),
{
    match v {
        Value::Str(s) => s.clone(),
        Value::Bool(b) => {
            let t = if *b {
                "true"
            } else {
                "false"
            };
            proof {
                reveal_strlit("true");
                reveal_strlit("false");
                assert("true"@ =~= seq!['t', 'r', 'u', 'e']);
                assert("false"@ =~= seq!['f', 'a', 'l', 's', 'e']);
            }
            t.to_owned()
        },
        Value::Int(n) => int_to_text(*n),
        Value::Rec(_) => String::new(),
    }
}

fn copy_name(q: &QName) -> (r: QName)
    ensures
        r.prefix@ == q.prefix@,
        r.local@ == q.local@,
{
    QName { prefix: q.prefix.clone(), local: q.local.clone() }
}

/// `now` is `before` followed by attributes standing for `own`.
pub open spec fn appended_attrs(now: Seq<Attr>, before: Seq<Attr>, own: Seq<Item>) -> bool {
    &&& now.len() == before.len() + own.len()
    &&& forall|j: int| 0 <= j < before.len() ==> #[trigger] now[j] == before[j]
    &&& forall|j: int| 0 <= j < own.len() ==> attr_is(#[trigger] now[before.len() + j], own[j])
}

/// `now` is `before` followed by nodes standing for `own`.
pub open spec fn appended_nodes(s: Schema, now: Seq<Node>, before: Seq<Node>, own: Seq<Item>) -> bool {
    &&& now.len() == before.len() + own.len()
    &&& forall|j: int| 0 <= j < before.len() ==> #[trigger] now[j] == before[j]
    &&& forall|j: int| 0 <= j < own.len() ==> node_is(s, #[trigger] now[before.len() + j], own[j])
}

/// Writes the token of field `f` for value `v`.
fn emit(s: &Schema, f: &FieldSchema, v: &Value, attrs: &mut Vec<Attr>, children: &mut Vec<Node>)
    requires
        f.role != Role::Text ==> f.tags.len() > 0,
        f.role == Role::Child ==> value_ready(*s, f.child_type as nat, *v),
    ensures
        f.role == Role::Attribute ==> appended_attrs(
            final(attrs)@,
            old(attrs)@,
            seq![item_of(*f, value_view(*v))],
        ) && final(children)@ == old(children)@,
        f.role != Role::Attribute ==> appended_nodes(
            *s,
            final(children)@,
            old(children)@,
            seq![item_of(*f, value_view(*v))],
        ) && final(attrs)@ == old(attrs)@,
    decreases v,
{
    if f.role == Role::Child {
        match v {
            Value::Rec(r) => {
                let c = write_child(s, f.child_type, r, &f.tags[0]);
                children.push(Node::Elem(c));
            },
            _ => {},
        }
    } else {
        let text = scalar_to_text(v);
        if f.role == Role::Attribute {
            attrs.push(Attr { name: copy_name(&f.tags[0]), value: text });
        } else if f.role == Role::Text {
            children.push(Node::Text(text));
        } else {
            let mut inner: Vec<Node> = Vec::new();
            inner.push(Node::Text(text));
            let c = Element { name: copy_name(&f.tags[0]), attrs: Vec::new(), children: inner };
            children.push(Node::Elem(c));
        }
    }
}

/// Writes nested record `r` of type `ty` as an element named `tag`, which
/// reads back as `r`.
fn write_child(s: &Schema, ty: usize, r: &Record, tag: &QName) -> (c: Element)
    requires
        rec_fits(*s, ty as nat, *r),
    ensures
        c.name.prefix@ == tag.prefix@,
        c.name.local@ == tag.local@,
        read_element_spec(*s, ty as nat, c) == Ok::<RecordV, ErrorV>(r@),
    decreases r,
{
    match &s.types[ty] {
        TypeSchema::Struct(rs) => {
            let e = write(s, rs, &r.fields);
            let c = Element { name: copy_name(tag), attrs: e.attrs, children: e.children };
            proof {
                let fs = all_slots(r.fields);
                assert(written(*s, *rs, fs, c));
                if content_record(*rs, fs) {
                    law_round_trip(*s, *rs, fs, c);
                } else {
                    let t = choose|t: nat| text_record(*rs, fs, t);
                    law_text_round_trip(*s, *rs, fs, c, t);
                }
            }
            c
        },
        TypeSchema::Enum { .. } => Element { name: copy_name(tag), attrs: Vec::new(), children: Vec::new() },
    }
}

/// Writes one record: its tag, the attribute fields as attributes, then in
/// declared order each text value as a text node, each flattened value as an
/// element named by the field's first tag that holds the text, and each
/// nested record as an element named by the field's first tag. What reads
/// back (`reads_back`) is read as the very same slots.
pub fn write(s: &Schema, rs: &RecordSchema, fs: &Vec<Slot>) -> (e: Element)
    requires
        fs.len() == rs.fields.len(),
        writable_schema(*rs),
        children_ready(*s, *rs, *fs, fs.len() as nat),
    ensures
        e.name.same(rs.tag),
        written(*s, *rs, all_slots(*fs), e),
        reads_back(*rs, all_slots(*fs)) ==> read_record_spec(*s, *rs, e) == Ok::<Seq<SlotV>, ErrorV>(
            all_slots(*fs),
        ),
    decreases fs,
{
    let ghost fv = all_slots(*fs);
    proof {
        lemma_all_slots(*fs);
    }
    let mut attrs: Vec<Attr> = Vec::new();
    let mut children: Vec<Node> = Vec::new();
    let mut k: usize = 0;
    while k < rs.fields.len()
        invariant
            k <= rs.fields.len(),
            fs.len() == rs.fields.len(),
            writable_schema(*rs),
            children_ready(*s, *rs, *fs, fs.len() as nat),
            fv == all_slots(*fs),
            fv.len() == fs.len(),
            forall|j: int| 0 <= j < fs.len() ==> #[trigger] fv[j] == slot_view(fs@[j]),
            attrs.len() == items(*rs, fv, true, k as nat).len(),
            forall|i: int|
                0 <= i < attrs.len() ==> attr_is(#[trigger] attrs@[i], items(*rs, fv, true, k as nat)[i]),
            children.len() == items(*rs, fv, false, k as nat).len(),
            forall|i: int|
                0 <= i < children.len() ==> node_is(
                    *s,
                    #[trigger] children@[i],
                    items(*rs, fv, false, k as nat)[i],
                ),
        decreases rs.fields.len() - k,
    {
        let f = &rs.fields[k];
        let ghost own = field_items(*f, fv[k as int]);
        let ghost a0 = attrs@;
        let ghost c0 = children@;
        proof {
            if f.role == Role::Child {
                lemma_children_ready_at(*s, *rs, *fs, fs.len() as nat, k as nat);
            }
        }
        match &fs[k] {
            Slot::One(v) => {
                emit(s, f, v, &mut attrs, &mut children);
                assert(own =~= seq![item_of(*f, value_view(*v))]);
            },
            Slot::Opt(Some(v)) => {
                emit(s, f, v, &mut attrs, &mut children);
                assert(own =~= seq![item_of(*f, value_view(*v))]);
            },
            Slot::Opt(None) => {
                assert(own =~= Seq::<Item>::empty());
            },
            Slot::Many(vs) => {
                proof {
                    lemma_all_values(*vs);
                }
                assert(own.len() == vs.len());
                let mut i: usize = 0;
                while i < vs.len()
                    invariant
                        i <= vs.len(),
                        k < fs.len(),
                        fs@[k as int] == Slot::Many(*vs),
                        own.len() == vs.len(),
                        forall|j: int| 0 <= j < vs.len() ==> #[trigger] own[j] == item_of(*f, value_view(vs@[j])),
                        f.role != Role::Text ==> f.tags.len() > 0,
                        f.role == Role::Child ==> values_ready(*s, f.child_type as nat, *vs, vs.len() as nat),
                        f.role == Role::Attribute ==> appended_attrs(attrs@, a0, own.take(i as int)) && children@ == c0,
                        f.role != Role::Attribute ==> appended_nodes(*s, children@, c0, own.take(i as int)) && attrs@ == a0,
                    decreases vs.len() - i,
                {
                    proof {
                        if f.role == Role::Child {
                            lemma_values_ready_at(*s, f.child_type as nat, *vs, vs.len() as nat, i as nat);
                        }
                    }
                    let ghost a1 = attrs@;
                    let ghost c1 = children@;
                    proof {
                        assert(decreases_to!(*fs => fs@));
                        assert(decreases_to!(fs@ => fs@[k as int]));
                        assert(decreases_to!(fs@[k as int] => fs@[k as int]->Many_0));
                        assert(decreases_to!(*vs => vs@));
                        assert(decreases_to!(vs@ => vs@[i as int]));
                        assert(decreases_to!(*fs => vs@[i as int]));
                    }
                    emit(s, f, &vs[i], &mut attrs, &mut children);
                    proof {
                        let t1 = own.take(i + 1);
                        assert(t1 =~= own.take(i as int).push(item_of(*f, value_view(vs@[i as int]))));
                        if f.role == Role::Attribute {
                            assert forall|j: int| 0 <= j < t1.len() implies attr_is(#[trigger] attrs@[a0.len() + j], t1[j]) by {
                                if j < i {
                                    assert(attrs@[a0.len() + j] == a1[a0.len() + j]);
                                } else {
                                    let x = item_of(*f, value_view(vs@[i as int]));
                                    assert(attr_is(attrs@[(a1.len() + 0) as int], seq![x][0]));
                                    assert(attrs@[(a1.len() + 0) as int] == attrs@[a0.len() + j]);
                                }
                            }
                        } else {
                            assert forall|j: int| 0 <= j < t1.len() implies node_is(*s, #[trigger] children@[c0.len() + j], t1[j]) by {
                                if j < i {
                                    assert(children@[c0.len() + j] == c1[c0.len() + j]);
                                } else {
                                    let x = item_of(*f, value_view(vs@[i as int]));
                                    assert(node_is(*s, children@[(c1.len() + 0) as int], seq![x][0]));
                                    assert(children@[(c1.len() + 0) as int] == children@[c0.len() + j]);
                                }
                            }
                        }
                    }
                    i = i + 1;
                }
                assert(own.take(vs.len() as int) =~= own);
            },
        }
        proof {
            let ia = items(*rs, fv, true, (k + 1) as nat);
            let ic = items(*rs, fv, false, (k + 1) as nat);
            if f.role == Role::Attribute {
                assert(ia =~= items(*rs, fv, true, k as nat) + own);
                assert(ic =~= items(*rs, fv, false, k as nat));
                assert forall|j: int| 0 <= j < attrs.len() implies attr_is(#[trigger] attrs@[j], ia[j]) by {
                    if j >= a0.len() {
                        assert(attrs@[a0.len() + (j - a0.len())] == attrs@[j]);
                    }
                }
            } else {
                assert(ic =~= items(*rs, fv, false, k as nat) + own);
                assert(ia =~= items(*rs, fv, true, k as nat));
                assert forall|j: int| 0 <= j < children.len() implies node_is(*s, #[trigger] children@[j], ic[j]) by {
                    if j >= c0.len() {
                        assert(children@[c0.len() + (j - c0.len())] == children@[j]);
                    }
                }
            }
        }
        k = k + 1;
    }
    let e = Element { name: copy_name(&rs.tag), attrs, children };
    proof {
        if content_record(*rs, fv) {
            law_round_trip(*s, *rs, fv, e);
        } else if reads_back(*rs, fv) {
            let t = choose|t: nat| text_record(*rs, fv, t);
            law_text_round_trip(*s, *rs, fv, e, t);
        }
    }
    e
}

} // verus!
