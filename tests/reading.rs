use xml_record::coerce::{coerce, int_from_parsed};
use xml_record::reader::{impl_read, read, read_element};
use xml_record::schema::{
    Cardinality, FieldSchema, RecordSchema, Role, Schema, TypeSchema, VariantSchema,
};
use xml_record::tag::QName;
use xml_record::tree::{Attr, Element, Node};
use xml_record::value::{Record, ScalarKind, Slot, Value, XmlError};

fn qn(s: &str) -> QName {
    QName::parse(s).unwrap()
}

fn field(name: &str, role: Role, tags: &[&str], card: Cardinality, kind: ScalarKind) -> FieldSchema {
    FieldSchema {
        name: name.to_string(),
        role,
        tags: tags.iter().map(|t| qn(t)).collect(),
        card,
        default: false,
        kind,
        child_type: 0,
    }
}

fn child(name: &str, tags: &[&str], card: Cardinality, ty: usize) -> FieldSchema {
    let mut f = field(name, Role::Child, tags, card, ScalarKind::Str);
    f.child_type = ty;
    f
}

fn record(name: &str, tag: &str, fields: Vec<FieldSchema>) -> RecordSchema {
    RecordSchema { name: name.to_string(), tag: qn(tag), fields }
}

fn elem(tag: &str, attrs: &[(&str, &str)], children: Vec<Node>) -> Element {
    Element {
        name: qn(tag),
        attrs: attrs
            .iter()
            .map(|(k, v)| Attr { name: qn(k), value: v.to_string() })
            .collect(),
        children,
    }
}

fn text_elem(tag: &str, text: &str) -> Node {
    Node::Elem(elem(tag, &[], vec![Node::Text(text.to_string())]))
}

fn s(v: &str) -> Value {
    Value::Str(v.to_string())
}

/// `item` with a required attribute `id`, a repeated flattened `tag` and an
/// optional flattened `note`.
fn item_schema() -> Schema {
    Schema {
        types: vec![TypeSchema::Struct(record(
            "item",
            "item",
            vec![
                field("id", Role::Attribute, &["id"], Cardinality::Scalar, ScalarKind::Str),
                field("tags", Role::FlattenText, &["tag"], Cardinality::Repeated, ScalarKind::Str),
                field("note", Role::FlattenText, &["note"], Cardinality::Optional, ScalarKind::Str),
            ],
        ))],
    }
}

/// `box` holding a scalar child `v`, a repeated child `w` (both text records
/// of type 0) and an optional child `o`.
fn box_schema() -> Schema {
    Schema {
        types: vec![
            TypeSchema::Struct(record(
                "val",
                "v",
                vec![field("text", Role::Text, &[], Cardinality::Scalar, ScalarKind::Str)],
            )),
            TypeSchema::Struct(record(
                "box",
                "box",
                vec![
                    field("flag", Role::Attribute, &["flag"], Cardinality::Optional, ScalarKind::Bool),
                    child("one", &["v"], Cardinality::Scalar, 0),
                    child("many", &["w", "x:w"], Cardinality::Repeated, 0),
                    child("maybe", &["o"], Cardinality::Optional, 0),
                ],
            )),
        ],
    }
}

fn val(t: &str) -> Value {
    Value::Rec(Record { variant: 0, fields: vec![Slot::One(s(t))] })
}

#[test]
fn item_reads_attribute_and_repeated_tags() {
    let schema = item_schema();
    assert!(schema.check());
    let input = vec![Node::Elem(elem(
        "item",
        &[("id", "7")],
        vec![text_elem("tag", "a"), text_elem("tag", "b")],
    ))];
    let r = impl_read(&schema, 0, &input).unwrap();
    assert_eq!(
        r,
        Record {
            variant: 0,
            fields: vec![Slot::One(s("7")), Slot::Many(vec![s("a"), s("b")]), Slot::Opt(None)],
        }
    );
}

#[test]
fn item_without_id_is_missing_field() {
    let schema = item_schema();
    let input = vec![Node::Elem(elem("item", &[], vec![text_elem("tag", "a")]))];
    assert_eq!(
        impl_read(&schema, 0, &input),
        Err(XmlError::MissingField { record: "item".to_string(), field: "id".to_string() })
    );
}

#[test]
fn union_skips_unmatched_element() {
    let cat = record("cat", "cat", vec![]);
    let dog = record("dog", "dog", vec![]);
    let schema = Schema {
        types: vec![TypeSchema::Enum {
            name: "animal".to_string(),
            variants: vec![VariantSchema::Named(cat), VariantSchema::Named(dog)],
        }],
    };
    assert!(schema.check());
    let input = vec![Node::Elem(elem("fish", &[], vec![])), Node::Elem(elem("dog", &[], vec![]))];
    assert_eq!(impl_read(&schema, 0, &input), Ok(Record { variant: 1, fields: vec![] }));
}

#[test]
fn union_without_match_is_unexpected_eof() {
    let schema = Schema {
        types: vec![TypeSchema::Enum {
            name: "animal".to_string(),
            variants: vec![VariantSchema::Named(record("cat", "cat", vec![]))],
        }],
    };
    let input = vec![Node::Elem(elem("fish", &[], vec![]))];
    assert_eq!(impl_read(&schema, 0, &input), Err(XmlError::UnexpectedEof));
    assert_eq!(impl_read(&schema, 0, &vec![]), Err(XmlError::UnexpectedEof));
}

#[test]
fn transparent_variant_delegates_to_inner_type() {
    let schema = Schema {
        types: vec![
            TypeSchema::Struct(record(
                "val",
                "v",
                vec![field("text", Role::Text, &[], Cardinality::Scalar, ScalarKind::Int)],
            )),
            TypeSchema::Enum {
                name: "either".to_string(),
                variants: vec![
                    VariantSchema::Named(record("cat", "cat", vec![])),
                    VariantSchema::Transparent { tags: vec![qn("v")], inner: 0 },
                ],
            },
        ],
    };
    assert!(schema.check());
    let input = vec![text_elem("v", "12")];
    let inner = Record { variant: 0, fields: vec![Slot::One(Value::Int(12))] };
    assert_eq!(
        impl_read(&schema, 1, &input),
        Ok(Record { variant: 1, fields: vec![Slot::One(Value::Rec(inner))] })
    );
}

#[test]
fn boolean_literals() {
    for t in ["yes", "on", "1", "t", "true", "y"] {
        assert_eq!(coerce(ScalarKind::Bool, &t.to_string()), Ok(Value::Bool(true)));
    }
    for t in ["no", "off", "0", "f", "false", "n"] {
        assert_eq!(coerce(ScalarKind::Bool, &t.to_string()), Ok(Value::Bool(false)));
    }
    assert_eq!(
        coerce(ScalarKind::Bool, &"maybe".to_string()),
        Err(XmlError::FromStr { kind: ScalarKind::Bool, text: "maybe".to_string() })
    );
    assert_eq!(
        coerce(ScalarKind::Bool, &"Yes".to_string()),
        Err(XmlError::FromStr { kind: ScalarKind::Bool, text: "Yes".to_string() })
    );
}

#[test]
fn integers_and_strings_coerce() {
    assert_eq!(coerce(ScalarKind::Int, &"42".to_string()), Ok(Value::Int(42)));
    assert_eq!(coerce(ScalarKind::Int, &"-3".to_string()), Ok(Value::Int(-3)));
    assert_eq!(
        coerce(ScalarKind::Int, &"4x".to_string()),
        Err(XmlError::FromStr { kind: ScalarKind::Int, text: "4x".to_string() })
    );
    assert_eq!(
        coerce(ScalarKind::Int, &"".to_string()),
        Err(XmlError::FromStr { kind: ScalarKind::Int, text: "".to_string() })
    );
    assert_eq!(coerce(ScalarKind::Str, &" a b ".to_string()), Ok(s(" a b ")));
}

#[test]
fn tag_split_on_first_colon() {
    let q = QName::parse("ns:local").unwrap();
    assert_eq!(q.prefix, "ns");
    assert_eq!(q.local, "local");
    let q = QName::parse("local").unwrap();
    assert_eq!(q.prefix, "");
    assert_eq!(q.local, "local");
    let q = QName::parse(":local").unwrap();
    assert_eq!(q.prefix, "");
    assert_eq!(q.local, "local");
    assert!(QName::parse("a:b:c").is_none());
    assert!(qn("x:w").same_as(&QName::new("x", "w")));
    assert!(!qn("x:w").same_as(&qn("w")));
}

#[test]
fn scalar_child_last_occurrence_wins() {
    let schema = box_schema();
    assert!(schema.check());
    let e = elem("box", &[], vec![text_elem("v", "first"), text_elem("v", "second")]);
    let r = read_element(&schema, 1, &e).unwrap();
    assert_eq!(r.fields[1], Slot::One(val("second")));
}

#[test]
fn optional_child_last_occurrence_wins() {
    let schema = box_schema();
    let e = elem(
        "box",
        &[],
        vec![text_elem("v", "v"), text_elem("o", "p"), text_elem("o", "q")],
    );
    let r = read_element(&schema, 1, &e).unwrap();
    assert_eq!(r.fields[3], Slot::Opt(Some(val("q"))));
}

#[test]
fn repeated_child_keeps_document_order() {
    let schema = box_schema();
    let e = elem(
        "box",
        &[],
        vec![
            text_elem("w", "1"),
            text_elem("v", "v"),
            text_elem("x:w", "2"),
            Node::Text("between".to_string()),
            text_elem("w", "3"),
        ],
    );
    let r = read_element(&schema, 1, &e).unwrap();
    assert_eq!(r.fields[2], Slot::Many(vec![val("1"), val("2"), val("3")]));
    assert_eq!(r.fields[3], Slot::Opt(None));
}

#[test]
fn missing_required_child_is_missing_field() {
    let schema = box_schema();
    let e = elem("box", &[], vec![text_elem("w", "1")]);
    assert_eq!(
        read_element(&schema, 1, &e),
        Err(XmlError::MissingField { record: "box".to_string(), field: "one".to_string() })
    );
}

#[test]
fn unknown_attribute_and_child_are_skipped() {
    let schema = box_schema();
    let plain = elem("box", &[("flag", "on")], vec![text_elem("v", "a"), text_elem("w", "b")]);
    let extra = elem(
        "box",
        &[("zzz", "1"), ("flag", "on")],
        vec![
            text_elem("v", "a"),
            Node::Elem(elem("unknown", &[("k", "v")], vec![text_elem("w", "hidden")])),
            text_elem("w", "b"),
        ],
    );
    let a = read_element(&schema, 1, &plain).unwrap();
    let b = read_element(&schema, 1, &extra).unwrap();
    assert_eq!(a, b);
    assert_eq!(a.fields[0], Slot::Opt(Some(Value::Bool(true))));
}

#[test]
fn bad_attribute_value_is_from_str() {
    let schema = box_schema();
    let e = elem("box", &[("flag", "maybe")], vec![text_elem("v", "a")]);
    assert_eq!(
        read_element(&schema, 1, &e),
        Err(XmlError::FromStr { kind: ScalarKind::Bool, text: "maybe".to_string() })
    );
}

#[test]
fn default_field_takes_zero_value() {
    let mut n = field("n", Role::Attribute, &["n"], Cardinality::Scalar, ScalarKind::Int);
    n.default = true;
    let mut b = field("b", Role::FlattenText, &["b"], Cardinality::Scalar, ScalarKind::Bool);
    b.default = true;
    let mut t = field("t", Role::Attribute, &["t"], Cardinality::Scalar, ScalarKind::Str);
    t.default = true;
    let rs = record("r", "r", vec![n, b, t]);
    let schema = Schema { types: vec![] };
    let e = elem("r", &[], vec![]);
    assert_eq!(
        read(&schema, &rs, &e),
        Ok(vec![Slot::One(Value::Int(0)), Slot::One(Value::Bool(false)), Slot::One(s(""))])
    );
    let e = elem("r", &[("n", "5"), ("n", "6")], vec![text_elem("b", "yes")]);
    assert_eq!(
        read(&schema, &rs, &e),
        Ok(vec![Slot::One(Value::Int(6)), Slot::One(Value::Bool(true)), Slot::One(s(""))])
    );
}

#[test]
fn text_record_reads_last_text_and_attributes() {
    let rs = record(
        "t",
        "t",
        vec![
            field("lang", Role::Attribute, &["xml:lang"], Cardinality::Optional, ScalarKind::Str),
            field("body", Role::Text, &[], Cardinality::Scalar, ScalarKind::Str),
        ],
    );
    let schema = Schema { types: vec![] };
    let e = elem("t", &[("xml:lang", "en"), ("lang", "fr")], vec![Node::Text("hi".to_string())]);
    assert_eq!(read(&schema, &rs, &e), Ok(vec![Slot::Opt(Some(s("en"))), Slot::One(s("hi"))]));
    let empty = elem("t", &[], vec![]);
    assert_eq!(read(&schema, &rs, &empty), Ok(vec![Slot::Opt(None), Slot::One(s(""))]));
}

#[test]
fn top_level_skips_nodes_before_matching_struct() {
    let schema = item_schema();
    let input = vec![
        Node::Text("junk".to_string()),
        Node::Elem(elem("other", &[("id", "1")], vec![])),
        Node::Elem(elem("item", &[("id", "2")], vec![text_elem("note", "n")])),
    ];
    assert_eq!(
        impl_read(&schema, 0, &input),
        Ok(Record {
            variant: 0,
            fields: vec![Slot::One(s("2")), Slot::Many(vec![]), Slot::Opt(Some(s("n")))],
        })
    );
    assert_eq!(impl_read(&schema, 3, &input), Err(XmlError::UnexpectedEof));
}

#[test]
fn unit_record_round_trip() {
    let rs = record("unit", "u:nit", vec![]);
    let e = xml_record::writer::write(&Schema { types: vec![] }, &rs, &vec![]);
    assert_eq!(e.name, QName::new("u", "nit"));
    assert!(e.attrs.is_empty() && e.children.is_empty());
    let schema = Schema { types: vec![TypeSchema::Struct(rs)] };
    assert_eq!(impl_read(&schema, 0, &vec![Node::Elem(e)]), Ok(Record { variant: 0, fields: vec![] }));
}

#[test]
fn ill_formed_schemas_are_refused() {
    let bad_child = Schema {
        types: vec![TypeSchema::Struct(record("a", "a", vec![child("c", &["c"], Cardinality::Scalar, 5)]))],
    };
    assert!(!bad_child.check());
    let bad_attr = Schema {
        types: vec![TypeSchema::Struct(record(
            "a",
            "a",
            vec![field("x", Role::Attribute, &["x"], Cardinality::Repeated, ScalarKind::Str)],
        ))],
    };
    assert!(!bad_attr.check());
    let bad_variant = Schema {
        types: vec![TypeSchema::Enum {
            name: "e".to_string(),
            variants: vec![VariantSchema::Transparent { tags: vec![qn("e")], inner: 0 }],
        }],
    };
    assert!(!bad_variant.check());
    let text_and_child = Schema {
        types: vec![TypeSchema::Struct(record(
            "a",
            "a",
            vec![
                field("body", Role::Text, &[], Cardinality::Scalar, ScalarKind::Str),
                field("x", Role::FlattenText, &["x"], Cardinality::Optional, ScalarKind::Str),
            ],
        ))],
    };
    assert!(!text_and_child.check());
    let two_texts = Schema {
        types: vec![TypeSchema::Struct(record(
            "a",
            "a",
            vec![
                field("x", Role::Attribute, &["x"], Cardinality::Scalar, ScalarKind::Str),
                field("b1", Role::Text, &[], Cardinality::Scalar, ScalarKind::Str),
                field("b2", Role::Text, &[], Cardinality::Optional, ScalarKind::Str),
            ],
        ))],
    };
    assert!(!two_texts.check());
}

fn flat_schema() -> RecordSchema {
    record(
        "flat",
        "p:flat",
        vec![
            field("id", Role::Attribute, &["id"], Cardinality::Scalar, ScalarKind::Str),
            field("on", Role::Attribute, &["x:on"], Cardinality::Optional, ScalarKind::Bool),
            field("name", Role::FlattenText, &["name"], Cardinality::Scalar, ScalarKind::Str),
            field("note", Role::FlattenText, &["note"], Cardinality::Optional, ScalarKind::Str),
            field("ok", Role::FlattenText, &["ok"], Cardinality::Scalar, ScalarKind::Bool),
        ],
    )
}

fn flat_values() -> Vec<Slot> {
    vec![
        Slot::One(s("7")),
        Slot::Opt(Some(Value::Bool(false))),
        Slot::One(s("a b")),
        Slot::Opt(None),
        Slot::One(Value::Bool(true)),
    ]
}

#[test]
fn write_emits_attributes_then_content_in_declared_order() {
    let rs = flat_schema();
    let e = xml_record::writer::write(&Schema { types: vec![] }, &rs, &flat_values());
    assert_eq!(e.name, QName::new("p", "flat"));
    assert_eq!(e.attrs.len(), 2);
    assert_eq!(e.attrs[0].name, QName::new("", "id"));
    assert_eq!(e.attrs[0].value, "7");
    assert_eq!(e.attrs[1].name, QName::new("x", "on"));
    assert_eq!(e.attrs[1].value, "false");
    assert_eq!(e.children.len(), 2);
    match &e.children[0] {
        Node::Elem(c) => {
            assert_eq!(c.name, QName::new("", "name"));
            assert_eq!(c.text(), "a b");
        }
        Node::Text(_) => panic!("expected an element"),
    }
    match &e.children[1] {
        Node::Elem(c) => {
            assert_eq!(c.name, QName::new("", "ok"));
            assert_eq!(c.text(), "true");
        }
        Node::Text(_) => panic!("expected an element"),
    }
}

#[test]
fn flat_record_round_trip() {
    let rs = flat_schema();
    let schema = Schema { types: vec![] };
    let e = xml_record::writer::write(&Schema { types: vec![] }, &rs, &flat_values());
    assert_eq!(read(&schema, &rs, &e), Ok(flat_values()));
}

#[test]
fn write_formats_integers() {
    let rs = record(
        "n",
        "n",
        vec![
            field("count", Role::Attribute, &["count"], Cardinality::Scalar, ScalarKind::Int),
            field("xs", Role::FlattenText, &["x"], Cardinality::Repeated, ScalarKind::Int),
        ],
    );
    let values = vec![Slot::One(Value::Int(-12)), Slot::Many(vec![Value::Int(1), Value::Int(20)])];
    let e = xml_record::writer::write(&Schema { types: vec![] }, &rs, &values);
    assert_eq!(e.attrs[0].value, "-12");
    assert_eq!(e.children.len(), 2);
    match &e.children[1] {
        Node::Elem(c) => assert_eq!(c.text(), "20"),
        Node::Text(_) => panic!("expected an element"),
    }
    let schema = Schema { types: vec![TypeSchema::Struct(rs)] };
    assert!(schema.check());
    assert_eq!(
        impl_read(&schema, 0, &vec![Node::Elem(e)]),
        Ok(Record { variant: 0, fields: values })
    );
}

#[test]
fn repeated_flattened_round_trip() {
    let rs = record(
        "list",
        "list",
        vec![
            field("n", Role::FlattenText, &["n"], Cardinality::Repeated, ScalarKind::Str),
            field("id", Role::Attribute, &["id"], Cardinality::Optional, ScalarKind::Str),
            field("b", Role::FlattenText, &["b"], Cardinality::Repeated, ScalarKind::Bool),
        ],
    );
    let values = vec![
        Slot::Many(vec![s("x"), s(""), s("z")]),
        Slot::Opt(Some(s("q"))),
        Slot::Many(vec![]),
    ];
    let e = xml_record::writer::write(&Schema { types: vec![] }, &rs, &values);
    assert_eq!(e.children.len(), 3);
    let schema = Schema { types: vec![] };
    assert_eq!(read(&schema, &rs, &e), Ok(values));
}

#[test]
fn text_record_round_trip() {
    let rs = record(
        "t",
        "t",
        vec![
            field("lang", Role::Attribute, &["xml:lang"], Cardinality::Optional, ScalarKind::Str),
            field("body", Role::Text, &[], Cardinality::Scalar, ScalarKind::Bool),
            field("id", Role::Attribute, &["id"], Cardinality::Scalar, ScalarKind::Str),
        ],
    );
    let values = vec![Slot::Opt(None), Slot::One(Value::Bool(false)), Slot::One(s("9"))];
    let e = xml_record::writer::write(&Schema { types: vec![] }, &rs, &values);
    assert_eq!(e.children, vec![Node::Text("false".to_string())]);
    let schema = Schema { types: vec![] };
    assert_eq!(read(&schema, &rs, &e), Ok(values));
}

#[test]
fn parsed_integer_outcome() {
    assert_eq!(int_from_parsed(Some(5), &"5".to_string()), Ok(Value::Int(5)));
    assert_eq!(
        int_from_parsed(None, &"five".to_string()),
        Err(XmlError::FromStr { kind: ScalarKind::Int, text: "five".to_string() })
    );
}

#[test]
fn nested_records_round_trip() {
    let schema = box_schema();
    let rs = match &schema.types[1] {
        TypeSchema::Struct(rs) => rs,
        TypeSchema::Enum { .. } => panic!("expected a struct"),
    };
    let values = vec![
        Slot::Opt(Some(Value::Bool(true))),
        Slot::One(val("only")),
        Slot::Many(vec![val("w1"), val("w2")]),
        Slot::Opt(None),
    ];
    let e = xml_record::writer::write(&schema, rs, &values);
    assert_eq!(e.name, QName::new("", "box"));
    assert_eq!(e.children.len(), 3);
    match &e.children[1] {
        Node::Elem(c) => {
            assert_eq!(c.name, QName::new("", "w"));
            assert_eq!(c.text(), "w1");
        }
        Node::Text(_) => panic!("expected an element"),
    }
    assert_eq!(read(&schema, rs, &e), Ok(values));
}
