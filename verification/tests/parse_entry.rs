use taskconf::http::{Body, Headers, Method};
use taskconf::node::{Node, Num};
use taskconf::value::{ParseEntryError, Source, Value};

fn conv(v: &serde_yml::Value) -> Node {
    match v {
        serde_yml::Value::Null => Node::Null,
        serde_yml::Value::Bool(b) => Node::Bool(*b),
        serde_yml::Value::Number(n) => Node::Num(Num {
            int_val: n.as_i64(),
            float_bits: n.as_f64().to_bits(),
        }),
        serde_yml::Value::String(s) => Node::Str(s.clone()),
        serde_yml::Value::Sequence(items) => Node::List(items.iter().map(conv).collect()),
        serde_yml::Value::Mapping(m) => Node::Mapping(
            m.iter()
                .map(|(k, val)| (Node::Str(k.clone()), conv(val)))
                .collect(),
        ),
        serde_yml::Value::Tagged(t) => {
            Node::Tagged(t.tag().to_string(), Box::new(conv(t.value())))
        }
    }
}

fn entry_of(input: &str) -> Vec<(Node, Node)> {
    let value: serde_yml::Value = serde_yml::from_str(input).unwrap();
    match conv(&value) {
        Node::Mapping(pairs) => pairs,
        other => panic!("entry input is not a mapping: {:?}", other),
    }
}

#[test]
fn null_entry_parses_to_null_whatever_else_is_present() {
    let entry = entry_of("type: \"null\"\nvalue: 17\nextra: field\n");
    assert_eq!(Value::from_entry(&entry).unwrap(), Value::Null);

    let bare = entry_of("type: \"null\"\n");
    assert_eq!(Value::from_entry(&bare).unwrap(), Value::Null);
}

#[test]
fn integer_entry_parses_to_its_value() {
    let entry = entry_of("type: integer\nvalue: 100\n");
    assert_eq!(Value::from_entry(&entry).unwrap(), Value::Integer(100));

    let negative = entry_of("type: integer\nvalue: -9223372036854775808\n");
    assert_eq!(
        Value::from_entry(&negative).unwrap(),
        Value::Integer(i64::MIN)
    );

    let not_numeric = entry_of("type: integer\nvalue: soon\n");
    assert_eq!(
        Value::from_entry(&not_numeric).err().unwrap(),
        ParseEntryError::InvalidValue
    );
}

#[test]
fn basic_entry_never_accepts_object() {
    let entry = entry_of("type: object\nproperties: {}\n");
    assert_eq!(
        Value::from_basic_entry(&entry).err().unwrap(),
        ParseEntryError::InvalidTypeValue(String::from("object"))
    );
    assert_eq!(
        Value::from_basic_entry(&entry_of("type: boolean\nvalue: true\n"))
            .err()
            .unwrap(),
        ParseEntryError::InvalidTypeValue(String::from("boolean"))
    );
    assert_eq!(
        Value::from_basic_entry(&entry_of("type: \"null\"\n"))
            .err()
            .unwrap(),
        ParseEntryError::InvalidTypeValue(String::from("null"))
    );
}

#[test]
fn nested_object_entry_parses_deeply() {
    let entry = entry_of(
        "type: object
properties:
  a:
    type: array
    items:
      - type: boolean
        value: true
      - type: source
        source: execute_time
",
    );

    let expected = Value::Object(vec![(
        String::from("a"),
        Value::Array(vec![
            Value::Bool(true),
            Value::Source(Source::ExecuteDate),
        ]),
    )]);

    assert_eq!(Value::from_entry(&entry).unwrap(), expected);
}

#[test]
fn unknown_type_tag_is_rejected_in_both_modes() {
    let entry = entry_of("type: unsupported\n");
    assert_eq!(
        Value::from_entry(&entry).err().unwrap(),
        ParseEntryError::InvalidTypeValue(String::from("unsupported"))
    );
    assert_eq!(
        Value::from_basic_entry(&entry).err().unwrap(),
        ParseEntryError::InvalidTypeValue(String::from("unsupported"))
    );
}

#[test]
fn unknown_source_name_is_rejected_in_both_modes() {
    let entry = entry_of("type: source\nsource: tomorrow\n");
    assert_eq!(
        Value::from_entry(&entry).err().unwrap(),
        ParseEntryError::InvalidSourceValue(String::from("tomorrow"))
    );
    assert_eq!(
        Value::from_basic_entry(&entry).err().unwrap(),
        ParseEntryError::InvalidSourceValue(String::from("tomorrow"))
    );
}

#[test]
fn scalar_entries_parse_to_their_values() {
    assert_eq!(
        Value::from_entry(&entry_of("type: string\nvalue: hello\n")).unwrap(),
        Value::String(String::from("hello"))
    );
    assert_eq!(
        Value::from_entry(&entry_of("type: boolean\nvalue: false\n")).unwrap(),
        Value::Bool(false)
    );
    assert_eq!(
        Value::from_entry(&entry_of("type: float\nvalue: 1.5\n")).unwrap(),
        Value::Float(1.5f64.to_bits())
    );
    assert_eq!(
        Value::from_entry(&entry_of("type: float\nvalue: 3\n")).unwrap(),
        Value::Float(3.0f64.to_bits())
    );
    assert_eq!(
        Value::from_entry(&entry_of("type: source\nsource: last_execute_time\n")).unwrap(),
        Value::Source(Source::LastExecuteDate)
    );
}

#[test]
fn each_malformed_entry_names_its_error() {
    assert_eq!(
        Value::from_entry(&entry_of("other: 1\n")).err().unwrap(),
        ParseEntryError::MissingField(String::from("type"))
    );
    assert_eq!(
        Value::from_entry(&entry_of("type: 5\n")).err().unwrap(),
        ParseEntryError::InvalidType
    );
    assert_eq!(
        Value::from_entry(&entry_of("type: string\n")).err().unwrap(),
        ParseEntryError::MissingField(String::from("value"))
    );
    assert_eq!(
        Value::from_entry(&entry_of("type: string\nvalue: 5\n"))
            .err()
            .unwrap(),
        ParseEntryError::InvalidValue
    );
    assert_eq!(
        Value::from_entry(&entry_of("type: object\n")).err().unwrap(),
        ParseEntryError::MissingField(String::from("properties"))
    );
    assert_eq!(
        Value::from_entry(&entry_of("type: object\nproperties: 5\n"))
            .err()
            .unwrap(),
        ParseEntryError::InvalidProperties
    );
    assert_eq!(
        Value::from_entry(&entry_of("type: array\n")).err().unwrap(),
        ParseEntryError::MissingField(String::from("items"))
    );
    assert_eq!(
        Value::from_entry(&entry_of("type: array\nitems: 5\n"))
            .err()
            .unwrap(),
        ParseEntryError::InvalidItems
    );
    assert_eq!(
        Value::from_entry(&entry_of("type: array\nitems: [5]\n"))
            .err()
            .unwrap(),
        ParseEntryError::InvalidItems
    );
    assert_eq!(
        Value::from_entry(&entry_of("type: source\n")).err().unwrap(),
        ParseEntryError::MissingField(String::from("source"))
    );
    assert_eq!(
        Value::from_entry(&entry_of("type: source\nsource: 5\n"))
            .err()
            .unwrap(),
        ParseEntryError::InvalidSource
    );
}

#[test]
fn a_failure_deep_in_a_nested_entry_aborts_the_parse() {
    let entry = entry_of(
        "type: object
properties:
  good:
    type: integer
    value: 1
  bad:
    type: integer
    value: oops
",
    );
    assert_eq!(
        Value::from_entry(&entry).err().unwrap(),
        ParseEntryError::InvalidValue
    );
}

#[test]
fn test_deserialize_method() {
    assert_eq!(Method::from_name("GET"), Some(Method::Get));
    assert_eq!(Method::from_name("POST"), Some(Method::Post));
    assert_eq!(Method::from_name("DELETE"), Some(Method::Delete));
    assert_eq!(Method::from_name("PATCH"), Some(Method::Patch));
    assert_eq!(Method::from_name("PUT"), Some(Method::Put));

    assert_eq!(Method::from_name("get"), None);
    assert_eq!(Method::from_name("post"), None);
    assert_eq!(Method::from_name("delete"), None);
    assert_eq!(Method::from_name("patch"), None);
    assert_eq!(Method::from_name("put"), None);
}

#[test]
fn headers_parse_each_entry_in_restricted_mode() {
    let entries = vec![
        (
            String::from("X-Api-Key"),
            entry_of("type: string\nvalue: env!(YOUR_OWN_SERVICE_KEY)\n"),
        ),
        (
            String::from("X-Execute-Time"),
            entry_of("type: source\nsource: execute_time\n"),
        ),
    ];

    let headers = Headers::from_entries(&entries).unwrap();
    assert_eq!(
        headers,
        Headers(vec![
            (
                String::from("X-Api-Key"),
                Value::String(String::from("env!(YOUR_OWN_SERVICE_KEY)")),
            ),
            (
                String::from("X-Execute-Time"),
                Value::Source(Source::ExecuteDate),
            ),
        ])
    );

    let bad = vec![(String::from("X-Flag"), entry_of("type: boolean\nvalue: true\n"))];
    assert_eq!(
        Headers::from_entries(&bad).err().unwrap(),
        ParseEntryError::InvalidTypeValue(String::from("boolean"))
    );

    assert_eq!(Headers::default(), Headers(vec![]));
}

#[test]
fn body_json_parses_in_full_mode() {
    let body = Body::json_from_entry(&entry_of(
        "type: object
properties:
  field1:
    type: string
    value: hello
",
    ))
    .unwrap();

    assert_eq!(
        body,
        Body::Json(Value::Object(vec![(
            String::from("field1"),
            Value::String(String::from("hello")),
        )]))
    );
}
