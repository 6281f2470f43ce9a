use taskconf::envsub::{EnvReplacer, Error};
use taskconf::node::{Node, Num};

fn conv(v: &serde_yml::Value) -> Node {
    match v {
        serde_yml::Value::Null => Node::Null,
        serde_yml::Value::Bool(b) => Node::Bool(*b),
        serde_yml::Value::Number(n) => Node::Num(Num {
            int_val: n.as_i64(),
            float_bits: n.as_f64().to_bits(),
        }),
        serde_yml::Value::String(s) => Node::Str(s.clone()),
        serde_yml::Value::Sequence(items) => Node::List(items.iter().map(conv).collect()),
        serde_yml::Value::Mapping(m) => Node::Mapping(
            m.iter()
                .map(|(k, val)| (Node::Str(k.clone()), conv(val)))
                .collect(),
        ),
        serde_yml::Value::Tagged(t) => {
            Node::Tagged(t.tag().to_string(), Box::new(conv(t.value())))
        }
    }
}

fn unconv(n: &Node) -> serde_yml::Value {
    match n {
        Node::Null => serde_yml::Value::Null,
        Node::Bool(b) => serde_yml::Value::Bool(*b),
        Node::Num(num) => match num.int_val {
            Some(i) => serde_yml::Value::Number(i.into()),
            None => serde_yml::Value::Number(f64::from_bits(num.float_bits).into()),
        },
        Node::Str(s) => serde_yml::Value::String(s.clone()),
        Node::List(items) => serde_yml::Value::Sequence(items.iter().map(unconv).collect()),
        Node::Mapping(pairs) => {
            let mut m = serde_yml::Mapping::new();
            for (k, v) in pairs {
                let key = match k {
                    Node::Str(s) => s.clone(),
                    other => panic!("mapping key is not a string: {:?}", other),
                };
                m.insert(key, unconv(v));
            }
            serde_yml::Value::Mapping(m)
        }
        Node::Tagged(tag, inner) => {
            serde_yml::Value::Tagged(Box::new(serde_yml::value::TaggedValue::new(
                serde_yml::value::Tag::new(tag),
                unconv(inner),
            )))
        }
    }
}

fn test_replacer() -> EnvReplacer {
    EnvReplacer::new(vec![
        (String::from("TOKEN"), String::from("example_token")),
        (String::from("URL"), String::from("http://localhost:3030")),
    ])
}

fn env_replacer_success(replacer: &EnvReplacer, input: &str, expected_output: &str) {
    let value: serde_yml::Value = serde_yml::from_str(input).unwrap();

    let node = conv(&value);
    let resolved = replacer.replace_value(&node).unwrap();

    // Compare as documents: the exact text the host format emits for
    // one document (trailing newline, flow or block sequences) is the
    // serializer's choice, not the replacer's.
    let expected: serde_yml::Value = serde_yml::from_str(expected_output).unwrap();
    assert_eq!(conv(&expected), resolved);

    let reparsed: serde_yml::Value =
        serde_yml::from_str(&serde_yml::to_string(&unconv(&resolved)).unwrap()).unwrap();
    assert_eq!(conv(&reparsed), resolved);
}

fn env_replacer_failure(replacer: &EnvReplacer, input: &str, expected_err: Error) {
    let value: serde_yml::Value = serde_yml::from_str(input).unwrap();

    let node = conv(&value);
    let err = replacer.replace_value(&node).err().unwrap();

    assert_eq!(err, expected_err)
}

#[test]
fn test_env_replacer() {
    let replacer = test_replacer();

    env_replacer_success(&replacer, "test: env!(TOKEN)\n", "test: example_token\n");
    env_replacer_success(
        &replacer,
        "test: env!(URL)/load\n",
        "test: http://localhost:3030/load\n",
    );
    env_replacer_success(
        &replacer,
        r#"test: ["env!(TOKEN)", "env!(URL)/load"]"#,
        "test:\n- example_token\n- http://localhost:3030/load\n",
    );
    env_replacer_success(
        &replacer,
        r#"test: ["env!(URL)/env!(TOKEN)/", "env!(URL)/load"]"#,
        "test:\n- http://localhost:3030/example_token/\n- http://localhost:3030/load\n",
    );
    env_replacer_failure(
        &replacer,
        "test: env!(RANDOM_ENV)",
        Error::EnvVarNotFound {
            env_name: String::from("RANDOM_ENV"),
        },
    );
    env_replacer_failure(&replacer, "test: env!(RANDOM_ENV", Error::InvalidEnvSyntax);
}

#[test]
fn no_marker_document_is_unchanged() {
    let replacer = test_replacer();

    let input = "a: [1, 2.5, true, null, plain]\nb:\n  c: text\n";
    let value: serde_yml::Value = serde_yml::from_str(input).unwrap();
    let node = conv(&value);
    let resolved = replacer.replace_value(&node).unwrap();

    assert_eq!(node, resolved);
}

#[test]
fn multiple_placeholders_resolve_left_to_right() {
    let replacer = test_replacer();

    let resolved = replacer
        .replace_string(String::from("env!(URL)/env!(TOKEN)/"))
        .unwrap();

    assert_eq!(
        resolved,
        Node::Str(String::from("http://localhost:3030/example_token/"))
    );
}

#[test]
fn unresolved_variable_fails_with_its_name() {
    let replacer = test_replacer();

    let err = replacer
        .replace_string(String::from("env!(RANDOM_ENV)"))
        .err()
        .unwrap();

    assert_eq!(
        err,
        Error::EnvVarNotFound {
            env_name: String::from("RANDOM_ENV"),
        }
    );
}

#[test]
fn unterminated_placeholder_is_a_syntax_error() {
    let replacer = test_replacer();

    let err = replacer
        .replace_string(String::from("env!(RANDOM_ENV"))
        .err()
        .unwrap();

    assert_eq!(err, Error::InvalidEnvSyntax);
}

#[test]
fn self_referential_variable_hits_the_substitution_limit() {
    let replacer = EnvReplacer::new(vec![(
        String::from("SELF"),
        String::from("env!(SELF)"),
    )]);

    let err = replacer
        .replace_string(String::from("env!(SELF)"))
        .err()
        .unwrap();

    assert_eq!(err, Error::SubstitutionLimitReached);
}

#[test]
fn find_env_reports_the_first_name() {
    assert_eq!(
        EnvReplacer::find_env("x env!(NAME) env!(OTHER)").unwrap(),
        Some(String::from("NAME"))
    );
    assert_eq!(EnvReplacer::find_env("no placeholder").unwrap(), None);
    assert_eq!(
        EnvReplacer::find_env("env!(OPEN").err().unwrap(),
        Error::InvalidEnvSyntax
    );
}

#[test]
fn tagged_leaves_pass_through_untouched() {
    let replacer = test_replacer();

    let node = Node::Tagged(
        String::from("!keep"),
        Box::new(Node::Str(String::from("env!(TOKEN)"))),
    );
    let resolved = replacer.replace_value(&node).unwrap();

    assert_eq!(node, resolved);
}
