//! The typed-value parser.
//!
//! A tagged entry is a document mapping carrying a `type` discriminator
//! plus type-specific companion fields (`value`, `items`, `properties`,
//! `source`). [`Value::from_entry`] parses such an entry in full mode
//! (all eight type tags, used for request bodies);
//! [`Value::from_basic_entry`] in restricted mode (scalar tags and
//! `source` only, used for header values, which must stay textual).
//!
//! The parse result of every entry is pinned down by the spec functions
//! [`spec_parse_entry`] and [`spec_parse_basic_entry`] over the entry's
//! model, including which error comes back on which malformed entry.

use vstd::prelude::*;

use crate::node::{
    lemma_nodes_view, lemma_pairs_view, nodes_view, pairs_view, str_eq, Node, NodeV,
};

verus! {

/// A value that is not known until a task executes: a timestamp,
/// either of the run now starting or of the previous run.
#[derive(Clone, Copy, Debug, PartialEq, Eq, Structural)]
pub enum Source {
    ExecuteDate,
    LastExecuteDate,
}

/// The closed representation a tagged entry parses into.
///
/// `Float` carries the IEEE-754 bit pattern of the 64-bit float, so
/// that the tree stays a tree of plain values; the consumer that
/// serializes the value turns the bits back into a float.
#[derive(Debug, PartialEq)]
pub enum Value {
    Array(Vec<Value>),
    Object(Vec<(String, Value)>),
    String(String),
    Bool(bool),
    Float(u64),
    Integer(i64),
    Null,
    Source(Source),
}

/// How parsing a tagged entry can fail. Each variant names the field
/// that was missing or malformed, so a loader can surface a precise
/// diagnostic to the document author.
#[derive(Debug, PartialEq, Eq)]
pub enum ParseEntryError {
    MissingField(String),
    InvalidType,
    InvalidValue,
    InvalidItems,
    InvalidProperties,
    InvalidSource,
    InvalidSourceValue(String),
    InvalidTypeValue(String),
}

/// The mathematical model of a [`Value`].
pub enum ValueV {
    Array(Seq<ValueV>),
    Object(Seq<(Seq<char>, ValueV)>),
    String(Seq<char>),
    Bool(bool),
    Float(u64),
    Integer(i64),
    Null,
    Source(Source),
}

/// The mathematical model of a [`ParseEntryError`].
pub enum ParseErrV {
    MissingField(Seq<char>),
    InvalidType,
    InvalidValue,
    InvalidItems,
    InvalidProperties,
    InvalidSource,
    InvalidSourceValue(Seq<char>),
    InvalidTypeValue(Seq<char>),
}

pub open spec fn value_view(v: Value) -> ValueV
    decreases v,
{
    match v {
        Value::Array(items) => ValueV::Array(values_view(items@)),
        Value::Object(fields) => ValueV::Object(fields_view(fields@)),
        Value::String(s) => ValueV::String(s@),
        Value::Bool(b) => ValueV::Bool(b),
        Value::Float(bits) => ValueV::Float(bits),
        Value::Integer(n) => ValueV::Integer(n),
        Value::Null => ValueV::Null,
        Value::Source(s) => ValueV::Source(s),
    }
}

pub open spec fn values_view(s: Seq<Value>) -> Seq<ValueV>
    decreases s,
{
    if s.len() == 0 {
        Seq::empty()
    } else {
        seq![value_view(s[0])] + values_view(s.subrange(1, s.len() as int))
    }
}

pub open spec fn fields_view(s: Seq<(String, Value)>) -> Seq<(Seq<char>, ValueV)>
    decreases s,
{
    if s.len() == 0 {
        Seq::empty()
    } else {
        seq![(s[0].0@, value_view(s[0].1))] + fields_view(s.subrange(1, s.len() as int))
    }
}

impl View for Value {
    type V = ValueV;

    open spec fn view(&self) -> ValueV {
        value_view(*self)
    }
}

impl View for ParseEntryError {
    type V = ParseErrV;

    open spec fn view(&self) -> ParseErrV {
        match *self {
            ParseEntryError::MissingField(f) => ParseErrV::MissingField(f@),
            ParseEntryError::InvalidType => ParseErrV::InvalidType,
            ParseEntryError::InvalidValue => ParseErrV::InvalidValue,
            ParseEntryError::InvalidItems => ParseErrV::InvalidItems,
            ParseEntryError::InvalidProperties => ParseErrV::InvalidProperties,
            ParseEntryError::InvalidSource => ParseErrV::InvalidSource,
            ParseEntryError::InvalidSourceValue(s) => ParseErrV::InvalidSourceValue(s@),
            ParseEntryError::InvalidTypeValue(s) => ParseErrV::InvalidTypeValue(s@),
        }
    }
}

/// The model of a parse result.
pub open spec fn res_view(r: Result<Value, ParseEntryError>) -> Result<ValueV, ParseErrV> {
    match r {
        Ok(v) => Ok(v@),
        Err(e) => Err(e@),
    }
}

pub proof fn lemma_values_view(s: Seq<Value>)
    ensures
        values_view(s).len() == s.len(),
        forall|i: int| 0 <= i < s.len() ==> values_view(s)[i] == value_view(s[i]),
    decreases s,
{
    if s.len() > 0 {
        lemma_values_view(s.subrange(1, s.len() as int));
    }
}

pub proof fn lemma_fields_view(s: Seq<(String, Value)>)
    ensures
        fields_view(s).len() == s.len(),
        forall|i: int| 0 <= i < s.len() ==> fields_view(s)[i] == (s[i].0@, value_view(s[i].1)),
    decreases s,
{
    if s.len() > 0 {
        lemma_fields_view(s.subrange(1, s.len() as int));
    }
}

/// The position of the first pair of `m` whose key is the string `k`,
/// or `-1` when no key of `m` is that string.
pub open spec fn lookup_index(m: Seq<(NodeV, NodeV)>, k: Seq<char>) -> int
    decreases m.len(),
{
    if m.len() == 0 {
        -1
    } else if m[0].0 == NodeV::Str(k) {
        0
    } else if lookup_index(m.subrange(1, m.len() as int), k) < 0 {
        -1
    } else {
        lookup_index(m.subrange(1, m.len() as int), k) + 1
    }
}

pub open spec fn has_key(m: Seq<(NodeV, NodeV)>, k: Seq<char>) -> bool {
    lookup_index(m, k) >= 0
}

/// The value of the first pair of `m` whose key is the string `k`.
pub open spec fn lookup(m: Seq<(NodeV, NodeV)>, k: Seq<char>) -> NodeV {
    m[lookup_index(m, k)].1
}

pub proof fn lemma_lookup(m: Seq<(NodeV, NodeV)>, k: Seq<char>)
    ensures
        -1 <= lookup_index(m, k) < m.len(),
        has_key(m, k) ==> m[lookup_index(m, k)].0 == NodeV::Str(k),
        forall|j: int| 0 <= j < lookup_index(m, k) ==> m[j].0 != NodeV::Str(k),
        !has_key(m, k) ==> forall|j: int| 0 <= j < m.len() ==> m[j].0 != NodeV::Str(k),
    decreases m.len(),
{
    if m.len() > 0 && m[0].0 != NodeV::Str(k) {
        let tail = m.subrange(1, m.len() as int);
        lemma_lookup(tail, k);
        assert forall|j: int| 0 <= j < lookup_index(m, k) implies m[j].0 != NodeV::Str(k) by {
            if j > 0 {
                assert(m[j] == tail[j - 1]);
            }
        }
        if !has_key(m, k) {
            assert forall|j: int| 0 <= j < m.len() implies m[j].0 != NodeV::Str(k) by {
                if j > 0 {
                    assert(m[j] == tail[j - 1]);
                }
            }
        }
    }
}

/// The `type` discriminator of a tagged entry: missing means
/// `MissingField("type")`; anything but a string means `InvalidType`.
pub open spec fn spec_get_type(m: Seq<(NodeV, NodeV)>) -> Result<Seq<char>, ParseErrV> {
    if !has_key(m, "type"@) {
        Err(ParseErrV::MissingField("type"@))
    } else {
        match lookup(m, "type"@) {
            NodeV::Str(t) => Ok(t),
            _ => Err(ParseErrV::InvalidType),
        }
    }
}

/// The `value` companion field of a scalar entry.
pub open spec fn spec_get_value(m: Seq<(NodeV, NodeV)>) -> Result<NodeV, ParseErrV> {
    if !has_key(m, "value"@) {
        Err(ParseErrV::MissingField("value"@))
    } else {
        Ok(lookup(m, "value"@))
    }
}

pub open spec fn spec_parse_integer(m: Seq<(NodeV, NodeV)>) -> Result<ValueV, ParseErrV> {
    match spec_get_value(m) {
        Ok(NodeV::Num(num)) => match num.int_val {
            Some(n) => Ok(ValueV::Integer(n)),
            None => Err(ParseErrV::InvalidValue),
        },
        Ok(_) => Err(ParseErrV::InvalidValue),
        Err(e) => Err(e),
    }
}

pub open spec fn spec_parse_float(m: Seq<(NodeV, NodeV)>) -> Result<ValueV, ParseErrV> {
    match spec_get_value(m) {
        Ok(NodeV::Num(num)) => Ok(ValueV::Float(num.float_bits)),
        Ok(_) => Err(ParseErrV::InvalidValue),
        Err(e) => Err(e),
    }
}

pub open spec fn spec_parse_string(m: Seq<(NodeV, NodeV)>) -> Result<ValueV, ParseErrV> {
    match spec_get_value(m) {
        Ok(NodeV::Str(s)) => Ok(ValueV::String(s)),
        Ok(_) => Err(ParseErrV::InvalidValue),
        Err(e) => Err(e),
    }
}

pub open spec fn spec_parse_bool(m: Seq<(NodeV, NodeV)>) -> Result<ValueV, ParseErrV> {
    match spec_get_value(m) {
        Ok(NodeV::Bool(b)) => Ok(ValueV::Bool(b)),
        Ok(_) => Err(ParseErrV::InvalidValue),
        Err(e) => Err(e),
    }
}

/// A `source` entry: its `source` field must be one of the two
/// recognized timestamp names.
pub open spec fn spec_parse_source(m: Seq<(NodeV, NodeV)>) -> Result<ValueV, ParseErrV> {
    if !has_key(m, "source"@) {
        Err(ParseErrV::MissingField("source"@))
    } else {
        match lookup(m, "source"@) {
            NodeV::Str(s) => if s == "last_execute_time"@ {
                Ok(ValueV::Source(Source::LastExecuteDate))
            } else if s == "execute_time"@ {
                Ok(ValueV::Source(Source::ExecuteDate))
            } else {
                Err(ParseErrV::InvalidSourceValue(s))
            },
            _ => Err(ParseErrV::InvalidSource),
        }
    }
}

/// Full-mode parsing of a tagged entry, the model of
/// [`Value::from_entry`].
pub open spec fn spec_parse_entry(m: Seq<(NodeV, NodeV)>) -> Result<ValueV, ParseErrV>
    decreases m, 4int,
{
    match spec_get_type(m) {
        Ok(t) => spec_parse_entry_by_type(t, m),
        Err(e) => Err(e),
    }
}

pub open spec fn spec_parse_entry_by_type(t: Seq<char>, m: Seq<(NodeV, NodeV)>) -> Result<
    ValueV,
    ParseErrV,
>
    decreases m, 3int,
{
    if t == "object"@ {
        spec_get_object(m)
    } else if t == "array"@ {
        spec_get_array(m)
    } else if t == "source"@ {
        spec_parse_source(m)
    } else if t == "integer"@ {
        spec_parse_integer(m)
    } else if t == "float"@ {
        spec_parse_float(m)
    } else if t == "string"@ {
        spec_parse_string(m)
    } else if t == "boolean"@ {
        spec_parse_bool(m)
    } else if t == "null"@ {
        Ok(ValueV::Null)
    } else {
        Err(ParseErrV::InvalidTypeValue(t))
    }
}

/// An `object` entry: its `properties` mapping, parsed field by field.
pub open spec fn spec_get_object(m: Seq<(NodeV, NodeV)>) -> Result<ValueV, ParseErrV>
    decreases m, 2int, 1int,
    via spec_get_object_dec
{
    if !has_key(m, "properties"@) {
        Err(ParseErrV::MissingField("properties"@))
    } else {
        match lookup(m, "properties"@) {
            NodeV::Mapping(props) => match spec_parse_object(props) {
                Ok(fields) => Ok(ValueV::Object(fields)),
                Err(e) => Err(e),
            },
            _ => Err(ParseErrV::InvalidProperties),
        }
    }
}

/// An `array` entry: its `items` sequence, parsed element by element.
pub open spec fn spec_get_array(m: Seq<(NodeV, NodeV)>) -> Result<ValueV, ParseErrV>
    decreases m, 2int, 1int,
    via spec_get_array_dec
{
    if !has_key(m, "items"@) {
        Err(ParseErrV::MissingField("items"@))
    } else {
        match lookup(m, "items"@) {
            NodeV::List(items) => match spec_parse_array(items) {
                Ok(vs) => Ok(ValueV::Array(vs)),
                Err(e) => Err(e),
            },
            _ => Err(ParseErrV::InvalidItems),
        }
    }
}

/// The fields of an `object` entry, in document order: every key must
/// be a string and every value a tagged entry; the first failure
/// anywhere below aborts the whole parse.
pub open spec fn spec_parse_object(props: Seq<(NodeV, NodeV)>) -> Result<
    Seq<(Seq<char>, ValueV)>,
    ParseErrV,
>
    decreases props, 1int,
    via spec_parse_object_dec
{
    if props.len() == 0 {
        Ok(Seq::empty())
    } else {
        match props[0].0 {
            NodeV::Str(k) => match props[0].1 {
                NodeV::Mapping(em) => match spec_parse_entry(em) {
                    Ok(v) => match spec_parse_object(props.subrange(1, props.len() as int)) {
                        Ok(rest) => Ok(seq![(k, v)] + rest),
                        Err(e) => Err(e),
                    },
                    Err(e) => Err(e),
                },
                _ => Err(ParseErrV::InvalidProperties),
            },
            _ => Err(ParseErrV::InvalidProperties),
        }
    }
}

/// The elements of an `array` entry, in order: every element must be a
/// tagged entry; the first failure anywhere below aborts the parse.
pub open spec fn spec_parse_array(items: Seq<NodeV>) -> Result<Seq<ValueV>, ParseErrV>
    decreases items, 1int,
    via spec_parse_array_dec
{
    if items.len() == 0 {
        Ok(Seq::empty())
    } else {
        match items[0] {
            NodeV::Mapping(em) => match spec_parse_entry(em) {
                Ok(v) => match spec_parse_array(items.subrange(1, items.len() as int)) {
                    Ok(rest) => Ok(seq![v] + rest),
                    Err(e) => Err(e),
                },
                Err(e) => Err(e),
            },
            _ => Err(ParseErrV::InvalidItems),
        }
    }
}

#[via_fn]
proof fn spec_get_object_dec(m: Seq<(NodeV, NodeV)>) {
    lemma_lookup(m, "properties"@);
    if has_key(m, "properties"@) {
        let li: int = lookup_index(m, "properties"@);
        assert(decreases_to!(m => m[li]));
        assert(decreases_to!(m[li] => m[li].1));
        if m[li].1 is Mapping {
            assert(decreases_to!(m[li].1 => m[li].1->Mapping_0));
        }
    }
}

#[via_fn]
proof fn spec_get_array_dec(m: Seq<(NodeV, NodeV)>) {
    lemma_lookup(m, "items"@);
    if has_key(m, "items"@) {
        let li: int = lookup_index(m, "items"@);
        assert(decreases_to!(m => m[li]));
        assert(decreases_to!(m[li] => m[li].1));
        if m[li].1 is List {
            assert(decreases_to!(m[li].1 => m[li].1->List_0));
        }
    }
}

#[via_fn]
proof fn spec_parse_object_dec(props: Seq<(NodeV, NodeV)>) {
    if props.len() > 0 {
        assert(decreases_to!(props => props[0]));
        assert(decreases_to!(props[0] => props[0].1));
        if props[0].1 is Mapping {
            assert(decreases_to!(props[0].1 => props[0].1->Mapping_0));
        }
        assert(decreases_to!(props => props.subrange(1, props.len() as int)));
    }
}

#[via_fn]
proof fn spec_parse_array_dec(items: Seq<NodeV>) {
    if items.len() > 0 {
        assert(decreases_to!(items => items[0]));
        if items[0] is Mapping {
            assert(decreases_to!(items[0] => items[0]->Mapping_0));
        }
        assert(decreases_to!(items => items.subrange(1, items.len() as int)));
    }
}

/// Restricted-mode parsing, the model of [`Value::from_basic_entry`]:
/// only scalar tags and `source` are admitted, so a header value can
/// never be structured, boolean or null.
pub open spec fn spec_parse_basic_entry(m: Seq<(NodeV, NodeV)>) -> Result<ValueV, ParseErrV> {
    match spec_get_type(m) {
        Ok(t) => spec_parse_basic_entry_by_type(t, m),
        Err(e) => Err(e),
    }
}

pub open spec fn spec_parse_basic_entry_by_type(t: Seq<char>, m: Seq<(NodeV, NodeV)>) -> Result<
    ValueV,
    ParseErrV,
> {
    if t == "source"@ {
        spec_parse_source(m)
    } else if t == "integer"@ {
        spec_parse_integer(m)
    } else if t == "float"@ {
        spec_parse_float(m)
    } else if t == "string"@ {
        spec_parse_string(m)
    } else {
        Err(ParseErrV::InvalidTypeValue(t))
    }
}

/// The concrete lengths and distinguishing characters of the tag
/// literals, so that the dispatch chain can be stepped through.
proof fn lemma_tag_literals()
    ensures
        "object"@.len() == 6,
        "array"@.len() == 5,
        "source"@.len() == 6,
        "integer"@.len() == 7,
        "float"@.len() == 5,
        "string"@.len() == 6,
        "boolean"@.len() == 7,
        "null"@.len() == 4,
        "object"@[0] == 'o',
        "source"@[0] == 's',
        "string"@[0] == 's',
        "source"@[1] == 'o',
        "string"@[1] == 't',
        "array"@[0] == 'a',
        "float"@[0] == 'f',
        "integer"@[0] == 'i',
        "boolean"@[0] == 'b',
{
    reveal_strlit("object");
    reveal_strlit("array");
    reveal_strlit("source");
    reveal_strlit("integer");
    reveal_strlit("float");
    reveal_strlit("string");
    reveal_strlit("boolean");
    reveal_strlit("null");
}

/// A tagged entry whose `type` is `"null"` parses to `Null` in full
/// mode, whatever other fields stand beside the tag.
pub proof fn lemma_null_entry_parses_to_null(m: Seq<(NodeV, NodeV)>)
    requires
        has_key(m, "type"@),
        lookup(m, "type"@) == NodeV::Str("null"@),
    ensures
        spec_parse_entry(m) == Ok::<ValueV, ParseErrV>(ValueV::Null),
{
    lemma_tag_literals();
    assert(spec_get_type(m) == Ok::<Seq<char>, ParseErrV>("null"@));
    assert(spec_parse_entry(m) == spec_parse_entry_by_type("null"@, m));
}

/// An `integer` entry whose `value` is a number representable as a
/// signed 64-bit integer parses to exactly that integer, in both
/// modes.
pub proof fn lemma_integer_entry_parses_to_integer(m: Seq<(NodeV, NodeV)>, n: i64)
    requires
        has_key(m, "type"@),
        lookup(m, "type"@) == NodeV::Str("integer"@),
        has_key(m, "value"@),
        lookup(m, "value"@) is Num,
        lookup(m, "value"@)->Num_0.int_val == Some(n),
    ensures
        spec_parse_entry(m) == Ok::<ValueV, ParseErrV>(ValueV::Integer(n)),
        spec_parse_basic_entry(m) == Ok::<ValueV, ParseErrV>(ValueV::Integer(n)),
{
    lemma_tag_literals();
    assert(spec_get_type(m) == Ok::<Seq<char>, ParseErrV>("integer"@));
    assert(spec_parse_entry(m) == spec_parse_entry_by_type("integer"@, m));
    assert(spec_parse_basic_entry(m) == spec_parse_basic_entry_by_type("integer"@, m));
    assert(spec_get_value(m) == Ok::<NodeV, ParseErrV>(lookup(m, "value"@)));
    assert(spec_parse_integer(m) == Ok::<ValueV, ParseErrV>(ValueV::Integer(n)));
}

/// An `integer` entry whose `value` is present but not numeric is
/// rejected with `InvalidValue`, in both modes.
pub proof fn lemma_integer_entry_rejects_non_numeric(m: Seq<(NodeV, NodeV)>)
    requires
        has_key(m, "type"@),
        lookup(m, "type"@) == NodeV::Str("integer"@),
        has_key(m, "value"@),
        !(lookup(m, "value"@) is Num),
    ensures
        spec_parse_entry(m) == Err::<ValueV, ParseErrV>(ParseErrV::InvalidValue),
        spec_parse_basic_entry(m) == Err::<ValueV, ParseErrV>(ParseErrV::InvalidValue),
{
    lemma_tag_literals();
    assert(spec_get_type(m) == Ok::<Seq<char>, ParseErrV>("integer"@));
    assert(spec_parse_entry(m) == spec_parse_entry_by_type("integer"@, m));
    assert(spec_parse_basic_entry(m) == spec_parse_basic_entry_by_type("integer"@, m));
    assert(spec_get_value(m) == Ok::<NodeV, ParseErrV>(lookup(m, "value"@)));
    assert(spec_parse_integer(m) == Err::<ValueV, ParseErrV>(ParseErrV::InvalidValue));
}

/// In restricted mode an `object` entry is never valid, whatever its
/// `properties` hold: the result is always
/// `InvalidTypeValue("object")`.
pub proof fn lemma_basic_entry_rejects_object(m: Seq<(NodeV, NodeV)>)
    requires
        has_key(m, "type"@),
        lookup(m, "type"@) == NodeV::Str("object"@),
    ensures
        spec_parse_basic_entry(m) == Err::<ValueV, ParseErrV>(
            ParseErrV::InvalidTypeValue("object"@),
        ),
{
    lemma_tag_literals();
    assert(spec_get_type(m) == Ok::<Seq<char>, ParseErrV>("object"@));
    assert(spec_parse_basic_entry(m) == spec_parse_basic_entry_by_type("object"@, m));
}

/// A type tag outside the eight known names is rejected with
/// `InvalidTypeValue` carrying that tag, in both modes.
pub proof fn lemma_unknown_type_rejected(m: Seq<(NodeV, NodeV)>, t: Seq<char>)
    requires
        has_key(m, "type"@),
        lookup(m, "type"@) == NodeV::Str(t),
        t != "object"@,
        t != "array"@,
        t != "source"@,
        t != "integer"@,
        t != "float"@,
        t != "string"@,
        t != "boolean"@,
        t != "null"@,
    ensures
        spec_parse_entry(m) == Err::<ValueV, ParseErrV>(ParseErrV::InvalidTypeValue(t)),
        spec_parse_basic_entry(m) == Err::<ValueV, ParseErrV>(ParseErrV::InvalidTypeValue(t)),
{
    assert(spec_get_type(m) == Ok::<Seq<char>, ParseErrV>(t));
    assert(spec_parse_entry(m) == spec_parse_entry_by_type(t, m));
    assert(spec_parse_basic_entry(m) == spec_parse_basic_entry_by_type(t, m));
}

/// A `source` entry whose `source` string is neither of the two
/// recognized names is rejected with `InvalidSourceValue` carrying
/// that string, in both modes.
pub proof fn lemma_unknown_source_rejected(m: Seq<(NodeV, NodeV)>, s: Seq<char>)
    requires
        has_key(m, "type"@),
        lookup(m, "type"@) == NodeV::Str("source"@),
        has_key(m, "source"@),
        lookup(m, "source"@) == NodeV::Str(s),
        s != "execute_time"@,
        s != "last_execute_time"@,
    ensures
        spec_parse_entry(m) == Err::<ValueV, ParseErrV>(ParseErrV::InvalidSourceValue(s)),
        spec_parse_basic_entry(m) == Err::<ValueV, ParseErrV>(ParseErrV::InvalidSourceValue(s)),
{
    lemma_tag_literals();
    assert(spec_get_type(m) == Ok::<Seq<char>, ParseErrV>("source"@));
    assert(spec_parse_entry(m) == spec_parse_entry_by_type("source"@, m));
    assert(spec_parse_basic_entry(m) == spec_parse_basic_entry_by_type("source"@, m));
    assert(spec_parse_source(m) == Err::<ValueV, ParseErrV>(ParseErrV::InvalidSourceValue(s)));
}

/// The value of the first pair of `entry` whose key is the string
/// `key`, when there is one.
#[verifier::loop_isolation(false)]
fn map_get<'a>(entry: &'a Vec<(Node, Node)>, key: &str) -> (r: Option<&'a Node>)
    ensures
        match r {
            Some(n) => has_key(pairs_view(entry@), key@) && *n == entry@[lookup_index(
                pairs_view(entry@),
                key@,
            )].1 && n@ == lookup(pairs_view(entry@), key@),
            None => !has_key(pairs_view(entry@), key@),
        },
{
    let ghost pv = pairs_view(entry@);
    proof {
        lemma_pairs_view(entry@);
        lemma_lookup(pv, key@);
    }
    let mut i: usize = 0;
    while i < entry.len()
        invariant
            i <= entry@.len(),
            forall|j: int| 0 <= j < i ==> pv[j].0 != NodeV::Str(key@),
        decreases entry@.len() - i,
    {
        let found = match &entry[i].0 {
            Node::Str(s) => str_eq(s.as_str(), key),
            _ => false,
        };
        if found {
            proof {
                assert(pv[i as int].0 == NodeV::Str(key@));
            }
            return Some(&entry[i].1);
        }
        i = i + 1;
    }
    None
}

impl Value {
    /// Parses a tagged entry in full mode.
    pub fn from_entry(entry: &Vec<(Node, Node)>) -> (r: Result<Value, ParseEntryError>)
        ensures
            res_view(r) == spec_parse_entry(pairs_view(entry@)),
        decreases pairs_view(entry@), 4int,
    {
        let entry_type = match Self::get_type(entry) {
            Ok(t) => t,
            Err(e) => {
                return Err(e);
            },
        };
        Self::parse_entry_by_type(entry_type.as_str(), entry)
    }

    /// Parses a tagged entry in restricted mode: scalar tags and
    /// `source` only.
    pub fn from_basic_entry(entry: &Vec<(Node, Node)>) -> (r: Result<Value, ParseEntryError>)
        ensures
            res_view(r) == spec_parse_basic_entry(pairs_view(entry@)),
    {
        let entry_type = match Self::get_type(entry) {
            Ok(t) => t,
            Err(e) => {
                return Err(e);
            },
        };
        Self::parse_basic_entry_by_type(entry_type.as_str(), entry)
    }

    fn get_type<'a>(entry: &'a Vec<(Node, Node)>) -> (r: Result<&'a String, ParseEntryError>)
        ensures
            match r {
                Ok(t) => spec_get_type(pairs_view(entry@)) == Ok::<Seq<char>, ParseErrV>(t@),
                Err(e) => spec_get_type(pairs_view(entry@)) == Err::<Seq<char>, ParseErrV>(e@),
            },
    {
        match map_get(entry, "type") {
            Some(n) => match n {
                Node::Str(s) => Ok(s),
                _ => Err(ParseEntryError::InvalidType),
            },
            None => Err(ParseEntryError::MissingField("type".to_owned())),
        }
    }

    fn get_value<'a>(entry: &'a Vec<(Node, Node)>) -> (r: Result<&'a Node, ParseEntryError>)
        ensures
            match r {
                Ok(n) => spec_get_value(pairs_view(entry@)) == Ok::<NodeV, ParseErrV>(n@),
                Err(e) => spec_get_value(pairs_view(entry@)) == Err::<NodeV, ParseErrV>(e@),
            },
    {
        match map_get(entry, "value") {
            Some(n) => Ok(n),
            None => Err(ParseEntryError::MissingField("value".to_owned())),
        }
    }

    fn get_integer(entry: &Vec<(Node, Node)>) -> (r: Result<Value, ParseEntryError>)
        ensures
            res_view(r) == spec_parse_integer(pairs_view(entry@)),
    {
        match Self::get_value(entry) {
            Ok(n) => match n {
                Node::Num(num) => match num.int_val {
                    Some(v) => Ok(Value::Integer(v)),
                    None => Err(ParseEntryError::InvalidValue),
                },
                _ => Err(ParseEntryError::InvalidValue),
            },
            Err(e) => Err(e),
        }
    }

    fn get_float(entry: &Vec<(Node, Node)>) -> (r: Result<Value, ParseEntryError>)
        ensures
            res_view(r) == spec_parse_float(pairs_view(entry@)),
    {
        match Self::get_value(entry) {
            Ok(n) => match n {
                Node::Num(num) => Ok(Value::Float(num.float_bits)),
                _ => Err(ParseEntryError::InvalidValue),
            },
            Err(e) => Err(e),
        }
    }

    fn get_string(entry: &Vec<(Node, Node)>) -> (r: Result<Value, ParseEntryError>)
        ensures
            res_view(r) == spec_parse_string(pairs_view(entry@)),
    {
        match Self::get_value(entry) {
            Ok(n) => match n {
                Node::Str(s) => Ok(Value::String(s.clone())),
                _ => Err(ParseEntryError::InvalidValue),
            },
            Err(e) => Err(e),
        }
    }

    fn get_bool(entry: &Vec<(Node, Node)>) -> (r: Result<Value, ParseEntryError>)
        ensures
            res_view(r) == spec_parse_bool(pairs_view(entry@)),
    {
        match Self::get_value(entry) {
            Ok(n) => match n {
                Node::Bool(b) => Ok(Value::Bool(*b)),
                _ => Err(ParseEntryError::InvalidValue),
            },
            Err(e) => Err(e),
        }
    }

    fn get_source(entry: &Vec<(Node, Node)>) -> (r: Result<Value, ParseEntryError>)
        ensures
            res_view(r) == spec_parse_source(pairs_view(entry@)),
    {
        match map_get(entry, "source") {
            Some(n) => match n {
                Node::Str(s) => if str_eq(s.as_str(), "last_execute_time") {
                    Ok(Value::Source(Source::LastExecuteDate))
                } else if str_eq(s.as_str(), "execute_time") {
                    Ok(Value::Source(Source::ExecuteDate))
                } else {
                    Err(ParseEntryError::InvalidSourceValue(s.clone()))
                },
                _ => Err(ParseEntryError::InvalidSource),
            },
            None => Err(ParseEntryError::MissingField("source".to_owned())),
        }
    }

    fn get_properties<'a>(entry: &'a Vec<(Node, Node)>) -> (r: Result<
        &'a Vec<(Node, Node)>,
        ParseEntryError,
    >)
        ensures
            match r {
                Ok(props) => {
                    &&& has_key(pairs_view(entry@), "properties"@)
                    &&& lookup(pairs_view(entry@), "properties"@) == NodeV::Mapping(
                        pairs_view(props@),
                    )
                },
                Err(e) => {
                    ||| !has_key(pairs_view(entry@), "properties"@) && e@
                        == ParseErrV::MissingField("properties"@)
                    ||| has_key(pairs_view(entry@), "properties"@) && !(lookup(
                        pairs_view(entry@),
                        "properties"@,
                    ) is Mapping) && e@ == ParseErrV::InvalidProperties
                },
            },
    {
        match map_get(entry, "properties") {
            Some(n) => match n {
                Node::Mapping(props) => Ok(props),
                _ => Err(ParseEntryError::InvalidProperties),
            },
            None => Err(ParseEntryError::MissingField("properties".to_owned())),
        }
    }

    fn get_items<'a>(entry: &'a Vec<(Node, Node)>) -> (r: Result<&'a Vec<Node>, ParseEntryError>)
        ensures
            match r {
                Ok(items) => {
                    &&& has_key(pairs_view(entry@), "items"@)
                    &&& lookup(pairs_view(entry@), "items"@) == NodeV::List(nodes_view(items@))
                },
                Err(e) => {
                    ||| !has_key(pairs_view(entry@), "items"@) && e@ == ParseErrV::MissingField(
                        "items"@,
                    )
                    ||| has_key(pairs_view(entry@), "items"@) && !(lookup(
                        pairs_view(entry@),
                        "items"@,
                    ) is List) && e@ == ParseErrV::InvalidItems
                },
            },
    {
        match map_get(entry, "items") {
            Some(n) => match n {
                Node::List(items) => Ok(items),
                _ => Err(ParseEntryError::InvalidItems),
            },
            None => Err(ParseEntryError::MissingField("items".to_owned())),
        }
    }

    #[verifier::loop_isolation(false)]
    fn get_object(entry: &Vec<(Node, Node)>) -> (r: Result<Value, ParseEntryError>)
        ensures
            res_view(r) == spec_get_object(pairs_view(entry@)),
        decreases pairs_view(entry@), 2int,
    {
        let ghost pv = pairs_view(entry@);
        let props = match Self::get_properties(entry) {
            Ok(p) => p,
            Err(e) => {
                return Err(e);
            },
        };
        let ghost propsv = pairs_view(props@);
        proof {
            lemma_pairs_view(props@);
            lemma_lookup(pv, "properties"@);
        }
        let mut fields: Vec<(String, Value)> = Vec::new();
        let mut j: usize = 0;
        proof {
            assert(propsv.subrange(0, propsv.len() as int) =~= propsv);
            assert(fields_view(fields@) =~= Seq::<(Seq<char>, ValueV)>::empty());
            if spec_parse_object(propsv) is Ok {
                assert(fields_view(fields@) + spec_parse_object(propsv)->Ok_0 =~= spec_parse_object(
                    propsv,
                )->Ok_0);
            }
        }
        while j < props.len()
            invariant
                j <= props@.len(),
                spec_parse_object(propsv) == (match spec_parse_object(
                    propsv.subrange(j as int, propsv.len() as int),
                ) {
                    Ok(rest) => Ok::<Seq<(Seq<char>, ValueV)>, ParseErrV>(
                        fields_view(fields@) + rest,
                    ),
                    Err(e) => Err(e),
                }),
            decreases props@.len() - j,
        {
            proof {
                assert(propsv.subrange(j as int, propsv.len() as int)[0] == propsv[j as int]);
                assert(propsv.subrange(j as int, propsv.len() as int).subrange(
                    1,
                    propsv.len() as int - j,
                ) =~= propsv.subrange(j as int + 1, propsv.len() as int));
            }
            let k = match &props[j].0 {
                Node::Str(k) => k,
                _ => {
                    return Err(ParseEntryError::InvalidProperties);
                },
            };
            let em = match &props[j].1 {
                Node::Mapping(em) => em,
                _ => {
                    return Err(ParseEntryError::InvalidProperties);
                },
            };
            proof {
                let li: int = lookup_index(pv, "properties"@);
                assert(decreases_to!(pv => pv[li]));
                assert(decreases_to!(pv[li] => pv[li].1));
                assert(decreases_to!(pv[li].1 => pv[li].1->Mapping_0));
                assert(pv[li].1->Mapping_0 == propsv);
                assert(decreases_to!(propsv => propsv[j as int]));
                assert(decreases_to!(propsv[j as int] => propsv[j as int].1));
                assert(decreases_to!(propsv[j as int].1 => propsv[j as int].1->Mapping_0));
                assert(propsv[j as int].1->Mapping_0 == pairs_view(em@));
            }
            let v = match Value::from_entry(em) {
                Ok(v) => v,
                Err(e) => {
                    return Err(e);
                },
            };
            let ghost pre = fields@;
            fields.push((k.clone(), v));
            proof {
                lemma_fields_view(pre);
                lemma_fields_view(fields@);
                assert(fields_view(fields@) =~= fields_view(pre) + seq![(k@, v@)]);
                assert(fields_view(pre) + (seq![(k@, v@)] + spec_parse_object(
                    propsv.subrange(j as int + 1, propsv.len() as int),
                )->Ok_0) =~= fields_view(fields@) + spec_parse_object(
                    propsv.subrange(j as int + 1, propsv.len() as int),
                )->Ok_0);
            }
            j = j + 1;
        }
        proof {
            assert(propsv.subrange(j as int, propsv.len() as int) =~= Seq::<(
                NodeV,
                NodeV,
            )>::empty());
            assert(fields_view(fields@) + Seq::<(Seq<char>, ValueV)>::empty() =~= fields_view(
                fields@,
            ));
        }
        Ok(Value::Object(fields))
    }

    #[verifier::loop_isolation(false)]
    fn get_array(entry: &Vec<(Node, Node)>) -> (r: Result<Value, ParseEntryError>)
        ensures
            res_view(r) == spec_get_array(pairs_view(entry@)),
        decreases pairs_view(entry@), 2int,
    {
        let ghost pv = pairs_view(entry@);
        let items = match Self::get_items(entry) {
            Ok(it) => it,
            Err(e) => {
                return Err(e);
            },
        };
        let ghost itemsv = nodes_view(items@);
        proof {
            lemma_nodes_view(items@);
            lemma_lookup(pv, "items"@);
        }
        let mut out: Vec<Value> = Vec::new();
        let mut j: usize = 0;
        proof {
            assert(itemsv.subrange(0, itemsv.len() as int) =~= itemsv);
            assert(values_view(out@) =~= Seq::<ValueV>::empty());
            if spec_parse_array(itemsv) is Ok {
                assert(values_view(out@) + spec_parse_array(itemsv)->Ok_0 =~= spec_parse_array(
                    itemsv,
                )->Ok_0);
            }
        }
        while j < items.len()
            invariant
                j <= items@.len(),
                spec_parse_array(itemsv) == (match spec_parse_array(
                    itemsv.subrange(j as int, itemsv.len() as int),
                ) {
                    Ok(rest) => Ok::<Seq<ValueV>, ParseErrV>(values_view(out@) + rest),
                    Err(e) => Err(e),
                }),
            decreases items@.len() - j,
        {
            proof {
                assert(itemsv.subrange(j as int, itemsv.len() as int)[0] == itemsv[j as int]);
                assert(itemsv.subrange(j as int, itemsv.len() as int).subrange(
                    1,
                    itemsv.len() as int - j,
                ) =~= itemsv.subrange(j as int + 1, itemsv.len() as int));
            }
            let em = match &items[j] {
                Node::Mapping(em) => em,
                _ => {
                    return Err(ParseEntryError::InvalidItems);
                },
            };
            proof {
                let li: int = lookup_index(pv, "items"@);
                assert(decreases_to!(pv => pv[li]));
                assert(decreases_to!(pv[li] => pv[li].1));
                assert(decreases_to!(pv[li].1 => pv[li].1->List_0));
                assert(pv[li].1->List_0 == itemsv);
                assert(decreases_to!(itemsv => itemsv[j as int]));
                assert(decreases_to!(itemsv[j as int] => itemsv[j as int]->Mapping_0));
                assert(itemsv[j as int]->Mapping_0 == pairs_view(em@));
            }
            let v = match Value::from_entry(em) {
                Ok(v) => v,
                Err(e) => {
                    return Err(e);
                },
            };
            let ghost pre = out@;
            out.push(v);
            proof {
                lemma_values_view(pre);
                lemma_values_view(out@);
                assert(values_view(out@) =~= values_view(pre) + seq![v@]);
                assert(values_view(pre) + (seq![v@] + spec_parse_array(
                    itemsv.subrange(j as int + 1, itemsv.len() as int),
                )->Ok_0) =~= values_view(out@) + spec_parse_array(
                    itemsv.subrange(j as int + 1, itemsv.len() as int),
                )->Ok_0);
            }
            j = j + 1;
        }
        proof {
            assert(itemsv.subrange(j as int, itemsv.len() as int) =~= Seq::<NodeV>::empty());
            assert(values_view(out@) + Seq::<ValueV>::empty() =~= values_view(out@));
        }
        Ok(Value::Array(out))
    }

    fn parse_entry_by_type(entry_type: &str, entry: &Vec<(Node, Node)>) -> (r: Result<
        Value,
        ParseEntryError,
    >)
        ensures
            res_view(r) == spec_parse_entry_by_type(entry_type@, pairs_view(entry@)),
        decreases pairs_view(entry@), 3int,
    {
        if str_eq(entry_type, "object") {
            Self::get_object(entry)
        } else if str_eq(entry_type, "array") {
            Self::get_array(entry)
        } else if str_eq(entry_type, "source") {
            Self::get_source(entry)
        } else if str_eq(entry_type, "integer") {
            Self::get_integer(entry)
        } else if str_eq(entry_type, "float") {
            Self::get_float(entry)
        } else if str_eq(entry_type, "string") {
            Self::get_string(entry)
        } else if str_eq(entry_type, "boolean") {
            Self::get_bool(entry)
        } else if str_eq(entry_type, "null") {
            Ok(Value::Null)
        } else {
            Err(ParseEntryError::InvalidTypeValue(entry_type.to_owned()))
        }
    }

    fn parse_basic_entry_by_type(entry_type: &str, entry: &Vec<(Node, Node)>) -> (r: Result<
        Value,
        ParseEntryError,
    >)
        ensures
            res_view(r) == spec_parse_basic_entry_by_type(entry_type@, pairs_view(entry@)),
    {
        if str_eq(entry_type, "source") {
            Self::get_source(entry)
        } else if str_eq(entry_type, "integer") {
            Self::get_integer(entry)
        } else if str_eq(entry_type, "float") {
            Self::get_float(entry)
        } else if str_eq(entry_type, "string") {
            Self::get_string(entry)
        } else {
            Err(ParseEntryError::InvalidTypeValue(entry_type.to_owned()))
        }
    }
}

} // verus!
