//! The typed pieces of the outer task schema that consume parsed
//! values: the request method, the header map and the request body.
//!
//! The document-format plumbing around them (deserializer visitors,
//! URL handling) lives with the caller; this module holds the rules
//! those visitors apply — which method names are accepted, and how a
//! header or body sub-tree becomes a [`Value`].

use vstd::prelude::*;

use crate::node::{pairs_view, str_eq, Node, NodeV};
use crate::value::{
    spec_parse_basic_entry, spec_parse_entry, ParseEntryError, ParseErrV, Value, ValueV,
};

verus! {

/// An HTTP request method. Only the five upper-case names below are
/// accepted in a document; the match is case-sensitive and exact.
#[derive(Clone, Copy, Debug, PartialEq, Eq, Structural)]
pub enum Method {
    Get,
    Post,
    Delete,
    Put,
    Patch,
}

/// Which method a document string names, if any: the model of
/// [`Method::from_name`].
pub open spec fn spec_method_from_name(s: Seq<char>) -> Option<Method> {
    if s == "GET"@ {
        Some(Method::Get)
    } else if s == "POST"@ {
        Some(Method::Post)
    } else if s == "PUT"@ {
        Some(Method::Put)
    } else if s == "DELETE"@ {
        Some(Method::Delete)
    } else if s == "PATCH"@ {
        Some(Method::Patch)
    } else {
        None
    }
}

impl Method {
    /// The method a document string names; `None` for anything but the
    /// five exact upper-case names.
    pub fn from_name(s: &str) -> (r: Option<Method>)
        ensures
            r == spec_method_from_name(s@),
    {
        if str_eq(s, "GET") {
            Some(Method::Get)
        } else if str_eq(s, "POST") {
            Some(Method::Post)
        } else if str_eq(s, "PUT") {
            Some(Method::Put)
        } else if str_eq(s, "DELETE") {
            Some(Method::Delete)
        } else if str_eq(s, "PATCH") {
            Some(Method::Patch)
        } else {
            None
        }
    }
}

/// A task's header map: header names with their parsed (restricted
/// mode) values, in document order.
#[derive(Debug, PartialEq)]
pub struct Headers(pub Vec<(String, Value)>);

pub open spec fn headers_view(s: Seq<(String, Value)>) -> Seq<(Seq<char>, ValueV)>
    decreases s,
{
    if s.len() == 0 {
        Seq::empty()
    } else {
        seq![(s[0].0@, s[0].1@)] + headers_view(s.subrange(1, s.len() as int))
    }
}

pub proof fn lemma_headers_view(s: Seq<(String, Value)>)
    ensures
        headers_view(s).len() == s.len(),
        forall|i: int| 0 <= i < s.len() ==> headers_view(s)[i] == (s[i].0@, s[i].1@),
    decreases s,
{
    if s.len() > 0 {
        lemma_headers_view(s.subrange(1, s.len() as int));
    }
}

impl View for Headers {
    type V = Seq<(Seq<char>, ValueV)>;

    open spec fn view(&self) -> Seq<(Seq<char>, ValueV)> {
        headers_view(self.0@)
    }
}

impl Default for Headers {
    /// An empty header map.
    fn default() -> (r: Headers)
        ensures
            r@ == Seq::<(Seq<char>, ValueV)>::empty(),
    {
        Headers(Vec::new())
    }
}

/// The model of a raw header section: each name with its tagged entry.
pub open spec fn entries_view(s: Seq<(String, Vec<(Node, Node)>)>) -> Seq<
    (Seq<char>, Seq<(NodeV, NodeV)>),
>
    decreases s,
{
    if s.len() == 0 {
        Seq::empty()
    } else {
        seq![(s[0].0@, pairs_view(s[0].1@))] + entries_view(s.subrange(1, s.len() as int))
    }
}

pub proof fn lemma_entries_view(s: Seq<(String, Vec<(Node, Node)>)>)
    ensures
        entries_view(s).len() == s.len(),
        forall|i: int| 0 <= i < s.len() ==> entries_view(s)[i] == (s[i].0@, pairs_view(s[i].1@)),
    decreases s,
{
    if s.len() > 0 {
        lemma_entries_view(s.subrange(1, s.len() as int));
    }
}

/// A raw header section, parsed: every entry in restricted mode, in
/// order; the first failure aborts the whole section.
pub open spec fn spec_parse_headers(entries: Seq<(Seq<char>, Seq<(NodeV, NodeV)>)>) -> Result<
    Seq<(Seq<char>, ValueV)>,
    ParseErrV,
>
    decreases entries,
{
    if entries.len() == 0 {
        Ok(Seq::empty())
    } else {
        match spec_parse_basic_entry(entries[0].1) {
            Ok(v) => match spec_parse_headers(entries.subrange(1, entries.len() as int)) {
                Ok(rest) => Ok(seq![(entries[0].0, v)] + rest),
                Err(e) => Err(e),
            },
            Err(e) => Err(e),
        }
    }
}

impl Headers {
    /// Parses a raw header section: each named tagged entry in
    /// restricted mode.
    #[verifier::loop_isolation(false)]
    pub fn from_entries(entries: &Vec<(String, Vec<(Node, Node)>)>) -> (r: Result<
        Headers,
        ParseEntryError,
    >)
        ensures
            match r {
                Ok(h) => spec_parse_headers(entries_view(entries@)) == Ok::<
                    Seq<(Seq<char>, ValueV)>,
                    ParseErrV,
                >(h@),
                Err(e) => spec_parse_headers(entries_view(entries@)) == Err::<
                    Seq<(Seq<char>, ValueV)>,
                    ParseErrV,
                >(e@),
            },
    {
        let ghost ev = entries_view(entries@);
        proof {
            lemma_entries_view(entries@);
        }
        let mut out: Vec<(String, Value)> = Vec::new();
        let mut j: usize = 0;
        proof {
            assert(ev.subrange(0, ev.len() as int) =~= ev);
            assert(headers_view(out@) =~= Seq::<(Seq<char>, ValueV)>::empty());
            if spec_parse_headers(ev) is Ok {
                assert(headers_view(out@) + spec_parse_headers(ev)->Ok_0 =~= spec_parse_headers(
                    ev,
                )->Ok_0);
            }
        }
        while j < entries.len()
            invariant
                j <= entries@.len(),
                spec_parse_headers(ev) == (match spec_parse_headers(
                    ev.subrange(j as int, ev.len() as int),
                ) {
                    Ok(rest) => Ok::<Seq<(Seq<char>, ValueV)>, ParseErrV>(
                        headers_view(out@) + rest,
                    ),
                    Err(e) => Err(e),
                }),
            decreases entries@.len() - j,
        {
            proof {
                assert(ev.subrange(j as int, ev.len() as int)[0] == ev[j as int]);
                assert(ev.subrange(j as int, ev.len() as int).subrange(1, ev.len() as int - j)
                    =~= ev.subrange(j as int + 1, ev.len() as int));
            }
            let v = match Value::from_basic_entry(&entries[j].1) {
                Ok(v) => v,
                Err(e) => {
                    return Err(e);
                },
            };
            let ghost pre = out@;
            out.push((entries[j].0.clone(), v));
            proof {
                lemma_headers_view(pre);
                lemma_headers_view(out@);
                assert(headers_view(out@) =~= headers_view(pre) + seq![(ev[j as int].0, v@)]);
                assert(headers_view(pre) + (seq![(ev[j as int].0, v@)] + spec_parse_headers(
                    ev.subrange(j as int + 1, ev.len() as int),
                )->Ok_0) =~= headers_view(out@) + spec_parse_headers(
                    ev.subrange(j as int + 1, ev.len() as int),
                )->Ok_0);
            }
            j = j + 1;
        }
        proof {
            assert(ev.subrange(j as int, ev.len() as int) =~= Seq::<
                (Seq<char>, Seq<(NodeV, NodeV)>),
            >::empty());
            assert(headers_view(out@) + Seq::<(Seq<char>, ValueV)>::empty() =~= headers_view(
                out@,
            ));
        }
        Ok(Headers(out))
    }
}

/// A task's request body. The only content type is a JSON body built
/// from a full-mode tagged entry.
#[derive(Debug, PartialEq)]
pub enum Body {
    Json(Value),
}

impl Body {
    /// Parses the tagged entry under a body's `json` key, in full
    /// mode.
    pub fn json_from_entry(entry: &Vec<(Node, Node)>) -> (r: Result<Body, ParseEntryError>)
        ensures
            match r {
                Ok(b) => b is Json && spec_parse_entry(pairs_view(entry@)) == Ok::<
                    ValueV,
                    ParseErrV,
                >(b->Json_0@),
                Err(e) => spec_parse_entry(pairs_view(entry@)) == Err::<ValueV, ParseErrV>(e@),
            },
    {
        match Value::from_entry(entry) {
            Ok(v) => Ok(Body::Json(v)),
            Err(e) => Err(e),
        }
    }
}

} // verus!
