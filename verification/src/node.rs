//! The generic document tree that a configuration file deserializes
//! into before any typed interpretation happens.
//!
//! A [`Node`] carries exactly what the two resolution stages read:
//! scalars as plain values, sequences and mappings as vectors, and an
//! opaque tagged leaf that both stages pass through untouched. The
//! caller that deserializes the textual document builds the tree and
//! converts the result back.

use vstd::prelude::*;

verus! {

/// A numeric scalar, carried as the two projections the typed parser
/// reads from it: the value as a signed 64-bit integer when the number
/// is integral (`None` for a floating-point number), and the IEEE-754
/// bit pattern of the value converted to a 64-bit float.
#[derive(Clone, Copy, Debug, PartialEq, Eq, Structural)]
pub struct Num {
    pub int_val: Option<i64>,
    pub float_bits: u64,
}

/// One node of the raw document tree.
///
/// Mapping keys are arbitrary nodes, as the host document format
/// allows; the resolution stages only ever compare them against string
/// keys. A `Tagged` node is an explicitly tagged leaf: it is never
/// inspected, only carried through.
#[derive(Debug, PartialEq)]
pub enum Node {
    Null,
    Bool(bool),
    Num(Num),
    Str(String),
    List(Vec<Node>),
    Mapping(Vec<(Node, Node)>),
    Tagged(String, Box<Node>),
}

/// The mathematical model of a [`Node`]: the same tree over `Seq`.
pub enum NodeV {
    Null,
    Bool(bool),
    Num(Num),
    Str(Seq<char>),
    List(Seq<NodeV>),
    Mapping(Seq<(NodeV, NodeV)>),
    Tagged(Seq<char>, Box<NodeV>),
}

pub open spec fn node_view(n: Node) -> NodeV
    decreases n,
{
    match n {
        Node::Null => NodeV::Null,
        Node::Bool(b) => NodeV::Bool(b),
        Node::Num(m) => NodeV::Num(m),
        Node::Str(s) => NodeV::Str(s@),
        Node::List(v) => NodeV::List(nodes_view(v@)),
        Node::Mapping(v) => NodeV::Mapping(pairs_view(v@)),
        Node::Tagged(t, b) => NodeV::Tagged(t@, Box::new(node_view(*b))),
    }
}

pub open spec fn nodes_view(s: Seq<Node>) -> Seq<NodeV>
    decreases s,
{
    if s.len() == 0 {
        Seq::empty()
    } else {
        seq![node_view(s[0])] + nodes_view(s.subrange(1, s.len() as int))
    }
}

pub open spec fn pairs_view(s: Seq<(Node, Node)>) -> Seq<(NodeV, NodeV)>
    decreases s,
{
    if s.len() == 0 {
        Seq::empty()
    } else {
        seq![(node_view(s[0].0), node_view(s[0].1))] + pairs_view(
            s.subrange(1, s.len() as int),
        )
    }
}

impl View for Node {
    type V = NodeV;

    open spec fn view(&self) -> NodeV {
        node_view(*self)
    }
}

impl Node {
    /// A deep copy; the copy has the same model as the original.
    #[verifier::loop_isolation(false)]
    pub fn deep_clone(&self) -> (r: Node)
        ensures
            r@ == self@,
        decreases self,
    {
        match self {
            Node::Null => Node::Null,
            Node::Bool(b) => Node::Bool(*b),
            Node::Num(m) => Node::Num(*m),
            Node::Str(s) => Node::Str(s.clone()),
            Node::List(v) => {
                let mut out: Vec<Node> = Vec::new();
                let mut i: usize = 0;
                while i < v.len()
                    invariant
                        i <= v.len(),
                        out@.len() == i,
                        forall|j: int| 0 <= j < i ==> out@[j]@ == v@[j]@,
                    decreases v.len() - i,
                {
                    proof {
                        assert(decreases_to!(*self => self->List_0));
                        assert(decreases_to!(self->List_0 => self->List_0@));
                        assert(decreases_to!(self->List_0@ => self->List_0@[i as int]));
                        assert(self->List_0@[i as int] == v@[i as int]);
                    }
                    out.push(v[i].deep_clone());
                    i = i + 1;
                }
                proof {
                    lemma_nodes_view(out@);
                    lemma_nodes_view(v@);
                    assert(nodes_view(out@) =~= nodes_view(v@));
                }
                Node::List(out)
            },
            Node::Mapping(v) => {
                let mut out: Vec<(Node, Node)> = Vec::new();
                let mut i: usize = 0;
                while i < v.len()
                    invariant
                        i <= v.len(),
                        out@.len() == i,
                        forall|j: int| 0 <= j < i ==> out@[j].0@ == v@[j].0@ && out@[j].1@
                            == v@[j].1@,
                    decreases v.len() - i,
                {
                    proof {
                        assert(decreases_to!(*self => self->Mapping_0));
                        assert(decreases_to!(self->Mapping_0 => self->Mapping_0@));
                        assert(decreases_to!(self->Mapping_0@ => self->Mapping_0@[i as int]));
                        assert(decreases_to!(self->Mapping_0@[i as int] => self->Mapping_0@[i as int].0));
                        assert(decreases_to!(self->Mapping_0@[i as int] => self->Mapping_0@[i as int].1));
                        assert(self->Mapping_0@[i as int].0 == v@[i as int].0);
                        assert(self->Mapping_0@[i as int].1 == v@[i as int].1);
                    }
                    let k = v[i].0.deep_clone();
                    let w = v[i].1.deep_clone();
                    out.push((k, w));
                    i = i + 1;
                }
                proof {
                    lemma_pairs_view(out@);
                    lemma_pairs_view(v@);
                    assert(pairs_view(out@) =~= pairs_view(v@));
                }
                Node::Mapping(out)
            },
            Node::Tagged(t, b) => Node::Tagged(t.clone(), Box::new(b.deep_clone())),
        }
    }
}

/// Character-wise string equality, so that comparisons against the
/// fixed key and tag names can be reasoned about over the views.
pub fn str_eq(a: &str, b: &str) -> (r: bool)
    ensures
        r == (a@ == b@),
{
    let na = a.unicode_len();
    let nb = b.unicode_len();
    if na != nb {
        return false;
    }
    let mut i: usize = 0;
    while i < na
        invariant
            i <= na,
            na == a@.len(),
            na == b@.len(),
            forall|j: int| 0 <= j < i ==> a@[j] == b@[j],
        decreases na - i,
    {
        if a.get_char(i) != b.get_char(i) {
            return false;
        }
        i = i + 1;
    }
    proof {
        assert(a@ =~= b@);
    }
    true
}

pub proof fn lemma_nodes_view(s: Seq<Node>)
    ensures
        nodes_view(s).len() == s.len(),
        forall|i: int| 0 <= i < s.len() ==> nodes_view(s)[i] == node_view(s[i]),
    decreases s,
{
    if s.len() > 0 {
        lemma_nodes_view(s.subrange(1, s.len() as int));
    }
}

pub proof fn lemma_pairs_view(s: Seq<(Node, Node)>)
    ensures
        pairs_view(s).len() == s.len(),
        forall|i: int| 0 <= i < s.len() ==> pairs_view(s)[i] == (
            node_view(s[i].0),
            node_view(s[i].1),
        ),
    decreases s,
{
    if s.len() > 0 {
        lemma_pairs_view(s.subrange(1, s.len() as int));
    }
}

} // verus!
