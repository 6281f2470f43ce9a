//! The environment substitution pass.
//!
//! Before a document is interpreted, every string leaf of the raw tree
//! is rewritten: each `env!(NAME)` placeholder is replaced by the value
//! of `NAME` in a snapshot of the environment, and the rewritten string
//! is rescanned from the start, so a substituted value may itself
//! introduce further placeholders. One malformed or unresolvable
//! placeholder aborts the whole document: resolution is all-or-nothing.
//!
//! The source of placeholders is unbounded in principle (a variable's
//! value may contain the marker again), so a single string is given at
//! most [`SUBSTITUTION_LIMIT`] substitution rounds; a string still
//! carrying a marker after that fails with
//! [`Error::SubstitutionLimitReached`].

use vstd::prelude::*;

use crate::node::{
    lemma_nodes_view, lemma_pairs_view, nodes_view, pairs_view, str_eq, Node, NodeV,
};

verus! {

/// How resolution can fail.
#[derive(Debug, PartialEq, Eq)]
pub enum Error {
    /// A placeholder named a variable absent from the snapshot.
    EnvVarNotFound { env_name: String },
    /// A `env!(` marker with no closing parenthesis before the end of
    /// the string.
    InvalidEnvSyntax,
    /// A single string still carried a marker after
    /// [`SUBSTITUTION_LIMIT`] substitution rounds.
    SubstitutionLimitReached,
}

/// The mathematical model of an [`Error`].
pub enum EnvErrV {
    EnvVarNotFound(Seq<char>),
    InvalidEnvSyntax,
    SubstitutionLimitReached,
}

impl View for Error {
    type V = EnvErrV;

    open spec fn view(&self) -> EnvErrV {
        match *self {
            Error::EnvVarNotFound { env_name } => EnvErrV::EnvVarNotFound(env_name@),
            Error::InvalidEnvSyntax => EnvErrV::InvalidEnvSyntax,
            Error::SubstitutionLimitReached => EnvErrV::SubstitutionLimitReached,
        }
    }
}

/// The most substitution rounds a single string is given.
pub const SUBSTITUTION_LIMIT: usize = 1000;

/// Whether the five marker characters `env!(` stand at position `i`.
pub open spec fn is_marker_at(s: Seq<char>, i: int) -> bool {
    &&& 0 <= i
    &&& i + 5 <= s.len()
    &&& s[i] == 'e'
    &&& s[i + 1] == 'n'
    &&& s[i + 2] == 'v'
    &&& s[i + 3] == '!'
    &&& s[i + 4] == '('
}

/// The position of the first marker of `s`, or `-1` when `s` has none.
pub open spec fn marker_index(s: Seq<char>) -> int
    decreases s.len(),
{
    if is_marker_at(s, 0) {
        0
    } else if s.len() == 0 {
        -1
    } else if marker_index(s.subrange(1, s.len() as int)) < 0 {
        -1
    } else {
        marker_index(s.subrange(1, s.len() as int)) + 1
    }
}

pub open spec fn has_marker(s: Seq<char>) -> bool {
    marker_index(s) >= 0
}

/// The position of the first closing parenthesis of `s`, or `-1`.
pub open spec fn paren_index(s: Seq<char>) -> int
    decreases s.len(),
{
    if s.len() == 0 {
        -1
    } else if s[0] == ')' {
        0
    } else if paren_index(s.subrange(1, s.len() as int)) < 0 {
        -1
    } else {
        paren_index(s.subrange(1, s.len() as int)) + 1
    }
}

pub proof fn lemma_marker_index(s: Seq<char>)
    ensures
        -1 <= marker_index(s) < s.len(),
        has_marker(s) ==> is_marker_at(s, marker_index(s)),
        forall|j: int| 0 <= j < marker_index(s) ==> !is_marker_at(s, j),
        !has_marker(s) ==> forall|j: int| !is_marker_at(s, j),
    decreases s.len(),
{
    if !is_marker_at(s, 0) && s.len() > 0 {
        let tail = s.subrange(1, s.len() as int);
        lemma_marker_index(tail);
        assert forall|j: int| 1 <= j && is_marker_at(s, j) implies is_marker_at(tail, j - 1) by {}
        assert forall|j: int| 1 <= j && is_marker_at(tail, j - 1) implies is_marker_at(s, j) by {}
    }
}

pub proof fn lemma_paren_index(s: Seq<char>)
    ensures
        -1 <= paren_index(s) < s.len(),
        paren_index(s) >= 0 ==> s[paren_index(s)] == ')',
        forall|j: int| 0 <= j < paren_index(s) ==> s[j] != ')',
        paren_index(s) == -1 ==> forall|j: int| 0 <= j < s.len() ==> s[j] != ')',
    decreases s.len(),
{
    if s.len() > 0 && s[0] != ')' {
        let tail = s.subrange(1, s.len() as int);
        lemma_paren_index(tail);
        assert forall|j: int| 0 <= j < paren_index(s) implies s[j] != ')' by {
            if j > 0 {
                assert(s[j] == tail[j - 1]);
            }
        }
        if paren_index(s) == -1 {
            assert forall|j: int| 0 <= j < s.len() implies s[j] != ')' by {
                if j > 0 {
                    assert(s[j] == tail[j - 1]);
                }
            }
        }
    }
}

/// What scanning a string for its first placeholder gives, the model
/// of [`EnvReplacer::find_env`]: no marker, the name between the first
/// marker and the next closing parenthesis, or a syntax error when
/// that parenthesis never comes.
pub open spec fn spec_find_env(s: Seq<char>) -> Result<Option<Seq<char>>, EnvErrV> {
    if marker_index(s) < 0 {
        Ok(None)
    } else {
        let rest = s.subrange(marker_index(s) + 5, s.len() as int);
        if paren_index(rest) < 0 {
            Err(EnvErrV::InvalidEnvSyntax)
        } else {
            Ok(Some(rest.subrange(0, paren_index(rest))))
        }
    }
}

/// One string, resolved: scan for the first marker; take the name up
/// to the next closing parenthesis; replace the whole `env!(name)`
/// span by the variable's value; rescan the result, at most `fuel`
/// times in all.
pub open spec fn spec_resolve_str(
    env: Map<Seq<char>, Seq<char>>,
    s: Seq<char>,
    fuel: nat,
) -> Result<Seq<char>, EnvErrV>
    decreases fuel,
{
    if marker_index(s) < 0 {
        Ok(s)
    } else if fuel == 0 {
        Err(EnvErrV::SubstitutionLimitReached)
    } else {
        let i = marker_index(s);
        let rest = s.subrange(i + 5, s.len() as int);
        if paren_index(rest) < 0 {
            Err(EnvErrV::InvalidEnvSyntax)
        } else {
            let p = paren_index(rest);
            let name = rest.subrange(0, p);
            if !env.contains_key(name) {
                Err(EnvErrV::EnvVarNotFound(name))
            } else {
                spec_resolve_str(
                    env,
                    s.subrange(0, i) + env[name] + rest.subrange(p + 1, rest.len() as int),
                    (fuel - 1) as nat,
                )
            }
        }
    }
}

/// A document node, resolved: string leaves are rewritten, containers
/// are resolved element by element (mapping keys are left alone), and
/// every other leaf — the tagged one included — is returned unchanged.
pub open spec fn spec_resolve_node(env: Map<Seq<char>, Seq<char>>, n: NodeV) -> Result<
    NodeV,
    EnvErrV,
>
    decreases n,
{
    match n {
        NodeV::Str(s) => match spec_resolve_str(env, s, SUBSTITUTION_LIMIT as nat) {
            Ok(t) => Ok(NodeV::Str(t)),
            Err(e) => Err(e),
        },
        NodeV::List(items) => match spec_resolve_list(env, items) {
            Ok(rs) => Ok(NodeV::List(rs)),
            Err(e) => Err(e),
        },
        NodeV::Mapping(pairs) => match spec_resolve_pairs(env, pairs) {
            Ok(ps) => Ok(NodeV::Mapping(ps)),
            Err(e) => Err(e),
        },
        _ => Ok(n),
    }
}

pub open spec fn spec_resolve_list(env: Map<Seq<char>, Seq<char>>, items: Seq<NodeV>) -> Result<
    Seq<NodeV>,
    EnvErrV,
>
    decreases items,
{
    if items.len() == 0 {
        Ok(Seq::empty())
    } else {
        match spec_resolve_node(env, items[0]) {
            Ok(h) => match spec_resolve_list(env, items.subrange(1, items.len() as int)) {
                Ok(rest) => Ok(seq![h] + rest),
                Err(e) => Err(e),
            },
            Err(e) => Err(e),
        }
    }
}

pub open spec fn spec_resolve_pairs(
    env: Map<Seq<char>, Seq<char>>,
    pairs: Seq<(NodeV, NodeV)>,
) -> Result<Seq<(NodeV, NodeV)>, EnvErrV>
    decreases pairs,
{
    if pairs.len() == 0 {
        Ok(Seq::empty())
    } else {
        match spec_resolve_node(env, pairs[0].1) {
            Ok(h) => match spec_resolve_pairs(env, pairs.subrange(1, pairs.len() as int)) {
                Ok(rest) => Ok(seq![(pairs[0].0, h)] + rest),
                Err(e) => Err(e),
            },
            Err(e) => Err(e),
        }
    }
}

/// Whether no string leaf of `n` carries the `env!(` marker. The
/// tagged leaf is exempt: resolution never looks inside it.
pub open spec fn node_no_marker(n: NodeV) -> bool
    decreases n,
{
    match n {
        NodeV::Str(s) => !has_marker(s),
        NodeV::List(items) => list_no_marker(items),
        NodeV::Mapping(pairs) => pairs_no_marker(pairs),
        _ => true,
    }
}

pub open spec fn list_no_marker(items: Seq<NodeV>) -> bool
    decreases items,
{
    items.len() == 0 || (node_no_marker(items[0]) && list_no_marker(
        items.subrange(1, items.len() as int),
    ))
}

pub open spec fn pairs_no_marker(pairs: Seq<(NodeV, NodeV)>) -> bool
    decreases pairs,
{
    pairs.len() == 0 || (node_no_marker(pairs[0].1) && pairs_no_marker(
        pairs.subrange(1, pairs.len() as int),
    ))
}

/// Resolving a document none of whose string leaves carries the
/// marker returns the document unchanged, under any environment.
pub proof fn lemma_resolve_identity(env: Map<Seq<char>, Seq<char>>, n: NodeV)
    requires
        node_no_marker(n),
    ensures
        spec_resolve_node(env, n) == Ok::<NodeV, EnvErrV>(n),
    decreases n,
{
    match n {
        NodeV::List(items) => {
            lemma_resolve_list_identity(env, items);
        },
        NodeV::Mapping(pairs) => {
            lemma_resolve_pairs_identity(env, pairs);
        },
        _ => {},
    }
}

pub proof fn lemma_resolve_list_identity(env: Map<Seq<char>, Seq<char>>, items: Seq<NodeV>)
    requires
        list_no_marker(items),
    ensures
        spec_resolve_list(env, items) == Ok::<Seq<NodeV>, EnvErrV>(items),
    decreases items,
{
    if items.len() > 0 {
        lemma_resolve_identity(env, items[0]);
        lemma_resolve_list_identity(env, items.subrange(1, items.len() as int));
        assert(seq![items[0]] + items.subrange(1, items.len() as int) =~= items);
    } else {
        assert(items =~= Seq::<NodeV>::empty());
    }
}

pub proof fn lemma_resolve_pairs_identity(env: Map<Seq<char>, Seq<char>>, pairs: Seq<(NodeV, NodeV)>)
    requires
        pairs_no_marker(pairs),
    ensures
        spec_resolve_pairs(env, pairs) == Ok::<Seq<(NodeV, NodeV)>, EnvErrV>(pairs),
    decreases pairs,
{
    if pairs.len() > 0 {
        lemma_resolve_identity(env, pairs[0].1);
        lemma_resolve_pairs_identity(env, pairs.subrange(1, pairs.len() as int));
        assert(seq![(pairs[0].0, pairs[0].1)] + pairs.subrange(1, pairs.len() as int) =~= pairs);
    } else {
        assert(pairs =~= Seq::<(NodeV, NodeV)>::empty());
    }
}

/// A string that resolves successfully carries no residual marker:
/// every placeholder, including the ones a substitution introduced,
/// is gone from the result.
pub proof fn lemma_resolved_has_no_marker(env: Map<Seq<char>, Seq<char>>, s: Seq<char>, fuel: nat)
    ensures
        spec_resolve_str(env, s, fuel) is Ok ==> !has_marker(
            spec_resolve_str(env, s, fuel)->Ok_0,
        ),
    decreases fuel,
{
    if marker_index(s) >= 0 && fuel > 0 {
        let i: int = marker_index(s);
        let rest = s.subrange(i + 5, s.len() as int);
        if paren_index(rest) >= 0 {
            let p: int = paren_index(rest);
            let name = rest.subrange(0, p);
            if env.contains_key(name) {
                lemma_resolved_has_no_marker(
                    env,
                    s.subrange(0, i) + env[name] + rest.subrange(p + 1, rest.len() as int),
                    (fuel - 1) as nat,
                );
            }
        }
    }
}

/// A document that resolves successfully has no residual marker in
/// any of its string leaves.
pub proof fn lemma_resolved_node_has_no_marker(env: Map<Seq<char>, Seq<char>>, n: NodeV)
    ensures
        spec_resolve_node(env, n) is Ok ==> node_no_marker(spec_resolve_node(env, n)->Ok_0),
    decreases n,
{
    match n {
        NodeV::Str(s) => {
            lemma_resolved_has_no_marker(env, s, SUBSTITUTION_LIMIT as nat);
        },
        NodeV::List(items) => {
            lemma_resolved_list_has_no_marker(env, items);
        },
        NodeV::Mapping(pairs) => {
            lemma_resolved_pairs_have_no_marker(env, pairs);
        },
        _ => {},
    }
}

pub proof fn lemma_resolved_list_has_no_marker(env: Map<Seq<char>, Seq<char>>, items: Seq<NodeV>)
    ensures
        spec_resolve_list(env, items) is Ok ==> list_no_marker(
            spec_resolve_list(env, items)->Ok_0,
        ),
    decreases items,
{
    if items.len() > 0 {
        lemma_resolved_node_has_no_marker(env, items[0]);
        lemma_resolved_list_has_no_marker(env, items.subrange(1, items.len() as int));
        if spec_resolve_list(env, items) is Ok {
            let h = spec_resolve_node(env, items[0])->Ok_0;
            let rest = spec_resolve_list(env, items.subrange(1, items.len() as int))->Ok_0;
            assert((seq![h] + rest)[0] == h);
            assert((seq![h] + rest).subrange(1, (seq![h] + rest).len() as int) =~= rest);
        }
    }
}

pub proof fn lemma_resolved_pairs_have_no_marker(
    env: Map<Seq<char>, Seq<char>>,
    pairs: Seq<(NodeV, NodeV)>,
)
    ensures
        spec_resolve_pairs(env, pairs) is Ok ==> pairs_no_marker(
            spec_resolve_pairs(env, pairs)->Ok_0,
        ),
    decreases pairs,
{
    if pairs.len() > 0 {
        lemma_resolved_node_has_no_marker(env, pairs[0].1);
        lemma_resolved_pairs_have_no_marker(env, pairs.subrange(1, pairs.len() as int));
        if spec_resolve_pairs(env, pairs) is Ok {
            let h = spec_resolve_node(env, pairs[0].1)->Ok_0;
            let rest = spec_resolve_pairs(env, pairs.subrange(1, pairs.len() as int))->Ok_0;
            assert((seq![(pairs[0].0, h)] + rest)[0] == (pairs[0].0, h));
            assert((seq![(pairs[0].0, h)] + rest).subrange(
                1,
                (seq![(pairs[0].0, h)] + rest).len() as int,
            ) =~= rest);
        }
    }
}

/// The environment snapshot, one captured set of variables; when a
/// name occurs twice in the vector the first pair wins.
pub struct EnvReplacer {
    envs: Vec<(String, String)>,
}

/// The index of the first pair of `s` whose name is `k`, or `-1`.
pub open spec fn env_index(s: Seq<(String, String)>, k: Seq<char>) -> int
    decreases s.len(),
{
    if s.len() == 0 {
        -1
    } else if s[0].0@ == k {
        0
    } else if env_index(s.subrange(1, s.len() as int), k) < 0 {
        -1
    } else {
        env_index(s.subrange(1, s.len() as int), k) + 1
    }
}

/// The snapshot as a map; an earlier pair shadows a later one of the
/// same name.
pub open spec fn env_map(s: Seq<(String, String)>) -> Map<Seq<char>, Seq<char>>
    decreases s.len(),
{
    if s.len() == 0 {
        Map::empty()
    } else {
        env_map(s.subrange(1, s.len() as int)).insert(s[0].0@, s[0].1@)
    }
}

pub proof fn lemma_env_map(s: Seq<(String, String)>, k: Seq<char>)
    ensures
        -1 <= env_index(s, k) < s.len(),
        env_map(s).contains_key(k) <==> env_index(s, k) >= 0,
        env_index(s, k) >= 0 ==> s[env_index(s, k)].0@ == k && env_map(s)[k] == s[env_index(
            s,
            k,
        )].1@,
        forall|j: int| 0 <= j < env_index(s, k) ==> s[j].0@ != k,
        env_index(s, k) == -1 ==> forall|j: int| 0 <= j < s.len() ==> s[j].0@ != k,
    decreases s.len(),
{
    if s.len() > 0 && s[0].0@ != k {
        let tail = s.subrange(1, s.len() as int);
        lemma_env_map(tail, k);
        assert forall|j: int| 0 <= j < env_index(s, k) implies s[j].0@ != k by {
            if j > 0 {
                assert(s[j] == tail[j - 1]);
            }
        }
        if env_index(s, k) == -1 {
            assert forall|j: int| 0 <= j < s.len() implies s[j].0@ != k by {
                if j > 0 {
                    assert(s[j] == tail[j - 1]);
                }
            }
        }
    }
}

impl View for EnvReplacer {
    type V = Map<Seq<char>, Seq<char>>;

    closed spec fn view(&self) -> Map<Seq<char>, Seq<char>> {
        env_map(self.envs@)
    }
}

/// The position of the first marker of `s`, when it has one.
#[verifier::loop_isolation(false)]
fn scan_marker(s: &str) -> (r: Option<usize>)
    ensures
        s@.len() <= usize::MAX,
        match r {
            Some(i) => marker_index(s@) == i as int && i + 5 <= s@.len(),
            None => marker_index(s@) == -1,
        },
{
    proof {
        lemma_marker_index(s@);
    }
    let n = s.unicode_len();
    if n < 5 {
        proof {
            assert forall|j: int| !is_marker_at(s@, j) by {}
        }
        return None;
    }
    let mut i: usize = 0;
    while i <= n - 5
        invariant
            i <= n - 4,
            forall|j: int| 0 <= j < i ==> !is_marker_at(s@, j),
        decreases n - i,
    {
        if s.get_char(i) == 'e' && s.get_char(i + 1) == 'n' && s.get_char(i + 2) == 'v'
            && s.get_char(i + 3) == '!' && s.get_char(i + 4) == '(' {
            proof {
                assert(is_marker_at(s@, i as int));
            }
            return Some(i);
        }
        proof {
            assert(!is_marker_at(s@, i as int));
        }
        i = i + 1;
    }
    proof {
        assert forall|j: int| !is_marker_at(s@, j) by {
            if 0 <= j < i {
            } else {
                assert(j < 0 || j + 5 > s@.len());
            }
        }
    }
    None
}


/// The position of the first closing parenthesis at or after `from`,
/// when there is one.
#[verifier::loop_isolation(false)]
fn scan_close(s: &str, from: usize) -> (r: Option<usize>)
    requires
        from <= s@.len(),
    ensures
        s@.len() <= usize::MAX,
        match r {
            Some(j) => from <= j < s@.len() && paren_index(
                s@.subrange(from as int, s@.len() as int),
            ) == j - from,
            None => paren_index(s@.subrange(from as int, s@.len() as int)) == -1,
        },
{
    let ghost rest = s@.subrange(from as int, s@.len() as int);
    proof {
        lemma_paren_index(rest);
    }
    let n = s.unicode_len();
    let mut j: usize = from;
    while j < n
        invariant
            from <= j <= n,
            forall|k: int| 0 <= k < j - from ==> rest[k] != ')',
        decreases n - j,
    {
        if s.get_char(j) == ')' {
            proof {
                assert(rest[j - from] == ')');
            }
            return Some(j);
        }
        proof {
            assert(rest[j - from] != ')');
        }
        j = j + 1;
    }
    None
}

impl EnvReplacer {
    /// A replacer over the given snapshot of variables.
    pub fn new(envs: Vec<(String, String)>) -> (r: EnvReplacer)
        ensures
            r@ == env_map(envs@),
    {
        EnvReplacer { envs }
    }

    /// The value of `name` in the snapshot, when it is there.
    #[verifier::loop_isolation(false)]
    fn lookup_env<'a>(&'a self, name: &str) -> (r: Option<&'a String>)
        ensures
            match r {
                Some(v) => self@.contains_key(name@) && v@ == self@[name@],
                None => !self@.contains_key(name@),
            },
    {
        proof {
            lemma_env_map(self.envs@, name@);
        }
        let mut i: usize = 0;
        while i < self.envs.len()
            invariant
                i <= self.envs@.len(),
                forall|j: int| 0 <= j < i ==> self.envs@[j].0@ != name@,
            decreases self.envs@.len() - i,
        {
            if str_eq(self.envs[i].0.as_str(), name) {
                return Some(&self.envs[i].1);
            }
            i = i + 1;
        }
        None
    }

    /// The name of the first placeholder of `s`: `Ok(None)` when `s`
    /// has no marker, the name up to the next closing parenthesis when
    /// it has one, and `InvalidEnvSyntax` when that parenthesis is
    /// missing.
    pub fn find_env(s: &str) -> (r: Result<Option<String>, Error>)
        ensures
            match r {
                Ok(Some(name)) => spec_find_env(s@) == Ok::<Option<Seq<char>>, EnvErrV>(
                    Some(name@),
                ),
                Ok(None) => spec_find_env(s@) == Ok::<Option<Seq<char>>, EnvErrV>(None),
                Err(e) => spec_find_env(s@) == Err::<Option<Seq<char>>, EnvErrV>(e@),
            },
    {
        let i = match scan_marker(s) {
            Some(i) => i,
            None => {
                return Ok(None);
            },
        };
        proof {
            lemma_marker_index(s@);
        }
        let j = match scan_close(s, i + 5) {
            Some(j) => j,
            None => {
                return Err(Error::InvalidEnvSyntax);
            },
        };
        let name = s.substring_char(i + 5, j).to_owned();
        proof {
            let rest = s@.subrange(i as int + 5, s@.len() as int);
            assert(name@ =~= rest.subrange(0, paren_index(rest)));
        }
        Ok(Some(name))
    }

    /// One string leaf, resolved against the snapshot.
    #[verifier::loop_isolation(false)]
    pub fn replace_string(&self, s: String) -> (r: Result<Node, Error>)
        ensures
            match r {
                Ok(n) => spec_resolve_str(self@, s@, SUBSTITUTION_LIMIT as nat) is Ok && n@
                    == NodeV::Str(spec_resolve_str(self@, s@, SUBSTITUTION_LIMIT as nat)->Ok_0),
                Err(e) => spec_resolve_str(self@, s@, SUBSTITUTION_LIMIT as nat) == Err::<
                    Seq<char>,
                    EnvErrV,
                >(e@),
            },
    {
        let ghost orig = s@;
        let mut cur = s;
        let mut fuel: usize = SUBSTITUTION_LIMIT;
        loop
            invariant
                spec_resolve_str(self@, orig, SUBSTITUTION_LIMIT as nat) == spec_resolve_str(
                    self@,
                    cur@,
                    fuel as nat,
                ),
            decreases fuel,
        {
            let i = match scan_marker(cur.as_str()) {
                Some(i) => i,
                None => {
                    return Ok(Node::Str(cur));
                },
            };
            proof {
                lemma_marker_index(cur@);
            }
            if fuel == 0 {
                return Err(Error::SubstitutionLimitReached);
            }
            let j = match scan_close(cur.as_str(), i + 5) {
                Some(j) => j,
                None => {
                    return Err(Error::InvalidEnvSyntax);
                },
            };
            let name = cur.as_str().substring_char(i + 5, j);
            let ghost rest = cur@.subrange(i as int + 5, cur@.len() as int);
            proof {
                assert(name@ =~= rest.subrange(0, paren_index(rest)));
            }
            let value = match self.lookup_env(name) {
                Some(v) => v,
                None => {
                    return Err(Error::EnvVarNotFound { env_name: name.to_owned() });
                },
            };
            let mut next = cur.as_str().substring_char(0, i).to_owned();
            next.append(value.as_str());
            next.append(cur.as_str().substring_char(j + 1, cur.as_str().unicode_len()));
            proof {
                assert(next@ =~= cur@.subrange(0, i as int) + self@[name@] + rest.subrange(
                    paren_index(rest) + 1,
                    rest.len() as int,
                ));
            }
            cur = next;
            fuel = fuel - 1;
        }
    }

    /// A whole document, resolved: the model of the result is
    /// [`spec_resolve_node`] of the model of the input.
    pub fn replace_value(&self, value: &Node) -> (r: Result<Node, Error>)
        ensures
            match r {
                Ok(n) => spec_resolve_node(self@, value@) == Ok::<NodeV, EnvErrV>(n@),
                Err(e) => spec_resolve_node(self@, value@) == Err::<NodeV, EnvErrV>(e@),
            },
        decreases value,
    {
        match value {
            Node::Null => Ok(Node::Null),
            Node::Bool(b) => Ok(Node::Bool(*b)),
            Node::Num(m) => Ok(Node::Num(*m)),
            Node::Str(s) => self.replace_string(s.clone()),
            Node::List(v) => self.replace_sequence(value, v),
            Node::Mapping(mp) => self.replace_mapping(value, mp),
            Node::Tagged(t, b) => Ok(Node::Tagged(t.clone(), Box::new(b.deep_clone()))),
        }
    }

    /// The elements of a sequence node, resolved in order.
    #[verifier::loop_isolation(false)]
    fn replace_sequence(&self, value: &Node, v: &Vec<Node>) -> (r: Result<Node, Error>)
        requires
            *value is List,
            value->List_0 == *v,
        ensures
            match r {
                Ok(n) => spec_resolve_node(self@, value@) == Ok::<NodeV, EnvErrV>(n@),
                Err(e) => spec_resolve_node(self@, value@) == Err::<NodeV, EnvErrV>(e@),
            },
        decreases value, 0int,
    {
        let ghost itemsv = nodes_view(v@);
        proof {
            lemma_nodes_view(v@);
        }
        let mut out: Vec<Node> = Vec::new();
        let mut j: usize = 0;
        proof {
            assert(itemsv.subrange(0, itemsv.len() as int) =~= itemsv);
            assert(nodes_view(out@) =~= Seq::<NodeV>::empty());
            if spec_resolve_list(self@, itemsv) is Ok {
                assert(nodes_view(out@) + spec_resolve_list(self@, itemsv)->Ok_0
                    =~= spec_resolve_list(self@, itemsv)->Ok_0);
            }
        }
        while j < v.len()
            invariant
                j <= v@.len(),
                spec_resolve_list(self@, itemsv) == (match spec_resolve_list(
                    self@,
                    itemsv.subrange(j as int, itemsv.len() as int),
                ) {
                    Ok(rest) => Ok::<Seq<NodeV>, EnvErrV>(nodes_view(out@) + rest),
                    Err(e) => Err(e),
                }),
            decreases v@.len() - j,
        {
            proof {
                assert(itemsv.subrange(j as int, itemsv.len() as int)[0] == itemsv[j as int]);
                assert(itemsv.subrange(j as int, itemsv.len() as int).subrange(
                    1,
                    itemsv.len() as int - j,
                ) =~= itemsv.subrange(j as int + 1, itemsv.len() as int));
                assert(decreases_to!(*value => value->List_0));
                assert(decreases_to!(value->List_0 => value->List_0@));
                assert(decreases_to!(value->List_0@ => value->List_0@[j as int]));
            }
            let h = match self.replace_value(&v[j]) {
                Ok(h) => h,
                Err(e) => {
                    return Err(e);
                },
            };
            let ghost pre = out@;
            out.push(h);
            proof {
                lemma_nodes_view(pre);
                lemma_nodes_view(out@);
                assert(nodes_view(out@) =~= nodes_view(pre) + seq![h@]);
                assert(nodes_view(pre) + (seq![h@] + spec_resolve_list(
                    self@,
                    itemsv.subrange(j as int + 1, itemsv.len() as int),
                )->Ok_0) =~= nodes_view(out@) + spec_resolve_list(
                    self@,
                    itemsv.subrange(j as int + 1, itemsv.len() as int),
                )->Ok_0);
            }
            j = j + 1;
        }
        proof {
            assert(itemsv.subrange(j as int, itemsv.len() as int) =~= Seq::<NodeV>::empty());
            assert(nodes_view(out@) + Seq::<NodeV>::empty() =~= nodes_view(out@));
        }
        Ok(Node::List(out))
    }

    /// The values of a mapping node, resolved in order; the keys are
    /// never scanned and come through unchanged.
    #[verifier::loop_isolation(false)]
    fn replace_mapping(&self, value: &Node, mp: &Vec<(Node, Node)>) -> (r: Result<Node, Error>)
        requires
            *value is Mapping,
            value->Mapping_0 == *mp,
        ensures
            match r {
                Ok(n) => spec_resolve_node(self@, value@) == Ok::<NodeV, EnvErrV>(n@),
                Err(e) => spec_resolve_node(self@, value@) == Err::<NodeV, EnvErrV>(e@),
            },
        decreases value, 0int,
    {
        let ghost pairsv = pairs_view(mp@);
        proof {
            lemma_pairs_view(mp@);
        }
        let mut out: Vec<(Node, Node)> = Vec::new();
        let mut j: usize = 0;
        proof {
            assert(pairsv.subrange(0, pairsv.len() as int) =~= pairsv);
            assert(pairs_view(out@) =~= Seq::<(NodeV, NodeV)>::empty());
            if spec_resolve_pairs(self@, pairsv) is Ok {
                assert(pairs_view(out@) + spec_resolve_pairs(self@, pairsv)->Ok_0
                    =~= spec_resolve_pairs(self@, pairsv)->Ok_0);
            }
        }
        while j < mp.len()
            invariant
                j <= mp@.len(),
                spec_resolve_pairs(self@, pairsv) == (match spec_resolve_pairs(
                    self@,
                    pairsv.subrange(j as int, pairsv.len() as int),
                ) {
                    Ok(rest) => Ok::<Seq<(NodeV, NodeV)>, EnvErrV>(pairs_view(out@) + rest),
                    Err(e) => Err(e),
                }),
            decreases mp@.len() - j,
        {
            proof {
                assert(pairsv.subrange(j as int, pairsv.len() as int)[0] == pairsv[j as int]);
                assert(pairsv.subrange(j as int, pairsv.len() as int).subrange(
                    1,
                    pairsv.len() as int - j,
                ) =~= pairsv.subrange(j as int + 1, pairsv.len() as int));
                assert(decreases_to!(*value => value->Mapping_0));
                assert(decreases_to!(value->Mapping_0 => value->Mapping_0@));
                assert(decreases_to!(value->Mapping_0@ => value->Mapping_0@[j as int]));
                assert(decreases_to!(value->Mapping_0@[j as int] => value->Mapping_0@[j as int].1));
            }
            let h = match self.replace_value(&mp[j].1) {
                Ok(h) => h,
                Err(e) => {
                    return Err(e);
                },
            };
            let k = mp[j].0.deep_clone();
            let ghost pre = out@;
            out.push((k, h));
            proof {
                lemma_pairs_view(pre);
                lemma_pairs_view(out@);
                assert(pairs_view(out@) =~= pairs_view(pre) + seq![(pairsv[j as int].0, h@)]);
                assert(pairs_view(pre) + (seq![(pairsv[j as int].0, h@)] + spec_resolve_pairs(
                    self@,
                    pairsv.subrange(j as int + 1, pairsv.len() as int),
                )->Ok_0) =~= pairs_view(out@) + spec_resolve_pairs(
                    self@,
                    pairsv.subrange(j as int + 1, pairsv.len() as int),
                )->Ok_0);
            }
            j = j + 1;
        }
        proof {
            assert(pairsv.subrange(j as int, pairsv.len() as int) =~= Seq::<(NodeV, NodeV)>::empty());
            assert(pairs_view(out@) + Seq::<(NodeV, NodeV)>::empty() =~= pairs_view(out@));
        }
        Ok(Node::Mapping(out))
    }
}

} // verus!
