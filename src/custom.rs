//! Macros: `<!--?name key=value ...-->` nodes replaced by what their handler makes.
pub mod inclusion;

use vstd::prelude::*;
use crate::parse::component::{render_nodes, Component, NodeV};
use crate::parse::doc::{kept, tag_positions, tokens, Doc};
use crate::parse::tag::{Tag, TagV};
use crate::text::str_eq;
use crate::util::{has_key, lemma_lookup, lookup, view_values, VecDict};

verus! {

/// Why expanding a document stopped.
pub enum Interrupt {
    /// A linked file, by its path relative to the root, is not in the cache yet.
    NeedFile(String),
    /// A linked file holds an unterminated construct or a malformed tag.
    Malformed,
}

/// The outcome of expanding a document: its nodes, or why it stopped.
pub ghost enum Resolved {
    Nodes(Seq<NodeV>),
    NeedFile(Seq<char>),
    Malformed,
}

/// The outcome of one macro: the node it becomes, or why expanding stopped.
pub ghost enum MacroResult {
    Node(NodeV),
    NeedFile(Seq<char>),
    Malformed,
}

impl Interrupt {
    pub open spec fn resolved(&self) -> Resolved {
        match self {
            Interrupt::NeedFile(p) => Resolved::NeedFile(p@),
            Interrupt::Malformed => Resolved::Malformed,
        }
    }

    pub open spec fn as_macro(&self) -> MacroResult {
        match self {
            Interrupt::NeedFile(p) => MacroResult::NeedFile(p@),
            Interrupt::Malformed => MacroResult::Malformed,
        }
    }
}

/// The comment that stands where a macro produced nothing.
pub open spec fn error_node() -> NodeV {
    NodeV::Comment(seq!['?', 'e', 'r', 'r', 'o', 'r'])
}

pub open spec fn include_name() -> Seq<char> {
    seq!['i', 'n', 'c', 'l', 'u', 'd', 'e']
}

pub open spec fn link_key() -> Seq<char> {
    seq!['l', 'i', 'n', 'k']
}

/// `s` without the double quotes at its start and at its end.
pub open spec fn trim_quotes(s: Seq<char>) -> Seq<char> {
    let a = crate::util::index_not_of(s, '"', 0);
    if a >= s.len() {
        Seq::empty()
    } else {
        s.subrange(a, trimmed_len(s))
    }
}

/// The length of `s` once the double quotes at its end are dropped.
pub open spec fn trimmed_len(s: Seq<char>) -> int
    decreases s.len(),
{
    if s.len() == 0 {
        0
    } else if s.last() == '"' {
        trimmed_len(s.drop_last())
    } else {
        s.len() as int
    }
}

/// What an included document contributes: all of it when it has no `<body>` and no
/// `</body>`, what stands strictly between them when it has one of each, and nothing
/// otherwise.
pub open spec fn body_of(es: Seq<NodeV>) -> Option<Seq<NodeV>> {
    let b = tag_positions(es, seq!['b', 'o', 'd', 'y'], es.len() as int);
    let e = tag_positions(es, seq!['/', 'b', 'o', 'd', 'y'], es.len() as int);
    if b.len() == 0 && e.len() == 0 {
        Some(es)
    } else if b.len() == 1 && e.len() == 1 {
        Some(kept(es, b[0] + 1, e[0]))
    } else {
        None
    }
}

/// What the macro `t` becomes. `files` maps paths relative to the root to their text;
/// `depth` is how many more levels of inclusion are allowed. Only `include` is known:
/// it reads the file that `link` names, relative to the root whatever file the macro
/// stands in, expands that file's own macros, and keeps its body.
pub open spec fn macro_node(t: TagV, files: Seq<(Seq<char>, Seq<char>)>, depth: nat) -> MacroResult
    decreases depth, 0nat,
{
    if t.name != include_name() {
        MacroResult::Node(error_node())
    } else {
        match lookup(t.attrs, link_key()) {
            None => MacroResult::Node(error_node()),
            Some(l) => if depth == 0 {
                MacroResult::Node(error_node())
            } else {
                let p = trim_quotes(l);
                match lookup(files, p) {
                    None => MacroResult::NeedFile(p),
                    Some(text) => match tokens(text) {
                        None => MacroResult::Malformed,
                        Some(ns) => match expand(ns, files, (depth - 1) as nat) {
                            Resolved::Nodes(es) => match body_of(es) {
                                Some(b) => MacroResult::Node(NodeV::Pointer(render_nodes(b))),
                                None => MacroResult::Node(error_node()),
                            },
                            Resolved::NeedFile(q) => MacroResult::NeedFile(q),
                            Resolved::Malformed => MacroResult::Malformed,
                        },
                    },
                }
            },
        }
    }
}

/// The nodes `ns` with each macro replaced, left to right, by what it becomes; the
/// first macro that stops the expansion decides the outcome.
pub open spec fn expand(ns: Seq<NodeV>, files: Seq<(Seq<char>, Seq<char>)>, depth: nat) -> Resolved
    decreases depth, ns.len(),
{
    if ns.len() == 0 {
        Resolved::Nodes(Seq::empty())
    } else {
        match expand(ns.drop_last(), files, depth) {
            Resolved::Nodes(es) => match ns.last() {
                NodeV::CustomTag(t, _) => match macro_node(t, files, depth) {
                    MacroResult::Node(n) => Resolved::Nodes(es.push(n)),
                    MacroResult::NeedFile(p) => Resolved::NeedFile(p),
                    MacroResult::Malformed => Resolved::Malformed,
                },
                other => Resolved::Nodes(es.push(other)),
            },
            r => r,
        }
    }
}

/// A source text tokenized and expanded.
pub open spec fn expand_source(s: Seq<char>, files: Seq<(Seq<char>, Seq<char>)>, depth: nat) -> Resolved {
    match tokens(s) {
        None => Resolved::Malformed,
        Some(ns) => expand(ns, files, depth),
    }
}

pub open spec fn macro_resolved(m: MacroResult) -> Resolved {
    match m {
        MacroResult::Node(n) => Resolved::Nodes(seq![n]),
        MacroResult::NeedFile(p) => Resolved::NeedFile(p),
        MacroResult::Malformed => Resolved::Malformed,
    }
}

/// Nodes whose macros each become a node expand to those nodes.
pub proof fn lemma_expand_all(
    ns: Seq<NodeV>,
    ms: Seq<NodeV>,
    files: Seq<(Seq<char>, Seq<char>)>,
    depth: nat,
)
    requires
        ns.len() == ms.len(),
        forall|i: int|
            0 <= i < ns.len() ==> (#[trigger] ns[i] matches NodeV::CustomTag(t, _) ==> macro_node(
                t,
                files,
                depth,
            ) == MacroResult::Node(ms[i])) && (!(ns[i] is CustomTag) ==> ms[i] == ns[i]),
    ensures
        expand(ns, files, depth) == Resolved::Nodes(ms),
    decreases ns.len(),
{
    if ns.len() > 0 {
        let (a, b) = (ns.drop_last(), ms.drop_last());
        assert forall|i: int| 0 <= i < a.len() implies (#[trigger] a[i] matches NodeV::CustomTag(
            t,
            _,
        ) ==> macro_node(t, files, depth) == MacroResult::Node(b[i])) && (!(a[i] is CustomTag)
            ==> b[i] == a[i]) by {
            assert(a[i] == ns[i]);
        }
        lemma_expand_all(a, b, files, depth);
        let k = ns.len() - 1;
        assert(ns[k] == ns.last());
        if let NodeV::CustomTag(t, _) = ns[k] {
            assert(macro_node(t, files, depth) == MacroResult::Node(ms[k]));
        } else {
            assert(ms[k] == ns[k]);
        }
        assert(b.push(ms[k]) =~= ms);
    } else {
        assert(ms =~= Seq::<NodeV>::empty());
    }
}

/// Nodes whose macros each become a node expand to some nodes.
proof fn lemma_expand_some(ns: Seq<NodeV>, files: Seq<(Seq<char>, Seq<char>)>, depth: nat)
    requires
        forall|j: int|
            0 <= j < ns.len() ==> (#[trigger] ns[j] matches NodeV::CustomTag(t, _) ==> macro_node(
                t,
                files,
                depth,
            ) is Node),
    ensures
        expand(ns, files, depth) is Nodes,
    decreases ns.len(),
{
    if ns.len() > 0 {
        let a = ns.drop_last();
        assert forall|j: int| 0 <= j < a.len() implies (#[trigger] a[j] matches NodeV::CustomTag(
            t,
            _,
        ) ==> macro_node(t, files, depth) is Node) by {
            assert(a[j] == ns[j]);
        }
        lemma_expand_some(a, files, depth);
        assert(ns[ns.len() - 1] == ns.last());
    }
}

/// The first macro that stops the expansion decides its outcome.
pub proof fn lemma_expand_stops(
    ns: Seq<NodeV>,
    i: int,
    files: Seq<(Seq<char>, Seq<char>)>,
    depth: nat,
)
    requires
        0 <= i < ns.len(),
        ns[i] matches NodeV::CustomTag(t, _) && !(macro_node(t, files, depth) is Node),
        forall|j: int|
            0 <= j < i ==> (#[trigger] ns[j] matches NodeV::CustomTag(t, _) ==> macro_node(
                t,
                files,
                depth,
            ) is Node),
    ensures
        expand(ns, files, depth) == macro_resolved(macro_node(ns[i]->CustomTag_0, files, depth)),
    decreases ns.len(),
{
    let a = ns.drop_last();
    if i == ns.len() - 1 {
        assert forall|j: int| 0 <= j < a.len() implies (#[trigger] a[j] matches NodeV::CustomTag(
            t,
            _,
        ) ==> macro_node(t, files, depth) is Node) by {
            assert(a[j] == ns[j]);
        }
        lemma_expand_some(a, files, depth);
    } else {
        assert forall|j: int| 0 <= j < i implies (#[trigger] a[j] matches NodeV::CustomTag(
            t,
            _,
        ) ==> macro_node(t, files, depth) is Node) by {
            assert(a[j] == ns[j]);
        }
        assert(a[i] == ns[i]);
        lemma_expand_stops(a, i, files, depth);
    }
}

proof fn lemma_macro_never_requested(
    t: TagV,
    files: Seq<(Seq<char>, Seq<char>)>,
    depth: nat,
    p: Seq<char>,
)
    requires
        has_key(files, p),
    ensures
        macro_node(t, files, depth) != MacroResult::NeedFile(p),
    decreases depth, 0nat,
{
    lemma_lookup(files, p);
    if t.name == include_name() && lookup(t.attrs, link_key()) is Some && depth > 0 {
        let q = trim_quotes(lookup(t.attrs, link_key()).unwrap());
        if let Some(text) = lookup(files, q) {
            if let Some(ns) = tokens(text) {
                lemma_expand_never_requested(ns, files, (depth - 1) as nat, p);
            }
        }
    }
}

proof fn lemma_expand_never_requested(
    ns: Seq<NodeV>,
    files: Seq<(Seq<char>, Seq<char>)>,
    depth: nat,
    p: Seq<char>,
)
    requires
        has_key(files, p),
    ensures
        expand(ns, files, depth) != Resolved::NeedFile(p),
    decreases depth, ns.len(),
{
    if ns.len() > 0 {
        lemma_expand_never_requested(ns.drop_last(), files, depth, p);
        if let NodeV::CustomTag(t, _) = ns.last() {
            lemma_macro_never_requested(t, files, depth, p);
        }
    }
}

/// A file that is in the cache is never asked for again: expanding any source with
/// any depth stops for want of a file only if that file was not read yet, so each
/// file is read from storage at most once in a compilation.
pub proof fn lemma_never_requested(
    s: Seq<char>,
    files: Seq<(Seq<char>, Seq<char>)>,
    depth: nat,
    p: Seq<char>,
)
    requires
        has_key(files, p),
    ensures
        expand_source(s, files, depth) != Resolved::NeedFile(p),
{
    if let Some(ns) = tokens(s) {
        lemma_expand_never_requested(ns, files, depth, p);
    }
}

/// Links are relative to the root, at every depth: an `include` whose file is not cached
/// asks for exactly its link with the quotes trimmed, whichever file it stands in.
pub proof fn lemma_link_from_root(t: TagV, files: Seq<(Seq<char>, Seq<char>)>, depth: nat)
    requires
        t.name == include_name(),
        lookup(t.attrs, link_key()) is Some,
        depth > 0,
        lookup(files, trim_quotes(lookup(t.attrs, link_key()).unwrap())) is None,
    ensures
        macro_node(t, files, depth) == MacroResult::NeedFile(
            trim_quotes(lookup(t.attrs, link_key()).unwrap()),
        ),
{
}

/// A linked document with more than one `<body>` (or more than one `</body>`) is never cut
/// at a guessed marker: the macro becomes the error comment.
pub proof fn lemma_duplicate_body(es: Seq<NodeV>)
    requires
        tag_positions(es, seq!['b', 'o', 'd', 'y'], es.len() as int).len() > 1
            || tag_positions(es, seq!['/', 'b', 'o', 'd', 'y'], es.len() as int).len() > 1,
    ensures
        body_of(es) is None,
{
}

/// Runs the handler of the macro `tag`: `Ok(None)` when there is no handler for its
/// name or the handler produced nothing.
pub fn run(tag: Tag, files: &VecDict<String>, depth: usize) -> (r: Result<Option<Doc>, Interrupt>)
    requires
        tag.wf(),
        files.wf(),
    ensures
        match r {
            Ok(Some(d)) => d.wf() && macro_node(tag@, view_values(files@), depth as nat)
                == MacroResult::Node(NodeV::Pointer(render_nodes(d@))),
            Ok(None) => macro_node(tag@, view_values(files@), depth as nat) == MacroResult::Node(
                error_node(),
            ),
            Err(e) => macro_node(tag@, view_values(files@), depth as nat) == e.as_macro(),
        },
    decreases depth, 1nat,
{
    proof {
        reveal_strlit("include");
        assert("include"@ =~= include_name());
    }
    if str_eq(tag.tag(), "include") {
        inclusion::run(tag, files, depth)
    } else {
        Ok(None)
    }
}

} // verus!
