//! Turning source text into documents.
pub mod component;
pub mod doc;
pub mod tag;

use vstd::prelude::*;
use vstd::string::*;
use crate::custom;
use crate::custom::{
    error_node, expand_source, lemma_expand_all, lemma_expand_stops, macro_node, macro_resolved,
    Interrupt, MacroResult, Resolved,
};
use crate::parse::component::{Component, NodeV};
use crate::parse::doc::{
    component_ok, fails_with, lemma_node_of, node_of, reassigned, succeeds, tokens, Doc,
};
use crate::parse::tag::Tag;
use crate::util::{view_values, VecDict};

verus! {

/// The comment `?error`, which stands where a macro produced nothing.
pub fn error_comment() -> (r: Component)
    ensures
        r@ == error_node(),
        component_ok(r),
{
    proof {
        reveal_strlit("?error");
        assert("?error"@ =~= seq!['?', 'e', 'r', 'r', 'o', 'r']);
    }
    let r = Component::Comment(String::from_str("?error"));
    proof {
        lemma_node_of(r);
    }
    r
}

/// Tokenizes `source` and replaces each of its macros by what it becomes, reading linked
/// files from `files` (paths relative to the root); `depth` bounds how deep inclusions nest.
pub fn into_doc(source: &str, files: &VecDict<String>, depth: usize) -> (r: Result<Doc, Interrupt>)
    requires
        files.wf(),
    ensures
        match r {
            Ok(d) => d.wf() && expand_source(source@, view_values(files@), depth as nat)
                == Resolved::Nodes(d@),
            Err(e) => expand_source(source@, view_values(files@), depth as nat) == e.resolved(),
        },
    decreases depth, 2nat,
{
    let mut doc = match Doc::new(source) {
        Some(d) => d,
        None => return Err(Interrupt::Malformed),
    };
    let ghost before = doc;
    let ghost ns = doc@;
    let handler = |tag: Tag| -> (r: Result<Component, Interrupt>)
        requires
            tag.wf(),
            files.wf(),
        ensures
            match r {
                Ok(c) => component_ok(c) && macro_node(tag@, view_values(files@), depth as nat)
                    == MacroResult::Node(c@),
                Err(e) => macro_node(tag@, view_values(files@), depth as nat) == e.as_macro(),
            },
        {
            match custom::run(tag, files, depth) {
                Ok(Some(d)) => {
                    let c = Component::Pointer(d);
                    proof {
                        lemma_node_of(c);
                    }
                    Ok(c)
                },
                Ok(None) => Ok(error_comment()),
                Err(e) => Err(e),
            }
        };
    let res = doc.reassign_custom(handler);
    proof {
        before.lemma_view();
        doc.lemma_view();
    }
    match res {
        Ok(()) => {
            proof {
                let ms = doc@;
                assert forall|i: int| 0 <= i < ns.len() implies (#[trigger] ns[i] matches NodeV::CustomTag(
                    t,
                    _,
                ) ==> macro_node(t, view_values(files@), depth as nat) == MacroResult::Node(ms[i]))
                    && (!(ns[i] is CustomTag) ==> ms[i] == ns[i]) by {
                    assert(reassigned(handler, before.comps()[i], doc.comps()[i]));
                    lemma_node_of(before.comps()[i]);
                }
                lemma_expand_all(ns, ms, view_values(files@), depth as nat);
            }
            Ok(doc)
        },
        Err(e) => {
            proof {
                let i = choose|i: int|
                    0 <= i < before.comps().len() && #[trigger] fails_with(handler, before.comps()[i], e)
                        && forall|j: int| 0 <= j < i ==> #[trigger] succeeds(handler, before.comps()[j]);
                lemma_node_of(before.comps()[i]);
                assert forall|j: int| 0 <= j < i implies (#[trigger] ns[j] matches NodeV::CustomTag(
                    t,
                    _,
                ) ==> macro_node(t, view_values(files@), depth as nat) is Node) by {
                    assert(succeeds(handler, before.comps()[j]));
                    lemma_node_of(before.comps()[j]);
                }
                lemma_expand_stops(ns, i, view_values(files@), depth as nat);
            }
            Err(e)
        },
    }
}

} // verus!
