//! The `include` macro.
use vstd::prelude::*;
use crate::custom::{
    body_of, error_node, include_name, link_key, macro_node, trim_quotes, trimmed_len, Interrupt,
    MacroResult, Resolved,
};
use crate::parse::component::{render_nodes, NodeV};
use crate::parse::doc::{lemma_tag_positions, tag_positions, tokens, Doc};
use crate::parse::into_doc;
use crate::parse::tag::Tag;
use crate::text::{chars_of, string_of};
use crate::util::{first_not_of, lemma_index_not_of, lemma_lookup, lemma_view_values, lookup, view_values, VecDict};

verus! {

/// `link` without the double quotes around it.
pub fn trim_link(link: &str) -> (r: String)
    ensures
        r@ == trim_quotes(link@),
{
    let chars = chars_of(link);
    let len = chars.len();
    let a = first_not_of(chars.as_slice(), '"', 0);
    proof {
        lemma_index_not_of(chars@, '"', 0);
    }
    if a >= len {
        return string_of(&chars.as_slice()[len..len]);
    }
    let mut b = len;
    proof {
        assert(chars@.subrange(0, len as int) =~= chars@);
    }
    while b > a && chars[b - 1] == '"'
        invariant
            a < len,
            a < b <= len,
            len == chars@.len(),
            chars@[a as int] != '"',
            trimmed_len(chars@) == trimmed_len(chars@.subrange(0, b as int)),
        decreases b,
    {
        proof {
            assert(chars@.subrange(0, b as int).drop_last() =~= chars@.subrange(0, b - 1));
        }
        b = b - 1;
    }
    proof {
        assert(trimmed_len(chars@.subrange(0, b as int)) == b);
    }
    string_of(&chars.as_slice()[a..b])
}

/// Whether the `<body>` positions `begin` and the `</body>` positions `end` allow a
/// body to be chosen: none of either, or exactly one of each.
pub fn validate_body_tag(begin: &Vec<usize>, end: &Vec<usize>) -> (r: bool)
    ensures
        r == ((begin@.len() == 0 && end@.len() == 0) || (begin@.len() == 1 && end@.len() == 1)),
{
    if begin.len() > 1 {
        return false;
    }
    if end.len() > 1 {
        return false;
    }
    if begin.len() == 0 && end.len() != 0 {
        return false;
    }
    if begin.len() != 0 && end.len() == 0 {
        return false;
    }
    true
}

/// The `include` macro: reads the file that `link` names (relative to the root), expands
/// it, and keeps what stands between its `<body>` and `</body>` when it has them.
/// Duplicate or unmatched body markers give `Ok(None)`, so that the error comment stands
/// in the macro's place.
pub fn run(tag: Tag, files: &VecDict<String>, depth: usize) -> (r: Result<Option<Doc>, Interrupt>)
    requires
        tag.wf(),
        files.wf(),
        tag@.name == include_name(),
    ensures
        match r {
            Ok(Some(d)) => d.wf() && macro_node(tag@, view_values(files@), depth as nat)
                == MacroResult::Node(NodeV::Pointer(render_nodes(d@))),
            Ok(None) => macro_node(tag@, view_values(files@), depth as nat) == MacroResult::Node(
                error_node(),
            ),
            Err(e) => macro_node(tag@, view_values(files@), depth as nat) == e.as_macro(),
        },
    decreases depth, 0nat,
{
    let ghost t0 = tag@;
    let ghost fv = view_values(files@);
    let mut tag = tag;
    proof {
        reveal_strlit("link");
        assert("link"@ =~= link_key());
        tag.lemma_wf();
        lemma_lookup(t0.attrs, link_key());
    }
    let link_raw = match tag.consume("link") {
        Some(v) => v,
        None => return Ok(None),
    };
    proof {
        assert(lookup(t0.attrs, link_key()) == Some(link_raw@));
    }
    if depth == 0 {
        return Ok(None);
    }
    let link = trim_link(link_raw.as_str());
    proof {
        lemma_view_values(files@, link@);
        lemma_lookup(files@, link@);
    }
    let source = match files.get(link.as_str()) {
        Some(s) => s,
        None => return Err(Interrupt::NeedFile(link)),
    };
    proof {
        assert(lookup(fv, link@) == Some(source@));
    }
    let mut linked_doc = match into_doc(source.as_str(), files, depth - 1) {
        Ok(d) => d,
        Err(e) => return Err(e),
    };
    let ghost es = linked_doc@;
    proof {
        reveal_strlit("body");
        reveal_strlit("/body");
        assert("body"@ =~= seq!['b', 'o', 'd', 'y']);
        assert("/body"@ =~= seq!['/', 'b', 'o', 'd', 'y']);
    }
    let begin = linked_doc.find_tags("body");
    let end = linked_doc.find_tags("/body");
    proof {
        lemma_tag_positions(es, seq!['b', 'o', 'd', 'y'], es.len() as int);
        lemma_tag_positions(es, seq!['/', 'b', 'o', 'd', 'y'], es.len() as int);
        assert(begin@.len() == tag_positions(es, seq!['b', 'o', 'd', 'y'], es.len() as int).len());
        assert(end@.len() == tag_positions(es, seq!['/', 'b', 'o', 'd', 'y'], es.len() as int).len());
    }
    if !validate_body_tag(&begin, &end) {
        return Ok(None);
    }
    let n = linked_doc.len();
    if begin.len() == 1 {
        proof {
            assert(begin@.map_values(|x: usize| x as int)[0] < n);
            assert(begin@.map_values(|x: usize| x as int)[0] == begin@[0] as int);
            assert(end@.map_values(|x: usize| x as int)[0] == end@[0] as int);
        }
        linked_doc.extract(begin[0] + 1..end[0]);
    }
    Ok(Some(linked_doc))
}

} // verus!
