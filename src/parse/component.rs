//! The nodes of a document and how each is written back as text.
use vstd::prelude::*;
use vstd::string::*;
use crate::parse::doc::{lemma_node_of, node_of, Doc};
use crate::parse::tag::{render_tag, Tag, TagV};

verus! {

/// What a node of a document is, with a resolved macro standing as the text it expands to.
pub ghost enum NodeV {
    Text(Seq<char>),
    Comment(Seq<char>),
    CustomComment(Seq<char>),
    Tag(TagV),
    CustomTag(TagV, Seq<char>),
    DocType(Seq<char>),
    Pointer(Seq<char>),
    Null,
}

pub open spec fn comment_open() -> Seq<char> {
    seq!['<', '!', '-', '-']
}

pub open spec fn custom_open() -> Seq<char> {
    seq!['<', '!', '-', '-', '?']
}

pub open spec fn comment_close() -> Seq<char> {
    seq!['-', '-', '>']
}

/// A node written back as text.
pub open spec fn render_node(n: NodeV) -> Seq<char> {
    match n {
        NodeV::Text(t) => t,
        NodeV::Comment(c) => comment_open() + c + comment_close(),
        NodeV::CustomComment(c) => custom_open() + c + comment_close(),
        NodeV::Tag(t) => seq!['<'] + render_tag(t) + seq!['>'],
        NodeV::CustomTag(_, c) => custom_open() + c + comment_close(),
        NodeV::DocType(d) => seq!['<', '!'] + d + seq!['>'],
        NodeV::Pointer(t) => t,
        NodeV::Null => Seq::empty(),
    }
}

/// Nodes written back one after another.
pub open spec fn render_nodes(ns: Seq<NodeV>) -> Seq<char>
    decreases ns.len(),
{
    if ns.len() == 0 {
        Seq::empty()
    } else {
        render_nodes(ns.drop_last()) + render_node(ns.last())
    }
}

/// One node of a document.
pub enum Component {
    Text(String),
    Comment(String),
    CustomComment(String),
    Tag(Tag),
    /// An unresolved macro, with the text it was read from.
    CustomTag(Tag, String),
    DocType(String),
    /// A resolved macro: the document it expands to.
    Pointer(Doc),
    /// Stands in a slot only while its node is being replaced.
    Null,
}

impl View for Component {
    type V = NodeV;

    open spec fn view(&self) -> NodeV {
        node_of(*self)
    }
}

impl Component {
    /// Takes the node out, leaving `Null` in its place.
    pub fn swap_null(&mut self) -> (r: Self)
        ensures
            *final(self) is Null,
            r == *old(self),
    {
        let mut dest = Component::Null;
        std::mem::swap(self, &mut dest);
        dest
    }

    /// The node written back as text.
    pub fn render(&self) -> (r: String)
        ensures
            r@ == render_node(self@),
        decreases self,
    {
        proof {
            lemma_node_of(*self);
            reveal_strlit("<!--");
            reveal_strlit("<!--?");
            reveal_strlit("-->");
            reveal_strlit("<");
            reveal_strlit(">");
            reveal_strlit("<!");
        }
        match self {
            Component::Text(v) => v.clone(),
            Component::Comment(v) => {
                let mut s = String::from_str("<!--");
                s.append(v.as_str());
                s.append("-->");
                s
            },
            Component::CustomComment(v) => {
                let mut s = String::from_str("<!--?");
                s.append(v.as_str());
                s.append("-->");
                s
            },
            Component::Tag(t) => {
                let mut s = String::from_str("<");
                let inner = t.render();
                s.append(inner.as_str());
                s.append(">");
                s
            },
            Component::CustomTag(_, v) => {
                let mut s = String::from_str("<!--?");
                s.append(v.as_str());
                s.append("-->");
                s
            },
            Component::DocType(v) => {
                let mut s = String::from_str("<!");
                s.append(v.as_str());
                s.append(">");
                s
            },
            Component::Pointer(d) => d.render(),
            Component::Null => String::new(),
        }
    }
}

} // verus!
