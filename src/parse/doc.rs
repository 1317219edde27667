//! Documents: the tokenizer, the node sequence and its operations.
use vstd::prelude::*;
use vstd::string::*;
use crate::parse::component::{
    comment_close, comment_open, custom_open, render_node, render_nodes, Component, NodeV,
};
use crate::parse::tag::{parse_tag, Tag};
use crate::source::{find_from, lemma_find_from, matches_at, SourceManager};
use crate::text::{chars_of, str_eq, string_of};

verus! {

broadcast use vstd::std_specs::vec::group_vec_axioms, vstd::seq::group_seq_axioms;

/// What a component is, as a node.
pub closed spec fn node_of(c: Component) -> NodeV
    decreases c,
{
    match c {
        Component::Text(s) => NodeV::Text(s@),
        Component::Comment(s) => NodeV::Comment(s@),
        Component::CustomComment(s) => NodeV::CustomComment(s@),
        Component::Tag(t) => NodeV::Tag(t@),
        Component::CustomTag(t, s) => NodeV::CustomTag(t@, s@),
        Component::DocType(s) => NodeV::DocType(s@),
        Component::Pointer(d) => NodeV::Pointer(render_nodes(nodes_of(d.doc@))),
        Component::Null => NodeV::Null,
    }
}

/// What a sequence of components is, as nodes.
pub closed spec fn nodes_of(s: Seq<Component>) -> Seq<NodeV>
    decreases s,
{
    if s.len() == 0 {
        Seq::empty()
    } else {
        nodes_of(s.drop_last()).push(node_of(s.last()))
    }
}

pub proof fn lemma_nodes_of(s: Seq<Component>)
    ensures
        nodes_of(s).len() == s.len(),
        forall|i: int| 0 <= i < s.len() ==> #[trigger] nodes_of(s)[i] == node_of(s[i]),
    decreases s.len(),
{
    if s.len() > 0 {
        lemma_nodes_of(s.drop_last());
    }
}

pub proof fn lemma_node_of(c: Component)
    ensures
        node_of(c) == match c {
            Component::Text(s) => NodeV::Text(s@),
            Component::Comment(s) => NodeV::Comment(s@),
            Component::CustomComment(s) => NodeV::CustomComment(s@),
            Component::Tag(t) => NodeV::Tag(t@),
            Component::CustomTag(t, s) => NodeV::CustomTag(t@, s@),
            Component::DocType(s) => NodeV::DocType(s@),
            Component::Pointer(d) => NodeV::Pointer(render_nodes(d@)),
            Component::Null => NodeV::Null,
        },
{
}

pub proof fn lemma_nodes_of_push(s: Seq<Component>, c: Component)
    ensures
        nodes_of(s.push(c)) == nodes_of(s).push(node_of(c)),
{
    assert(s.push(c).drop_last() =~= s);
}

/// `ns` put in front of the nodes `rest`, when there are any.
pub open spec fn prepend(ns: Seq<NodeV>, rest: Option<Seq<NodeV>>) -> Option<Seq<NodeV>> {
    match rest {
        Some(r) => Some(ns + r),
        None => None,
    }
}

/// A macro's text: the macro when it reads as a tag, else a plain comment that keeps it.
pub open spec fn custom_node(c: Seq<char>) -> NodeV {
    match parse_tag(c) {
        Some(t) => NodeV::CustomTag(t, c),
        None => NodeV::CustomComment(c),
    }
}

/// The node that starts just after a `<` at `q - 1`, and where it ends.
pub open spec fn markup(s: Seq<char>, q: int) -> Option<(NodeV, int)> {
    if matches_at(s, q, seq!['!', '-', '-', '?']) {
        match find_from(s, seq!['-', '-', '>'], q + 4) {
            Some(j) => Some((custom_node(s.subrange(q + 4, j)), j + 3)),
            None => None,
        }
    } else if matches_at(s, q, seq!['!', '-', '-']) {
        match find_from(s, seq!['-', '-', '>'], q + 3) {
            Some(j) => Some((NodeV::Comment(s.subrange(q + 3, j)), j + 3)),
            None => None,
        }
    } else if matches_at(s, q, seq!['!']) {
        match find_from(s, seq!['>'], q + 1) {
            Some(j) => Some((NodeV::DocType(s.subrange(q + 1, j)), j + 1)),
            None => None,
        }
    } else {
        match find_from(s, seq!['>'], q) {
            Some(j) => match parse_tag(s.subrange(q, j)) {
                Some(t) => Some((NodeV::Tag(t), j + 1)),
                None => None,
            },
            None => None,
        }
    }
}

/// The node that starts at `pos`, and where it ends: text up to the next `<`, or markup.
pub open spec fn step(s: Seq<char>, pos: int) -> Option<(NodeV, int)> {
    match find_from(s, seq!['<'], pos) {
        None => Some((NodeV::Text(s.subrange(pos, s.len() as int)), s.len() as int)),
        Some(i) => if i > pos {
            Some((NodeV::Text(s.subrange(pos, i)), i))
        } else {
            markup(s, pos + 1)
        },
    }
}

pub proof fn lemma_step(s: Seq<char>, pos: int)
    requires
        0 <= pos < s.len(),
    ensures
        step(s, pos) matches Some(st) ==> pos < st.1 <= s.len(),
{
    let q = pos + 1;
    lemma_find_from(s, seq!['<'], pos);
    lemma_find_from(s, seq!['-', '-', '>'], q + 4);
    lemma_find_from(s, seq!['-', '-', '>'], q + 3);
    lemma_find_from(s, seq!['>'], q + 1);
    lemma_find_from(s, seq!['>'], q);
}

/// The nodes of `s` from position `pos` on; `None` when the text there is malformed.
pub open spec fn lex_from(s: Seq<char>, pos: int) -> Option<Seq<NodeV>>
    decreases s.len() - pos,
{
    if pos < 0 || pos >= s.len() {
        Some(Seq::empty())
    } else {
        proof {
            lemma_step(s, pos);
        }
        match step(s, pos) {
            None => None,
            Some(st) => prepend(seq![st.0], lex_from(s, st.1)),
        }
    }
}

/// The nodes of a source text; `None` when it is malformed.
pub open spec fn tokens(s: Seq<char>) -> Option<Seq<NodeV>> {
    lex_from(s, 0)
}

proof fn lemma_prepend_assoc(a: Seq<NodeV>, n: NodeV, rest: Option<Seq<NodeV>>)
    ensures
        prepend(a, prepend(seq![n], rest)) == prepend(a.push(n), rest),
{
    if let Some(r) = rest {
        assert(a + (seq![n] + r) =~= a.push(n) + r);
    }
}

/// Whether every tag in `s` from `pos` on is written the way the library writes it
/// back: single spaces, no repeated key, nothing after the last attribute.
pub open spec fn tags_as_written(s: Seq<char>, pos: int) -> bool
    decreases s.len() - pos,
{
    if pos < 0 || pos >= s.len() {
        true
    } else {
        proof {
            lemma_step(s, pos);
        }
        match step(s, pos) {
            None => true,
            Some(st) => (st.0 is Tag ==> render_node(st.0) == s.subrange(pos, st.1))
                && tags_as_written(s, st.1),
        }
    }
}

pub proof fn lemma_render_nodes_concat(a: Seq<NodeV>, b: Seq<NodeV>)
    ensures
        render_nodes(a + b) == render_nodes(a) + render_nodes(b),
    decreases b.len(),
{
    if b.len() == 0 {
        assert(a + b =~= a);
        assert(render_nodes(a) + Seq::<char>::empty() =~= render_nodes(a));
    } else {
        lemma_render_nodes_concat(a, b.drop_last());
        assert((a + b).drop_last() =~= a + b.drop_last());
        assert(render_nodes(a) + render_nodes(b.drop_last()) + render_node(b.last()) =~= render_nodes(
            a,
        ) + render_nodes(b));
    }
}

/// Each node read from `s` at `pos` is written back as exactly the text it was read
/// from, tags aside.
proof fn lemma_step_written(s: Seq<char>, pos: int)
    requires
        0 <= pos < s.len(),
        step(s, pos) is Some,
        !(step(s, pos).unwrap().0 is Tag),
    ensures
        render_node(step(s, pos).unwrap().0) == s.subrange(pos, step(s, pos).unwrap().1),
{
    let st = step(s, pos).unwrap();
    let q = pos + 1;
    lemma_find_from(s, seq!['<'], pos);
    lemma_find_from(s, seq!['-', '-', '>'], q + 4);
    lemma_find_from(s, seq!['-', '-', '>'], q + 3);
    lemma_find_from(s, seq!['>'], q + 1);
    if find_from(s, seq!['<'], pos) == Some(pos) {
        assert(s.subrange(pos, pos + 1)[0] == '<');
        if matches_at(s, q, seq!['!', '-', '-', '?']) {
            let j = find_from(s, seq!['-', '-', '>'], q + 4).unwrap();
            assert(s.subrange(q, q + 4)[3] == '?');
            assert(s.subrange(j, j + 3)[2] == '>');
            assert(s.subrange(pos, j + 3) =~= comment_open() + seq!['?'] + s.subrange(q + 4, j)
                + comment_close()) by {
                assert forall|i: int| 0 <= i < 4 implies #[trigger] s[q + i] == seq![
                    '!',
                    '-',
                    '-',
                    '?',
                ][i] by {
                    assert(s.subrange(q, q + 4)[i] == s[q + i]);
                }
                assert forall|i: int| 0 <= i < 3 implies #[trigger] s[j + i] == seq![
                    '-',
                    '-',
                    '>',
                ][i] by {
                    assert(s.subrange(j, j + 3)[i] == s[j + i]);
                }
            }
            assert(custom_open() =~= comment_open() + seq!['?']);
        } else if matches_at(s, q, seq!['!', '-', '-']) {
            let j = find_from(s, seq!['-', '-', '>'], q + 3).unwrap();
            assert(s.subrange(pos, j + 3) =~= comment_open() + s.subrange(q + 3, j)
                + comment_close()) by {
                assert forall|i: int| 0 <= i < 3 implies #[trigger] s[q + i] == seq![
                    '!',
                    '-',
                    '-',
                ][i] by {
                    assert(s.subrange(q, q + 3)[i] == s[q + i]);
                }
                assert forall|i: int| 0 <= i < 3 implies #[trigger] s[j + i] == seq![
                    '-',
                    '-',
                    '>',
                ][i] by {
                    assert(s.subrange(j, j + 3)[i] == s[j + i]);
                }
            }
        } else if matches_at(s, q, seq!['!']) {
            let j = find_from(s, seq!['>'], q + 1).unwrap();
            assert(s.subrange(q, q + 1)[0] == '!');
            assert(s.subrange(j, j + 1)[0] == '>');
            assert(s.subrange(pos, j + 1) =~= seq!['<', '!'] + s.subrange(q + 1, j) + seq!['>']);
        }
    }
}

proof fn lemma_lex_written(s: Seq<char>, pos: int)
    requires
        0 <= pos <= s.len(),
        lex_from(s, pos) is Some,
        tags_as_written(s, pos),
    ensures
        render_nodes(lex_from(s, pos).unwrap()) == s.subrange(pos, s.len() as int),
    decreases s.len() - pos,
{
    if pos == s.len() {
        assert(s.subrange(pos, pos) =~= Seq::<char>::empty());
    } else {
        lemma_step(s, pos);
        let st = step(s, pos).unwrap();
        lemma_lex_written(s, st.1);
        if !(st.0 is Tag) {
            lemma_step_written(s, pos);
        }
        let rest = lex_from(s, st.1).unwrap();
        lemma_render_nodes_concat(seq![st.0], rest);
        assert(seq![st.0].drop_last() =~= Seq::<NodeV>::empty());
        assert(render_nodes(Seq::<NodeV>::empty()) == Seq::<char>::empty());
        assert(Seq::<char>::empty() + render_node(st.0) =~= render_node(st.0));
        assert(render_nodes(seq![st.0]) =~= render_node(st.0));
        assert(s.subrange(pos, s.len() as int) =~= s.subrange(pos, st.1) + s.subrange(
            st.1,
            s.len() as int,
        ));
    }
}

/// Tokenizing a text whose tags are written as the library writes them, and writing the
/// nodes back, gives the text again, character for character.
pub proof fn round_trip(s: Seq<char>)
    requires
        tokens(s) is Some,
        tags_as_written(s, 0),
    ensures
        render_nodes(tokens(s).unwrap()) == s,
{
    lemma_lex_written(s, 0);
    assert(s.subrange(0, s.len() as int) =~= s);
}

/// A parsed document: its nodes in source order.
pub struct Doc {
    doc: Vec<Component>,
}

impl View for Doc {
    type V = Seq<NodeV>;

    closed spec fn view(&self) -> Seq<NodeV> {
        nodes_of(self.doc@)
    }
}

/// A component that a document may hold: no `Null`, and tags with unique keys.
pub open spec fn component_ok(c: Component) -> bool {
    match c {
        Component::Null => false,
        Component::Tag(t) => t.wf(),
        Component::CustomTag(t, _) => t.wf(),
        _ => true,
    }
}

/// Positions below `n` of the tags named `name` in `ns`, in increasing order.
pub open spec fn tag_positions(ns: Seq<NodeV>, name: Seq<char>, n: int) -> Seq<int>
    decreases n,
{
    if n <= 0 {
        Seq::empty()
    } else {
        let p = tag_positions(ns, name, n - 1);
        if ns[n - 1] is Tag && ns[n - 1]->Tag_0.name == name {
            p.push(n - 1)
        } else {
            p
        }
    }
}

pub proof fn lemma_tag_positions(ns: Seq<NodeV>, name: Seq<char>, n: int)
    requires
        0 <= n <= ns.len(),
    ensures
        forall|k: int|
            0 <= k < tag_positions(ns, name, n).len() ==> 0 <= #[trigger] tag_positions(ns, name, n)[k]
                < n,
    decreases n,
{
    if n > 0 {
        lemma_tag_positions(ns, name, n - 1);
        let p = tag_positions(ns, name, n - 1);
        assert forall|k: int| 0 <= k < tag_positions(ns, name, n).len() implies 0
            <= #[trigger] tag_positions(ns, name, n)[k] < n by {
            if k < p.len() {
                assert(tag_positions(ns, name, n)[k] == p[k]);
            }
        }
    }
}

/// The part of `ns` that a range `start..end` keeps.
pub open spec fn kept(ns: Seq<NodeV>, start: int, end: int) -> Seq<NodeV> {
    let lo = if start < ns.len() {
        start
    } else {
        ns.len() as int
    };
    let hi = if end < ns.len() {
        end
    } else {
        ns.len() as int
    };
    ns.subrange(lo, if hi < lo {
        lo
    } else {
        hi
    })
}

/// What `func` made of a macro node, or the node itself when it is no macro.
pub open spec fn reassigned<E, F: Fn(Tag) -> Result<Component, E>>(
    func: F,
    before: Component,
    after: Component,
) -> bool {
    match before {
        Component::CustomTag(t, _) => func.ensures((t,), Ok::<Component, E>(after)),
        _ => after == before,
    }
}

/// `c` is a macro node on whose tag `func` fails with `e`.
pub open spec fn fails_with<E, F: Fn(Tag) -> Result<Component, E>>(func: F, c: Component, e: E) -> bool {
    c matches Component::CustomTag(t, _) && func.ensures((t,), Err::<Component, E>(e))
}

/// `c` is no macro node, or one on whose tag `func` succeeds.
pub open spec fn succeeds<E, F: Fn(Tag) -> Result<Component, E>>(func: F, c: Component) -> bool {
    c matches Component::CustomTag(t, _) ==> exists|d: Component|
        func.ensures((t,), Ok::<Component, E>(d))
}

impl Doc {
    pub closed spec fn wf(&self) -> bool {
        forall|i: int| 0 <= i < self.doc@.len() ==> component_ok(#[trigger] self.doc@[i])
    }

    /// The components, in order.
    pub closed spec fn comps(&self) -> Seq<Component> {
        self.doc@
    }

    pub proof fn lemma_view(&self)
        ensures
            self@ == nodes_of(self.comps()),
            self@.len() == self.comps().len(),
            forall|i: int| 0 <= i < self@.len() ==> #[trigger] self@[i] == node_of(self.comps()[i]),
            self.wf() <==> forall|i: int|
                0 <= i < self.comps().len() ==> component_ok(#[trigger] self.comps()[i]),
    {
        lemma_nodes_of(self.doc@);
    }

    /// The node at position `index`.
    pub fn get(&self, index: usize) -> (r: &Component)
        requires
            index < self@.len(),
        ensures
            r@ == self@[index as int],
    {
        proof {
            lemma_nodes_of(self.doc@);
        }
        &self.doc[index]
    }

    /// The number of nodes.
    pub fn len(&self) -> (r: usize)
        ensures
            r == self@.len(),
    {
        proof {
            lemma_nodes_of(self.doc@);
        }
        self.doc.len()
    }

    /// Keeps only the nodes whose positions lie in `range`, in order.
    pub fn extract(&mut self, range: std::ops::Range<usize>)
        requires
            old(self).wf(),
        ensures
            final(self).wf(),
            final(self)@ == kept(old(self)@, range.start as int, range.end as int),
    {
        let len = self.doc.len();
        let lo = if range.start < len {
            range.start
        } else {
            len
        };
        let hi = if range.end < len {
            range.end
        } else {
            len
        };
        let hi = if hi < lo {
            lo
        } else {
            hi
        };
        self.doc.truncate(hi);
        let tail = self.doc.split_off(lo);
        self.doc = tail;
        proof {
            let o = old(self).doc@;
            assert(self.doc@ =~= o.subrange(lo as int, hi as int));
            lemma_nodes_of(o);
            lemma_nodes_of(self.doc@);
            assert(nodes_of(self.doc@) =~= nodes_of(o).subrange(lo as int, hi as int));
        }
    }

    /// Positions of the tags named `tag_name`, in increasing order; nested documents
    /// are not looked into.
    pub fn find_tags(&self, tag_name: &str) -> (r: Vec<usize>)
        ensures
            r@.map_values(|x: usize| x as int) == tag_positions(self@, tag_name@, self@.len() as int),
    {
        let mut vec: Vec<usize> = Vec::new();
        let len = self.doc.len();
        proof {
            lemma_nodes_of(self.doc@);
            assert(vec@.map_values(|x: usize| x as int) =~= Seq::<int>::empty());
        }
        for i in 0..len
            invariant
                len == self@.len(),
                len == self.doc@.len(),
                forall|j: int| 0 <= j < len ==> #[trigger] self@[j] == node_of(self.doc@[j]),
                vec@.map_values(|x: usize| x as int) == tag_positions(self@, tag_name@, i as int),
        {
            proof {
                lemma_node_of(self.doc@[i as int]);
            }
            if let Component::Tag(tag) = &self.doc[i] {
                if str_eq(tag.tag(), tag_name) {
                    vec.push(i);
                    proof {
                        assert(vec@.map_values(|x: usize| x as int) =~= tag_positions(
                            self@,
                            tag_name@,
                            i as int,
                        ).push(i as int));
                    }
                }
            }
        }
        vec
    }

    /// Replaces each macro node, in order, by what `func` makes of its tag; stops at the
    /// first macro for which `func` fails and returns that failure.
    pub fn reassign_custom<E, F: Fn(Tag) -> Result<Component, E>>(&mut self, func: F) -> (r: Result<(), E>)
        requires
            old(self).wf(),
            forall|t: Tag| t.wf() ==> #[trigger] func.requires((t,)),
            forall|t: Tag, c: Component| #[trigger] func.ensures((t,), Ok::<Component, E>(c)) ==> component_ok(c),
        ensures
            r is Ok ==> final(self).wf() && final(self).comps().len() == old(self).comps().len()
                && forall|i: int|
                0 <= i < old(self).comps().len() ==> #[trigger] reassigned(
                    func,
                    old(self).comps()[i],
                    final(self).comps()[i],
                ),
            r matches Err(e) ==> exists|i: int|
                0 <= i < old(self).comps().len() && #[trigger] fails_with(func, old(self).comps()[i], e)
                    && forall|j: int| 0 <= j < i ==> #[trigger] succeeds(func, old(self).comps()[j]),
    {
        let len = self.doc.len();
        for i in 0..len
            invariant
                len == self.doc@.len(),
                len == old(self).doc@.len(),
                forall|t: Tag| t.wf() ==> #[trigger] func.requires((t,)),
                forall|t: Tag, c: Component| #[trigger] func.ensures((t,), Ok::<Component, E>(c)) ==> component_ok(c),
                forall|j: int| 0 <= j < len ==> component_ok(#[trigger] self.doc@[j]),
                forall|j: int| 0 <= j < i ==> #[trigger] reassigned(func, old(self).doc@[j], self.doc@[j]),
                forall|j: int| 0 <= j < i ==> #[trigger] succeeds(func, old(self).doc@[j]),
                forall|j: int| i <= j < len ==> self.doc@[j] == old(self).doc@[j],
        {
            if let Component::CustomTag(_, _) = &self.doc[i] {
                let slot = self.doc[i].swap_null();
                let tag = match slot {
                    Component::CustomTag(t, _) => t,
                    _ => {
                        proof {
                            assert(false);
                        }
                        return Ok(());
                    },
                };
                match func(tag) {
                    Ok(c) => {
                        self.doc.set(i, c);
                    },
                    Err(e) => {
                        let res: Result<(), E> = Err(e);
                        proof {
                            let ii = i as int;
                            assert(old(self).doc@[ii] matches Component::CustomTag(t, _) && t == tag);
                            assert(0 <= ii < old(self).comps().len() && fails_with(
                                func,
                                old(self).comps()[ii],
                                res->Err_0,
                            ) && forall|j: int|
                                0 <= j < ii ==> #[trigger] succeeds(func, old(self).comps()[j]));
                        }
                        return res;
                    },
                }
            }
        }
        Ok(())
    }

    /// Tokenizes `source`; `None` when it holds an unterminated comment, doctype or tag,
    /// or a tag whose attributes are malformed.
    pub fn new(source: &str) -> (r: Option<Self>)
        ensures
            r is Some <==> tokens(source@) is Some,
            r matches Some(d) ==> d.wf() && Some(d@) == tokens(source@),
    {
        let chars = chars_of(source);
        let ghost sv = source@;
        let n = chars.len();
        let lt = vec!['<'];
        assert(lt@ =~= seq!['<']);
        let mut res: Vec<Component> = Vec::new();
        let mut src = SourceManager::new(chars.as_slice());
        assert(sv.subrange(0, n as int) =~= sv);
        proof {
            assert(nodes_of(res@) =~= Seq::<NodeV>::empty());
            if let Some(t) = lex_from(sv, 0) {
                assert(Seq::<NodeV>::empty() + t =~= t);
            }
        }
        while !src.is_empty()
            invariant
                src.wf(),
                src.fresh(),
                src.text() == sv,
                sv == source@,
                n == sv.len(),
                sv.subrange(0, n as int) == sv,
                lt@ == seq!['<'],
                forall|i: int| 0 <= i < res@.len() ==> component_ok(#[trigger] res@[i]),
                lex_from(sv, 0) == prepend(nodes_of(res@), lex_from(sv, src.from())),
            ensures
                src.from() == n,
                lex_from(sv, 0) == prepend(nodes_of(res@), lex_from(sv, src.from())),
                forall|i: int| 0 <= i < res@.len() ==> component_ok(#[trigger] res@[i]),
            decreases n - src.from(),
        {
            let ghost pos = src.from();
            let found = src.next_at_first_of(lt.as_slice());
            let text = src.window();
            let ghost k = src.end();
            proof {
                lemma_find_from(sv, seq!['<'], pos);
                lemma_step(sv, pos);
            }
            if text.len() > 0 {
                let c = Component::Text(string_of(text));
                proof {
                    lemma_node_of(c);
                    lemma_nodes_of_push(res@, c);
                    lemma_prepend_assoc(nodes_of(res@), node_of(c), lex_from(sv, k));
                }
                res.push(c);
            }
            src.move_to_next();
            if !found {
                assert(src.from() == n);
                break;
            }
            proof {
                lemma_step(sv, k);
                lemma_find_from(sv, seq!['<'], k);
                assert(find_from(sv, seq!['<'], k) == Some(k));
                assert(step(sv, k) == markup(sv, k + 1));
                assert(lex_from(sv, 0) == prepend(nodes_of(res@), lex_from(sv, k)));
            }
            let c = match Self::read_markup(&mut src) {
                Some(c) => c,
                None => {
                    assert(lex_from(sv, k) is None);
                    return None;
                },
            };
            proof {
                lemma_nodes_of_push(res@, c);
                lemma_prepend_assoc(nodes_of(res@), node_of(c), lex_from(sv, src.from()));
            }
            res.push(c);
        }
        proof {
            let ns = nodes_of(res@);
            assert(lex_from(sv, src.from()) == Some(Seq::<NodeV>::empty()));
            assert(ns + Seq::<NodeV>::empty() =~= ns);
        }
        Some(Doc { doc: res })
    }

    /// Reads the comment, macro, doctype or tag that starts at the cursor, just after a `<`.
    fn read_markup(src: &mut SourceManager) -> (r: Option<Component>)
        requires
            old(src).wf(),
            old(src).fresh(),
        ensures
            final(src).text() == old(src).text(),
            match markup(old(src).text(), old(src).from()) {
                None => r is None,
                Some(st) => r matches Some(c) && node_of(c) == st.0 && component_ok(c)
                    && final(src).from() == st.1 && final(src).wf() && final(src).fresh(),
            },
    {
        let ghost sv = src.text();
        let ghost q = src.from();
        let gt = vec!['>'];
        let bang = vec!['!'];
        let open_custom = vec!['!', '-', '-', '?'];
        let open_comment = vec!['!', '-', '-'];
        let close_comment = vec!['-', '-', '>'];
        assert(gt@ =~= seq!['>']);
        assert(bang@ =~= seq!['!']);
        assert(open_custom@ =~= seq!['!', '-', '-', '?']);
        assert(open_comment@ =~= seq!['!', '-', '-']);
        assert(close_comment@ =~= seq!['-', '-', '>']);
        assert(sv.subrange(0, sv.len() as int) =~= sv);
        let c = if src.pop_if_starts_with(open_custom.as_slice()) {
            if !src.next_at_first_of(close_comment.as_slice()) {
                return None;
            }
            let content = src.window();
            match Tag::from_chars(content) {
                Some(t) => Component::CustomTag(t, string_of(content)),
                None => Component::CustomComment(string_of(content)),
            }
        } else if src.pop_if_starts_with(open_comment.as_slice()) {
            if !src.next_at_first_of(close_comment.as_slice()) {
                return None;
            }
            Component::Comment(string_of(src.window()))
        } else if src.pop_if_starts_with(bang.as_slice()) {
            if !src.next_at_first_of(gt.as_slice()) {
                return None;
            }
            Component::DocType(string_of(src.window()))
        } else {
            if !src.next_at_first_of(gt.as_slice()) {
                return None;
            }
            match Tag::from_chars(src.window()) {
                Some(t) => Component::Tag(t),
                None => return None,
            }
        };
        proof {
            lemma_node_of(c);
        }
        src.move_to_next();
        Some(c)
    }

    /// The document written back as text, nested documents in place.
    pub fn render(&self) -> (r: String)
        ensures
            r@ == render_nodes(self@),
        decreases self,
    {
        let mut buf = String::new();
        let n = self.doc.len();
        let ghost ns = self@;
        proof {
            lemma_nodes_of(self.doc@);
            assert(ns.take(0) =~= Seq::<NodeV>::empty());
        }
        for i in 0..n
            invariant
                n == self.doc@.len(),
                ns == self@,
                ns.len() == n,
                forall|j: int| 0 <= j < n ==> ns[j] == node_of(#[trigger] self.doc@[j]),
                buf@ == render_nodes(ns.take(i as int)),
        {
            let piece = self.doc[i].render();
            buf.append(piece.as_str());
            proof {
                assert(ns.take(i + 1).drop_last() =~= ns.take(i as int));
            }
        }
        proof {
            assert(ns.take(n as int) =~= ns);
        }
        buf
    }
}

} // verus!
