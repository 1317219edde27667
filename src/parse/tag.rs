//! Tags: a name followed by `key=value` attributes.
use vstd::prelude::*;
use vstd::string::*;
use crate::text::string_of;
use crate::util::{
    first_not_of, first_of, has_key, index_not_of, index_of, keys_unique, lemma_index_of,
    lemma_index_not_of, lemma_view_values, push_unique_spec, view_values, VecDict,
};

verus! {

/// What a tag holds: its name and its attributes in source order, each key once.
pub ghost struct TagV {
    pub name: Seq<char>,
    pub attrs: Seq<(Seq<char>, Seq<char>)>,
}

/// Where the value that starts at `v` ends (exclusive): a quoted value runs through
/// its closing quote, an unquoted one up to the next space or the end.
pub open spec fn value_end(r: Seq<char>, v: int) -> Option<int> {
    if v < 0 || v >= r.len() {
        None
    } else if r[v] == '"' {
        let dq = index_of(r, '"', v + 1);
        if dq >= r.len() {
            None
        } else {
            Some(dq + 1)
        }
    } else if r[v] == ' ' {
        None
    } else {
        Some(index_of(r, ' ', v))
    }
}

/// The attribute `key=value` that starts at `from`: its key, its value and where it ends.
/// A key without `=` (or with a space before it) and a `=` without a value are errors.
pub open spec fn attr_at(r: Seq<char>, from: int) -> Option<(Seq<char>, Seq<char>, int)> {
    let eq = index_of(r, '=', from);
    if eq >= r.len() || index_of(r, ' ', from) < eq {
        None
    } else {
        match value_end(r, eq + 1) {
            None => None,
            Some(to) => Some((r.subrange(from, eq), r.subrange(eq + 1, to), to)),
        }
    }
}

pub proof fn lemma_attr_at(r: Seq<char>, from: int)
    requires
        0 <= from < r.len(),
    ensures
        attr_at(r, from) matches Some(a) ==> from < a.2 <= r.len() && a.0 == r.subrange(
            from,
            index_of(r, '=', from),
        ),
{
    lemma_index_of(r, '=', from);
    lemma_index_of(r, ' ', from);
    let eq = index_of(r, '=', from);
    if eq + 1 < r.len() {
        lemma_index_of(r, '"', eq + 2);
        lemma_index_of(r, ' ', eq + 1);
    }
}

/// The attributes of `r` from position `from` on, added to `acc`; a repeated key keeps
/// its first value.
pub open spec fn parse_attrs(
    r: Seq<char>,
    from: int,
    acc: Seq<(Seq<char>, Seq<char>)>,
) -> Option<Seq<(Seq<char>, Seq<char>)>>
    decreases r.len() - from,
{
    if from < 0 || from >= r.len() {
        Some(acc)
    } else if r[from] == ' ' {
        parse_attrs(r, from + 1, acc)
    } else {
        proof {
            lemma_attr_at(r, from);
        }
        match attr_at(r, from) {
            None => None,
            Some(a) => parse_attrs(r, a.2, push_unique_spec(acc, a.0, a.1)),
        }
    }
}

/// The inside of a tag: a name up to the first space, then attributes.
pub open spec fn parse_tag(t: Seq<char>) -> Option<TagV> {
    let sp = index_of(t, ' ', 0);
    let raw = if sp < t.len() {
        t.subrange(sp + 1, t.len() as int)
    } else {
        Seq::empty()
    };
    match parse_attrs(raw, 0, Seq::empty()) {
        Some(a) => Some(TagV { name: t.subrange(0, sp), attrs: a }),
        None => None,
    }
}

/// ` key=value` for each attribute, in order.
pub open spec fn render_attrs(a: Seq<(Seq<char>, Seq<char>)>) -> Seq<char>
    decreases a.len(),
{
    if a.len() == 0 {
        Seq::empty()
    } else {
        render_attrs(a.drop_last()) + seq![' '] + a.last().0 + seq!['='] + a.last().1
    }
}

/// A tag written back: its name, then ` key=value` for each attribute.
pub open spec fn render_tag(t: TagV) -> Seq<char> {
    t.name + render_attrs(t.attrs)
}

proof fn lemma_view_attrs_push_unique(s: Seq<(Seq<char>, String)>, k: Seq<char>, v: String)
    ensures
        view_values(push_unique_spec(s, k, v)) == push_unique_spec(view_values(s), k, v@),
        keys_unique(s) <==> keys_unique(view_values(s)),
{
    lemma_view_values(s, k);
    if !has_key(s, k) {
        assert(view_values(s.push((k, v))) =~= view_values(s).push((k, v@)));
    }
}

/// Skipping spaces before an attribute changes nothing.
proof fn lemma_parse_attrs_skip(r: Seq<char>, from: int, acc: Seq<(Seq<char>, Seq<char>)>)
    requires
        0 <= from <= r.len(),
    ensures
        parse_attrs(r, from, acc) == parse_attrs(r, index_not_of(r, ' ', from), acc),
    decreases r.len() - from,
{
    if from < r.len() && r[from] == ' ' {
        lemma_parse_attrs_skip(r, from + 1, acc);
    }
}

proof fn lemma_push_unique_keeps(acc: Seq<(Seq<char>, Seq<char>)>, k: Seq<char>, v: Seq<char>)
    requires
        keys_unique(acc),
    ensures
        keys_unique(push_unique_spec(acc, k, v)),
{
    if !has_key(acc, k) {
        let r = acc.push((k, v));
        assert forall|i: int, j: int| 0 <= i < j < r.len() implies r[i].0 != r[j].0 by {
            if j == acc.len() {
                assert(acc[i].0 != k);
            }
        }
    }
}

proof fn lemma_parse_attrs_unique(r: Seq<char>, from: int, acc: Seq<(Seq<char>, Seq<char>)>)
    requires
        keys_unique(acc),
    ensures
        parse_attrs(r, from, acc) matches Some(a) ==> keys_unique(a),
    decreases r.len() - from,
{
    if 0 <= from < r.len() {
        if r[from] == ' ' {
            lemma_parse_attrs_unique(r, from + 1, acc);
        } else {
            lemma_attr_at(r, from);
            if let Some(a) = attr_at(r, from) {
                lemma_push_unique_keeps(acc, a.0, a.1);
                lemma_parse_attrs_unique(r, a.2, push_unique_spec(acc, a.0, a.1));
            }
        }
    }
}

/// A parsed tag never holds a key twice: of repeated keys the first one stays, with its
/// value, and the attributes keep their source order.
pub proof fn lemma_parsed_keys_unique(t: Seq<char>)
    ensures
        parse_tag(t) matches Some(tv) ==> keys_unique(tv.attrs),
{
    let sp = index_of(t, ' ', 0);
    let raw = if sp < t.len() {
        t.subrange(sp + 1, t.len() as int)
    } else {
        Seq::empty()
    };
    lemma_parse_attrs_unique(raw, 0, Seq::empty());
}

/// A tag written as `<inside>` at the start of `s`: the tag and where the rest begins.
pub open spec fn tag_at_start(s: Seq<char>) -> Option<(TagV, int)> {
    if s.len() > 0 && s[0] == '<' {
        let j = index_of(s, '>', 1);
        if j < s.len() {
            match parse_tag(s.subrange(1, j)) {
                Some(t) => Some((t, j + 1)),
                None => None,
            }
        } else {
            None
        }
    } else {
        None
    }
}

/// A tag: its name and its attributes in source order, each key once.
pub struct Tag {
    tag: String,
    attributes: VecDict<String>,
}

impl View for Tag {
    type V = TagV;

    closed spec fn view(&self) -> TagV {
        TagV { name: self.tag@, attrs: view_values(self.attributes@) }
    }
}

impl Tag {
    pub closed spec fn wf(&self) -> bool {
        self.attributes.wf()
    }

    pub proof fn lemma_wf(&self)
        ensures
            self.wf() ==> keys_unique(self@.attrs),
    {
        lemma_view_values(self.attributes@, Seq::empty());
    }

    /// Parses the inside of a tag (what stands between `<` and `>`, or between
    /// `<!--?` and `-->`).
    pub fn new(str_inside: &str) -> (r: Option<Self>)
        ensures
            r is Some <==> parse_tag(str_inside@) is Some,
            r matches Some(t) ==> t.wf() && Some(t@) == parse_tag(str_inside@),
    {
        let chars = crate::text::chars_of(str_inside);
        Self::from_chars(chars.as_slice())
    }

    /// Parses the tag `<...>` at the start of `str_all` and moves `str_all` past it;
    /// leaves `str_all` as it is when there is no such tag.
    pub fn new_once(str_all: &mut &str) -> (r: Option<Self>)
        ensures
            match tag_at_start(old(str_all)@) {
                Some(x) => r matches Some(t) && t.wf() && t@ == x.0 && final(str_all)@
                    == old(str_all)@.subrange(x.1, old(str_all)@.len() as int),
                None => r is None && final(str_all)@ == old(str_all)@,
            },
    {
        let s: &str = *str_all;
        let chars = crate::text::chars_of(s);
        let len = chars.len();
        if len == 0 || chars[0] != '<' {
            return None;
        }
        let j = first_of(chars.as_slice(), '>', 1);
        proof {
            lemma_index_of(chars@, '>', 1);
        }
        if j == len {
            return None;
        }
        match Self::from_chars(&chars.as_slice()[1..j]) {
            Some(t) => {
                *str_all = s.substring_char(j + 1, len);
                Some(t)
            },
            None => None,
        }
    }

    /// Parses the inside of a tag given as characters.
    pub fn from_chars(t: &[char]) -> (r: Option<Self>)
        ensures
            r is Some <==> parse_tag(t@) is Some,
            r matches Some(tg) ==> tg.wf() && Some(tg@) == parse_tag(t@),
    {
        let tlen = t.len();
        let sp = first_of(t, ' ', 0);
        proof {
            lemma_index_of(t@, ' ', 0);
        }
        let name = string_of(&t[0..sp]);
        let raw: &[char] = if sp < tlen {
            &t[sp + 1..tlen]
        } else {
            &t[tlen..tlen]
        };
        let ghost rawv = if sp < tlen {
            t@.subrange(sp + 1, tlen as int)
        } else {
            Seq::<char>::empty()
        };
        assert(raw@ =~= rawv);
        let mut res = Tag { tag: name, attributes: VecDict::new() };
        assert(view_values(res.attributes@) =~= Seq::<(Seq<char>, Seq<char>)>::empty());
        let len = raw.len();
        let mut idx = first_not_of(raw, ' ', 0);
        proof {
            lemma_index_not_of(raw@, ' ', 0);
            lemma_parse_attrs_skip(raw@, 0, Seq::empty());
        }
        while idx < len
            invariant
                len == raw@.len(),
                raw@ == rawv,
                idx <= len,
                idx < len ==> raw@[idx as int] != ' ',
                tlen == t@.len(),
                sp <= tlen,
                sp == index_of(t@, ' ', 0),
                rawv == if sp < tlen {
                    t@.subrange(sp + 1, tlen as int)
                } else {
                    Seq::<char>::empty()
                },
                res.wf(),
                res@.name == t@.subrange(0, sp as int),
                parse_attrs(rawv, 0, Seq::empty()) == parse_attrs(rawv, idx as int, res@.attrs),
            decreases len - idx,
        {
            let ghost before = res@.attrs;
            let to = match res.next_attribute(raw, idx) {
                Some(to) => to,
                None => {
                    assert(parse_attrs(rawv, idx as int, before) is None);
                    return None;
                },
            };
            idx = first_not_of(raw, ' ', to);
            proof {
                lemma_index_not_of(raw@, ' ', to as int);
                lemma_parse_attrs_skip(raw@, to as int, res@.attrs);
            }
        }
        Some(res)
    }

    /// Reads the attribute that starts at `from` and records it; returns where it ends.
    fn next_attribute(&mut self, slice: &[char], from: usize) -> (r: Option<usize>)
        requires
            old(self).wf(),
            from < slice@.len(),
            slice@[from as int] != ' ',
        ensures
            final(self).wf(),
            final(self)@.name == old(self)@.name,
            match attr_at(slice@, from as int) {
                None => r is None,
                Some(a) => r == Some(a.2 as usize) && a.2 <= slice@.len() && from < a.2
                    && final(self)@.attrs == push_unique_spec(old(self)@.attrs, a.0, a.1),
            },
    {
        let len = slice.len();
        let eq = first_of(slice, '=', from);
        let sp = first_of(slice, ' ', from);
        proof {
            lemma_attr_at(slice@, from as int);
            lemma_index_of(slice@, '=', from as int);
        }
        if eq == len || sp < eq {
            return None;
        }
        let to = match Self::end_of_value(slice, eq + 1) {
            Some(to) => to,
            None => return None,
        };
        let key = string_of(&slice[from..eq]);
        let value = string_of(&slice[eq + 1..to]);
        self.push_attribute(key, value);
        Some(to)
    }

    /// Where the value that starts at `from` ends.
    fn end_of_value(slice: &[char], from: usize) -> (r: Option<usize>)
        ensures
            r == match value_end(slice@, from as int) {
                Some(e) => Some(e as usize),
                None => None::<usize>,
            },
    {
        let len = slice.len();
        if from >= len {
            None
        } else if slice[from] == '"' {
            proof {
                lemma_index_of(slice@, '"', from + 1);
            }
            let dq = first_of(slice, '"', from + 1);
            if dq == len {
                None
            } else {
                Some(dq + 1)
            }
        } else if slice[from] == ' ' {
            None
        } else {
            proof {
                lemma_index_of(slice@, ' ', from as int);
            }
            Some(first_of(slice, ' ', from))
        }
    }

    /// Records an attribute unless its key is present already: the first value stays.
    fn push_attribute(&mut self, key: String, value: String)
        requires
            old(self).wf(),
        ensures
            final(self).wf(),
            final(self)@ == (TagV {
                name: old(self)@.name,
                attrs: push_unique_spec(old(self)@.attrs, key@, value@),
            }),
    {
        proof {
            lemma_view_attrs_push_unique(self.attributes@, key@, value);
        }
        self.attributes.push_unique(key, value);
        proof {
            lemma_view_attrs_push_unique(old(self).attributes@, key@, value);
        }
    }

    /// The tag's name.
    pub fn tag(&self) -> (r: &str)
        ensures
            r@ == self@.name,
    {
        self.tag.as_str()
    }

    /// Takes out the value of attribute `key`, leaving an empty value in its place.
    pub fn consume(&mut self, key: &str) -> (r: Option<String>)
        requires
            old(self).wf(),
        ensures
            final(self).wf(),
            final(self)@.name == old(self)@.name,
            r is None <==> !has_key(old(self)@.attrs, key@),
            r is None ==> final(self)@ == old(self)@,
            r matches Some(v) ==> exists|i: int|
                0 <= i < old(self)@.attrs.len() && old(self)@.attrs[i].0 == key@
                    && old(self)@.attrs[i].1 == v@ && final(self)@.attrs == old(
                    self,
                )@.attrs.update(i, (key@, Seq::<char>::empty())),
    {
        let ghost before = self.attributes@;
        let slot = match self.attributes.get_mut(key) {
            Some(slot) => slot,
            None => return None,
        };
        let mut dest = String::new();
        let ghost empty = dest;
        std::mem::swap(slot, &mut dest);
        proof {
            let i = choose|i: int|
                0 <= i < before.len() && before[i].0 == key@ && before[i].1 == dest
                    && self.attributes@ == before.update(i, (key@, empty));
            lemma_view_attrs_push_unique(self.attributes@, key@, dest);
            lemma_view_attrs_push_unique(before, key@, dest);
            assert(view_values(self.attributes@) =~= view_values(before).update(
                i,
                (key@, Seq::<char>::empty()),
            ));
            assert(old(self)@.attrs[i].0 == key@);
        }
        Some(dest)
    }

    /// The tag written back as `name key=value ...`.
    pub fn render(&self) -> (r: String)
        ensures
            r@ == render_tag(self@),
    {
        let entries = self.attributes.entries();
        let mut buf = self.tag.clone();
        let n = entries.len();
        let ghost a = self@.attrs;
        proof {
            assert(a.len() == n);
            assert(a.take(0) =~= Seq::<(Seq<char>, Seq<char>)>::empty());
        }
        for i in 0..n
            invariant
                n == entries@.len(),
                a == self@.attrs,
                a.len() == n,
                forall|j: int| 0 <= j < n ==> a[j] == (entries@[j].0@, entries@[j].1@),
                buf@ == self@.name + render_attrs(a.take(i as int)),
        {
            buf.append(" ");
            buf.append(entries[i].0.as_str());
            buf.append("=");
            buf.append(entries[i].1.as_str());
            proof {
                reveal_strlit(" ");
                reveal_strlit("=");
                assert(a.take(i + 1).drop_last() =~= a.take(i as int));
                assert(buf@ =~= self@.name + render_attrs(a.take(i + 1)));
            }
        }
        proof {
            assert(a.take(n as int) =~= a);
        }
        buf
    }
}

} // verus!
