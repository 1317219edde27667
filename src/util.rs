//! Character searches and a small string-keyed association list.
use vstd::prelude::*;
use crate::text::str_eq;

verus! {

/// Distance from `from` to the first `c` in `s` (or to the end of `s`).
pub open spec fn dist_to(s: Seq<char>, c: char, from: int) -> nat
    decreases s.len() - from,
{
    if from >= s.len() || s[from] == c {
        0
    } else {
        1 + dist_to(s, c, from + 1)
    }
}

/// Distance from `from` to the first character other than `c` in `s` (or to the end of `s`).
pub open spec fn dist_not(s: Seq<char>, c: char, from: int) -> nat
    decreases s.len() - from,
{
    if from >= s.len() || s[from] != c {
        0
    } else {
        1 + dist_not(s, c, from + 1)
    }
}

/// Position of the first `c` in `s` at or after `from`; `s.len()` when there is none.
pub open spec fn index_of(s: Seq<char>, c: char, from: int) -> int {
    from + dist_to(s, c, from)
}

/// Position of the first character other than `c` in `s` at or after `from`;
/// `s.len()` when there is none.
pub open spec fn index_not_of(s: Seq<char>, c: char, from: int) -> int {
    from + dist_not(s, c, from)
}

pub proof fn lemma_index_of(s: Seq<char>, c: char, from: int)
    requires
        0 <= from <= s.len(),
    ensures
        from <= index_of(s, c, from) <= s.len(),
        index_of(s, c, from) < s.len() ==> s[index_of(s, c, from)] == c,
        forall|k: int| from <= k < index_of(s, c, from) ==> s[k] != c,
    decreases s.len() - from,
{
    if from < s.len() && s[from] != c {
        lemma_index_of(s, c, from + 1);
    }
}

pub proof fn lemma_index_not_of(s: Seq<char>, c: char, from: int)
    requires
        0 <= from <= s.len(),
    ensures
        from <= index_not_of(s, c, from) <= s.len(),
        index_not_of(s, c, from) < s.len() ==> s[index_not_of(s, c, from)] != c,
        forall|k: int| from <= k < index_not_of(s, c, from) ==> s[k] == c,
    decreases s.len() - from,
{
    if from < s.len() && s[from] == c {
        lemma_index_not_of(s, c, from + 1);
    }
}

/// Index of the first `target` in `slice` at or after `from`; `slice.len()` when absent.
pub fn first_of(slice: &[char], target: char, from: usize) -> (r: usize)
    ensures
        from <= slice@.len() ==> r == index_of(slice@, target, from as int),
        from > slice@.len() ==> r == slice@.len(),
{
    let len = slice.len();
    let mut i = from;
    while i < len
        invariant
            len == slice@.len(),
            from <= i,
            from <= len ==> i <= len,
            from <= len ==> index_of(slice@, target, from as int) == index_of(slice@, target, i as int),
        decreases len - i,
    {
        if slice[i] == target {
            return i;
        }
        i = i + 1;
    }
    len
}

/// Index of the first character other than `target` in `slice` at or after `from`;
/// `slice.len()` when there is none.
pub fn first_not_of(slice: &[char], target: char, from: usize) -> (r: usize)
    ensures
        from <= slice@.len() ==> r == index_not_of(slice@, target, from as int),
        from > slice@.len() ==> r == slice@.len(),
{
    let len = slice.len();
    let mut i = from;
    while i < len
        invariant
            len == slice@.len(),
            from <= i,
            from <= len ==> i <= len,
            from <= len ==> index_not_of(slice@, target, from as int) == index_not_of(slice@, target, i as int),
        decreases len - i,
    {
        if slice[i] != target {
            return i;
        }
        i = i + 1;
    }
    len
}

/// Whether some entry of `s` has key `k`.
pub open spec fn has_key<V>(s: Seq<(Seq<char>, V)>, k: Seq<char>) -> bool {
    exists|i: int| 0 <= i < s.len() && s[i].0 == k
}

/// No two entries of `s` share a key.
pub open spec fn keys_unique<V>(s: Seq<(Seq<char>, V)>) -> bool {
    forall|i: int, j: int| 0 <= i < j < s.len() ==> s[i].0 != s[j].0
}

/// `s` with `(k, v)` appended, unless `k` is already a key of `s`.
pub open spec fn push_unique_spec<V>(s: Seq<(Seq<char>, V)>, k: Seq<char>, v: V) -> Seq<(Seq<char>, V)> {
    if has_key(s, k) {
        s
    } else {
        s.push((k, v))
    }
}

/// The first value stored under `k` in `s`.
pub open spec fn lookup<V>(s: Seq<(Seq<char>, V)>, k: Seq<char>) -> Option<V>
    decreases s.len(),
{
    if s.len() == 0 {
        None
    } else {
        match lookup(s.drop_last(), k) {
            Some(v) => Some(v),
            None => if s.last().0 == k {
                Some(s.last().1)
            } else {
                None
            },
        }
    }
}

pub proof fn lemma_lookup<V>(s: Seq<(Seq<char>, V)>, k: Seq<char>)
    ensures
        lookup(s, k) is None <==> !has_key(s, k),
        keys_unique(s) ==> forall|i: int|
            0 <= i < s.len() && s[i].0 == k ==> lookup(s, k) == Some(s[i].1),
    decreases s.len(),
{
    if s.len() > 0 {
        let t = s.drop_last();
        lemma_lookup(t, k);
        if has_key(t, k) {
            let i = choose|i: int| 0 <= i < t.len() && t[i].0 == k;
            assert(s[i].0 == k);
        }
        if has_key(s, k) && !has_key(t, k) {
            let i = choose|i: int| 0 <= i < s.len() && s[i].0 == k;
            if i < t.len() {
                assert(t[i].0 == k);
            }
        }
        if keys_unique(s) {
            assert(keys_unique(t));
        }
    }
}

/// Entries with string values seen as character sequences.
pub open spec fn view_values(s: Seq<(Seq<char>, String)>) -> Seq<(Seq<char>, Seq<char>)> {
    s.map_values(|e: (Seq<char>, String)| (e.0, e.1@))
}

pub proof fn lemma_view_values(s: Seq<(Seq<char>, String)>, k: Seq<char>)
    ensures
        has_key(s, k) <==> has_key(view_values(s), k),
        keys_unique(s) <==> keys_unique(view_values(s)),
        lookup(view_values(s), k) == match lookup(s, k) {
            Some(v) => Some(v@),
            None => None::<Seq<char>>,
        },
    decreases s.len(),
{
    let vs = view_values(s);
    if has_key(s, k) {
        let i = choose|i: int| 0 <= i < s.len() && s[i].0 == k;
        assert(vs[i].0 == k);
    }
    if has_key(vs, k) {
        let i = choose|i: int| 0 <= i < vs.len() && vs[i].0 == k;
        assert(s[i].0 == k);
    }
    assert forall|i: int, j: int| 0 <= i < j < s.len() implies (s[i].0 != s[j].0 <==> vs[i].0
        != vs[j].0) by {}
    if s.len() > 0 {
        lemma_view_values(s.drop_last(), k);
        assert(view_values(s.drop_last()) =~= vs.drop_last());
    }
}

fn entry_mut<T>(v: &mut Vec<T>, i: usize) -> (e: &mut T)
    requires
        i < old(v)@.len(),
    ensures
        *e == old(v)@[i as int],
        final(v)@ == old(v)@.update(i as int, *final(e)),
{
    &mut v[i]
}

/// An association list keyed by strings, kept in insertion order, each key once.
pub struct VecDict<V> {
    dict: Vec<(String, V)>,
}

impl<V> View for VecDict<V> {
    type V = Seq<(Seq<char>, V)>;

    closed spec fn view(&self) -> Seq<(Seq<char>, V)> {
        self.dict@.map_values(|e: (String, V)| (e.0@, e.1))
    }
}

impl<V> VecDict<V> {
    proof fn lemma_view_at(&self, i: int)
        requires
            0 <= i < self.dict@.len(),
        ensures
            self@.len() == self.dict@.len(),
            self@[i] == (self.dict@[i].0@, self.dict@[i].1),
    {
    }

    pub open spec fn wf(&self) -> bool {
        keys_unique(self@)
    }

    pub fn new() -> (r: Self)
        ensures
            r@ == Seq::<(Seq<char>, V)>::empty(),
            r.wf(),
    {
        let r = VecDict { dict: Vec::new() };
        assert(r@ =~= Seq::<(Seq<char>, V)>::empty());
        r
    }

    /// Appends `(key, value)` unless `key` is present already; the first value stays.
    pub fn push_unique(&mut self, key: String, value: V)
        requires
            old(self).wf(),
        ensures
            final(self).wf(),
            final(self)@ == push_unique_spec(old(self)@, key@, value),
    {
        if !self.contains(key.as_str()) {
            let ghost k = key@;
            self.dict.push((key, value));
            assert(self@ =~= old(self)@.push((k, value)));
        }
    }

    /// Whether `key` is present.
    pub fn contains(&self, key: &str) -> (r: bool)
        ensures
            r == has_key(self@, key@),
    {
        let len = self.dict.len();
        for i in 0..len
            invariant
                len == self@.len(),
                forall|j: int| 0 <= j < i ==> self@[j].0 != key@,
        {
            proof {
                self.lemma_view_at(i as int);
            }
            if str_eq(self.dict[i].0.as_str(), key) {
                return true;
            }
        }
        false
    }

    /// The value stored under `key`.
    pub fn get(&self, key: &str) -> (r: Option<&V>)
        ensures
            r is None <==> !has_key(self@, key@),
            r matches Some(v) ==> exists|i: int|
                0 <= i < self@.len() && self@[i].0 == key@ && self@[i].1 == *v,
    {
        let len = self.dict.len();
        for i in 0..len
            invariant
                len == self@.len(),
                forall|j: int| 0 <= j < i ==> self@[j].0 != key@,
        {
            proof {
                self.lemma_view_at(i as int);
            }
            if str_eq(self.dict[i].0.as_str(), key) {
                return Some(&self.dict[i].1);
            }
        }
        None
    }

    /// The value stored under `key`, to be changed in place.
    pub fn get_mut(&mut self, key: &str) -> (r: Option<&mut V>)
        ensures
            r is None <==> !has_key(old(self)@, key@),
            r is None ==> final(self)@ == old(self)@,
            r matches Some(v) ==> exists|i: int|
                0 <= i < old(self)@.len() && old(self)@[i].0 == key@ && old(self)@[i].1 == *v
                    && final(self)@ == old(self)@.update(i, (key@, *final(v))),
    {
        match self.position(key) {
            None => None,
            Some(i) => {
                proof {
                    self.lemma_view_at(i as int);
                    let d = self.dict@;
                    assert forall|fv: V|
                        #![trigger d.update(i as int, (d[i as int].0, fv))]
                        d.update(i as int, (d[i as int].0, fv)).map_values(
                            |e: (String, V)| (e.0@, e.1),
                        ) == self@.update(i as int, (key@, fv)) by {
                        assert(d.update(i as int, (d[i as int].0, fv)).map_values(
                            |e: (String, V)| (e.0@, e.1),
                        ) =~= self@.update(i as int, (key@, fv)));
                    }
                }
                let entry = entry_mut(&mut self.dict, i);
                Some(&mut entry.1)
            },
        }
    }

    /// Position of the entry with key `key`.
    pub fn position(&self, key: &str) -> (r: Option<usize>)
        ensures
            r is None <==> !has_key(self@, key@),
            r matches Some(i) ==> i < self@.len() && self@[i as int].0 == key@,
    {
        let len = self.dict.len();
        for i in 0..len
            invariant
                len == self@.len(),
                forall|j: int| 0 <= j < i ==> self@[j].0 != key@,
        {
            proof {
                self.lemma_view_at(i as int);
            }
            if str_eq(self.dict[i].0.as_str(), key) {
                return Some(i);
            }
        }
        None
    }

    /// The entries, in insertion order.
    pub fn entries(&self) -> (r: &Vec<(String, V)>)
        ensures
            r@.map_values(|e: (String, V)| (e.0@, e.1)) == self@,
    {
        &self.dict
    }
}

} // verus!
