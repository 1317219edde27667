//! A cursor over source text that finds patterns and steps over prefixes.
use vstd::prelude::*;

verus! {

/// Whether `p` occurs in `s` at position `i`.
pub open spec fn matches_at(s: Seq<char>, i: int, p: Seq<char>) -> bool {
    0 <= i && i + p.len() <= s.len() && s.subrange(i, i + p.len()) == p
}

/// Distance from `from` to the first occurrence of `p` in `s`.
pub open spec fn find_dist(s: Seq<char>, p: Seq<char>, from: int) -> Option<nat>
    decreases s.len() + 1 - from,
{
    if from < 0 || from + p.len() > s.len() {
        None
    } else if matches_at(s, from, p) {
        Some(0)
    } else {
        match find_dist(s, p, from + 1) {
            Some(d) => Some(d + 1),
            None => None,
        }
    }
}

/// Position of the first occurrence of `p` in `s` at or after `from`.
pub open spec fn find_from(s: Seq<char>, p: Seq<char>, from: int) -> Option<int> {
    match find_dist(s, p, from) {
        Some(d) => Some(from + d),
        None => None,
    }
}

/// Distance from `from` to the first position where `p` does not occur in `s`.
pub open spec fn mismatch_dist(s: Seq<char>, p: Seq<char>, from: int) -> Option<nat>
    decreases s.len() + 1 - from,
{
    if from < 0 || from + p.len() > s.len() {
        None
    } else if !matches_at(s, from, p) {
        Some(0)
    } else {
        match mismatch_dist(s, p, from + 1) {
            Some(d) => Some(d + 1),
            None => None,
        }
    }
}

/// The first position at or after `from` where `p` does not occur in `s` (and fits).
pub open spec fn find_mismatch(s: Seq<char>, p: Seq<char>, from: int) -> Option<int> {
    match mismatch_dist(s, p, from) {
        Some(d) => Some(from + d),
        None => None,
    }
}

pub proof fn lemma_find_mismatch(s: Seq<char>, p: Seq<char>, from: int)
    requires
        0 <= from,
    ensures
        find_mismatch(s, p, from) matches Some(k) ==> from <= k && k + p.len() <= s.len()
            && !matches_at(s, k, p),
        p.len() == 0 ==> find_mismatch(s, p, from) is None,
    decreases s.len() + 1 - from,
{
    if from + p.len() <= s.len() {
        assert(p.len() == 0 ==> s.subrange(from, from + p.len()) =~= p);
        if matches_at(s, from, p) {
            lemma_find_mismatch(s, p, from + 1);
        }
    }
}

pub proof fn lemma_find_from(s: Seq<char>, p: Seq<char>, from: int)
    requires
        0 <= from,
    ensures
        find_from(s, p, from) matches Some(k) ==> from <= k && k + p.len() <= s.len()
            && matches_at(s, k, p),
        find_from(s, p, from) matches Some(k) ==> forall|j: int|
            from <= j < k ==> !matches_at(s, j, p),
        find_from(s, p, from) is None ==> forall|j: int|
            from <= j && j + p.len() <= s.len() ==> !matches_at(s, j, p),
    decreases s.len() + 1 - from,
{
    if from + p.len() <= s.len() && !matches_at(s, from, p) {
        lemma_find_from(s, p, from + 1);
    }
}

/// A cursor over source text. The window `from..end` is what is being looked at;
/// after a successful search `end` is where the match starts and `next_from` where it ends.
pub struct SourceManager<'a> {
    source: &'a [char],
    from: usize,
    end: usize,
    next_from: usize,
}

impl<'a> SourceManager<'a> {
    pub closed spec fn text(&self) -> Seq<char> {
        self.source@
    }

    pub closed spec fn from(&self) -> int {
        self.from as int
    }

    pub closed spec fn end(&self) -> int {
        self.end as int
    }

    pub closed spec fn next_from(&self) -> int {
        self.next_from as int
    }

    pub open spec fn wf(&self) -> bool {
        0 <= self.from() <= self.end() <= self.next_from() <= self.text().len()
    }

    /// Whether the window is the whole rest of the text.
    pub open spec fn fresh(&self) -> bool {
        self.end() == self.text().len() && self.next_from() == self.text().len()
    }

    /// A cursor at the start of `source`, looking at all of it.
    pub fn new(source: &'a [char]) -> (r: Self)
        ensures
            r.wf(),
            r.fresh(),
            r.text() == source@,
            r.from() == 0,
    {
        SourceManager { source, from: 0, end: source.len(), next_from: source.len() }
    }

    /// Looks for the first `bytes` inside the window; on success the window ends where it starts.
    pub fn next_at_first_of(&mut self, bytes: &[char]) -> (r: bool)
        requires
            old(self).wf(),
        ensures
            final(self).wf(),
            final(self).text() == old(self).text(),
            final(self).from() == old(self).from(),
            r == find_from(old(self).text().subrange(0, old(self).end()), bytes@, old(self).from()) is Some,
            match find_from(old(self).text().subrange(0, old(self).end()), bytes@, old(self).from()) {
                Some(k) => final(self).end() == k && final(self).next_from() == k + bytes@.len(),
                None => *final(self) == *old(self),
            },
    {
        let len = bytes.len();
        let ghost w = self.source@.subrange(0, self.end as int);
        if self.end < len {
            proof {
                lemma_find_from(w, bytes@, self.from as int);
            }
            return false;
        }
        let to = self.end - len;
        let mut i = self.from;
        while i <= to
            invariant
                self.wf(),
                *self == *old(self),
                w == self.source@.subrange(0, self.end as int),
                to + len == self.end,
                len == bytes@.len(),
                self.from <= i,
                find_from(w, bytes@, self.from as int) == find_from(w, bytes@, i as int),
            decreases to + 1 - i,
        {
            let mut j: usize = 0;
            let mut same = true;
            while j < len
                invariant
                    i + len <= self.end,
                    self.end <= self.source@.len(),
                    len == bytes@.len(),
                    j <= len,
                    same == (forall|k: int| 0 <= k < j ==> self.source@[i + k] == bytes@[k]),
                decreases len - j,
            {
                if self.source[i + j] != bytes[j] {
                    same = false;
                }
                j = j + 1;
            }
            assert(same == matches_at(w, i as int, bytes@)) by {
                if same {
                    assert(w.subrange(i as int, i + len) =~= bytes@);
                } else {
                    let k = choose|k: int| 0 <= k < len && self.source@[i + k] != bytes@[k];
                    assert(w.subrange(i as int, i + len)[k] != bytes@[k]);
                }
            }
            if same {
                self.end = i;
                self.next_from = i + len;
                return true;
            }
            i = i + 1;
        }
        proof {
            lemma_find_from(w, bytes@, i as int);
        }
        false
    }

    /// Looks for the first place inside the window where `bytes` does not occur; on
    /// success the window ends there.
    pub fn next_at_first_not_of(&mut self, bytes: &[char]) -> (r: bool)
        requires
            old(self).wf(),
        ensures
            final(self).wf(),
            final(self).text() == old(self).text(),
            final(self).from() == old(self).from(),
            r == find_mismatch(old(self).text().subrange(0, old(self).end()), bytes@, old(self).from()) is Some,
            match find_mismatch(old(self).text().subrange(0, old(self).end()), bytes@, old(self).from()) {
                Some(k) => final(self).end() == k && final(self).next_from() == k + bytes@.len(),
                None => *final(self) == *old(self),
            },
    {
        let len = bytes.len();
        let ghost w = self.source@.subrange(0, self.end as int);
        if self.end < len || len == 0 {
            proof {
                lemma_find_mismatch(w, bytes@, self.from as int);
            }
            return false;
        }
        let to = self.end - len;
        let mut i = self.from;
        while i <= to
            invariant
                self.wf(),
                *self == *old(self),
                w == self.source@.subrange(0, self.end as int),
                to + len == self.end,
                len == bytes@.len(),
                len > 0,
                self.from <= i,
                find_mismatch(w, bytes@, self.from as int) == find_mismatch(w, bytes@, i as int),
            decreases to + 1 - i,
        {
            let mut j: usize = 0;
            let mut same = true;
            while j < len
                invariant
                    i + len <= self.end,
                    self.end <= self.source@.len(),
                    len == bytes@.len(),
                    j <= len,
                    same == (forall|k: int| 0 <= k < j ==> self.source@[i + k] == bytes@[k]),
                decreases len - j,
            {
                if self.source[i + j] != bytes[j] {
                    same = false;
                }
                j = j + 1;
            }
            assert(same == matches_at(w, i as int, bytes@)) by {
                if same {
                    assert(w.subrange(i as int, i + len) =~= bytes@);
                } else {
                    let k = choose|k: int| 0 <= k < len && self.source@[i + k] != bytes@[k];
                    assert(w.subrange(i as int, i + len)[k] != bytes@[k]);
                }
            }
            if !same {
                self.end = i;
                self.next_from = i + len;
                return true;
            }
            i = i + 1;
        }
        false
    }

    /// The window `from..end`.
    pub fn window(&self) -> (r: &'a [char])
        requires
            self.wf(),
        ensures
            r@ == self.text().subrange(self.from(), self.end()),
    {
        &self.source[self.from..self.end]
    }

    /// Moves past the last match and looks at all the rest again.
    pub fn move_to_next(&mut self)
        requires
            old(self).wf(),
        ensures
            final(self).wf(),
            final(self).fresh(),
            final(self).text() == old(self).text(),
            final(self).from() == old(self).next_from(),
    {
        self.from = self.next_from;
        self.end = self.source.len();
        self.next_from = self.source.len();
    }

    /// Whether all the text has been passed.
    pub fn is_empty(&self) -> (r: bool)
        ensures
            r == (self.from() == self.text().len()),
    {
        self.from == self.source.len()
    }

    /// Steps over `bytes` when the window starts with them.
    pub fn pop_if_starts_with(&mut self, bytes: &[char]) -> (r: bool)
        requires
            old(self).wf(),
        ensures
            final(self).wf(),
            final(self).text() == old(self).text(),
            final(self).end() == old(self).end(),
            final(self).next_from() == old(self).next_from(),
            r == (old(self).from() + bytes@.len() <= old(self).end() && matches_at(
                old(self).text(),
                old(self).from(),
                bytes@,
            )),
            r ==> final(self).from() == old(self).from() + bytes@.len(),
            !r ==> *final(self) == *old(self),
    {
        let len = bytes.len();
        if self.end - self.from < len {
            return false;
        }
        let mut j: usize = 0;
        while j < len
            invariant
                *self == *old(self),
                self.wf(),
                self.from + len <= self.end,
                len == bytes@.len(),
                j <= len,
                forall|k: int| 0 <= k < j ==> self.source@[self.from + k] == bytes@[k],
            decreases len - j,
        {
            if self.source[self.from + j] != bytes[j] {
                proof {
                    let s = self.source@;
                    assert(s.subrange(self.from as int, self.from + len)[j as int] != bytes@[j as int]);
                }
                return false;
            }
            j = j + 1;
        }
        assert(self.source@.subrange(self.from as int, self.from + len) =~= bytes@);
        self.from = self.from + len;
        true
    }
}

} // verus!
