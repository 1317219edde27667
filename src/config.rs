//! A compilation: the root source and the cache of linked files.
use vstd::prelude::*;
use crate::custom::{expand_source, lemma_never_requested, Interrupt, Resolved};
use crate::parse::doc::Doc;
use crate::parse::into_doc;
use crate::util::{has_key, lemma_lookup, lemma_view_values, lookup, push_unique_spec, view_values, VecDict};

verus! {

/// How deep inclusions may nest; a macro nested deeper becomes the error comment, so a
/// file that includes itself cannot recurse without end.
pub const MAX_DEPTH: usize = 32;

/// A compilation: the root source and the text of each linked file read so far, by its
/// path relative to the root. Each file is stored once and never changed.
pub struct Config {
    root: String,
    src: VecDict<String>,
}

impl Config {
    pub closed spec fn root(&self) -> Seq<char> {
        self.root@
    }

    /// The cached files: path relative to the root, then text.
    pub closed spec fn files(&self) -> Seq<(Seq<char>, Seq<char>)> {
        view_values(self.src@)
    }

    pub closed spec fn wf(&self) -> bool {
        self.src.wf()
    }

    /// A compilation of the root source `source`, with no file read yet.
    pub fn new(source: String) -> (r: Self)
        ensures
            r.wf(),
            r.root() == source@,
            r.files() == Seq::<(Seq<char>, Seq<char>)>::empty(),
    {
        let r = Config { root: source, src: VecDict::new() };
        assert(r.files() =~= Seq::<(Seq<char>, Seq<char>)>::empty());
        r
    }

    /// The cached text of the file at `path` (relative to the root), if it was read.
    pub fn read_relative(&self, path: &str) -> (r: Option<&String>)
        requires
            self.wf(),
        ensures
            r is None ==> lookup(self.files(), path@) is None,
            r matches Some(t) ==> lookup(self.files(), path@) == Some(t@),
    {
        proof {
            lemma_view_values(self.src@, path@);
            lemma_lookup(self.src@, path@);
        }
        self.src.get(path)
    }

    /// Stores the text of the file at `path`; a path already stored keeps its first text.
    pub fn insert_file(&mut self, path: String, text: String)
        requires
            old(self).wf(),
        ensures
            final(self).wf(),
            final(self).root() == old(self).root(),
            final(self).files() == push_unique_spec(old(self).files(), path@, text@),
            has_key(final(self).files(), path@),
    {
        proof {
            lemma_view_values(self.src@, path@);
        }
        let ghost p = path@;
        let ghost tv = text@;
        self.src.push_unique(path, text);
        proof {
            lemma_view_values(self.src@, p);
            let o = old(self).src@;
            if !has_key(o, p) {
                assert(view_values(o.push((p, text))) =~= view_values(o).push((p, tv)));
                assert(self.files()[self.files().len() - 1].0 == p);
            }
        }
    }

    /// Compiles the root source with the files read so far: the expanded document, or
    /// the file that must be read next (never one already stored), or `Malformed`.
    pub fn compile(&self) -> (r: Result<Doc, Interrupt>)
        requires
            self.wf(),
        ensures
            match r {
                Ok(d) => d.wf() && expand_source(self.root(), self.files(), MAX_DEPTH as nat)
                    == Resolved::Nodes(d@),
                Err(e) => expand_source(self.root(), self.files(), MAX_DEPTH as nat) == e.resolved(),
            },
            r matches Err(Interrupt::NeedFile(p)) ==> !has_key(self.files(), p@),
    {
        let r = into_doc(self.root.as_str(), &self.src, MAX_DEPTH);
        proof {
            if r is Err && r->Err_0 is NeedFile {
                let q = r->Err_0->NeedFile_0;
                if has_key(self.files(), q@) {
                    lemma_never_requested(self.root(), self.files(), MAX_DEPTH as nat, q@);
                }
            }
        }
        r
    }
}

} // verus!
