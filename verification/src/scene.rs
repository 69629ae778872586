//! The workspace document store: the scene as an opaque document shared by
//! every client, with a revision that each push bumps by one.
//!
//! Conflicts resolve last-writer-wins at document granularity: a push
//! replaces the whole document. Persisting and broadcasting the result is
//! the caller's part.

use vstd::prelude::*;

verus! {

/// The current scene document and its revision.
pub struct SceneStore<D> {
    doc: D,
    rev: u64,
}

impl<D> SceneStore<D> {
    /// The document held.
    pub closed spec fn spec_doc(&self) -> D {
        self.doc
    }

    /// Its revision: 0 for a store that never saw a push, else the number of
    /// pushes it has taken, counted from what was loaded.
    pub closed spec fn spec_rev(&self) -> u64 {
        self.rev
    }

    /// A store that starts from what was persisted, `loaded`, or, where
    /// nothing was, from `empty` at revision 0.
    pub fn new(loaded: Option<(D, u64)>, empty: D) -> (s: Self)
        ensures
            match loaded {
                Some((doc, rev)) => s.spec_doc() == doc && s.spec_rev() == rev,
                None => s.spec_doc() == empty && s.spec_rev() == 0,
            },
    {
        match loaded {
            Some((doc, rev)) => SceneStore { doc, rev },
            None => SceneStore { doc: empty, rev: 0 },
        }
    }

    /// The document held.
    pub fn doc(&self) -> (d: &D)
        ensures
            *d == self.spec_doc(),
    {
        &self.doc
    }

    /// The revision of the document held.
    pub fn rev(&self) -> (r: u64)
        ensures
            r == self.spec_rev(),
    {
        self.rev
    }

    /// Replaces the document by `doc` and returns the new revision, one more
    /// than the last.
    pub fn push(&mut self, doc: D) -> (rev: u64)
        requires
            old(self).spec_rev() < u64::MAX,
        ensures
            final(self).spec_doc() == doc,
            final(self).spec_rev() == old(self).spec_rev() + 1,
            rev == final(self).spec_rev(),
    {
        self.doc = doc;
        self.rev = self.rev + 1;
        self.rev
    }
}

} // verus!
