//! The auto-watch project registry: which directories are in auto mode, so
//! that every new agent session there gets a goal from its first prompt.
//!
//! A human-only surface: an agent must never be able to opt a directory into
//! or out of being watched. Directories are kept in order and once each;
//! making a path canonical and persisting the set are the caller's business.

use vstd::prelude::*;

use crate::text_set::TextSet;
use crate::types::views;

verus! {

pub struct ProjectRegistry {
    dirs: TextSet,
}

impl View for ProjectRegistry {
    type V = Seq<Seq<char>>;

    closed spec fn view(&self) -> Seq<Seq<char>> {
        self.dirs@
    }
}

impl ProjectRegistry {
    pub open spec fn wf(&self) -> bool {
        crate::text_set::strictly_sorted(self@)
    }

    /// No directory registered.
    pub fn new() -> (r: ProjectRegistry)
        ensures
            r@ == Seq::<Seq<char>>::empty(),
            r.wf(),
    {
        ProjectRegistry { dirs: TextSet::new() }
    }

    /// The registered directories, in order.
    pub fn list(&self) -> (r: Vec<String>)
        ensures
            views(r@) == self@,
    {
        self.dirs.list()
    }

    /// Is `dir` registered?
    pub fn contains(&self, dir: &str) -> (r: bool)
        requires
            self.wf(),
        ensures
            r == self@.contains(dir@),
    {
        self.dirs.contains(dir)
    }

    /// Register `dir`; answers whether it was new.
    pub fn add(&mut self, dir: &str) -> (r: bool)
        requires
            old(self).wf(),
        ensures
            final(self).wf(),
            r == !old(self)@.contains(dir@),
            forall|x: Seq<char>| #[trigger] final(self)@.contains(x) == (old(self)@.contains(x) || x == dir@),
            !r ==> final(self)@ == old(self)@,
            r ==> final(self)@.len() == old(self)@.len() + 1,
    {
        self.dirs.add(dir)
    }

    /// Unregister `dir`; answers whether it was registered.
    pub fn remove(&mut self, dir: &str) -> (r: bool)
        requires
            old(self).wf(),
        ensures
            final(self).wf(),
            r == old(self)@.contains(dir@),
            forall|x: Seq<char>| #[trigger] final(self)@.contains(x) == (old(self)@.contains(x) && x != dir@),
            !r ==> final(self)@ == old(self)@,
    {
        self.dirs.remove(dir)
    }
}

} // verus!
