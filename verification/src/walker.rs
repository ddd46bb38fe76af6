use vstd::prelude::*;

use crate::state::DirMap;

verus! {

/// The directories that one walker thread has listed, kept apart from the shared
/// listing until the thread is done.
pub struct MultiVisitor {
    local_files: DirMap,
}

impl View for MultiVisitor {
    type V = Map<Seq<char>, Seq<Seq<char>>>;

    closed spec fn view(&self) -> Map<Seq<char>, Seq<Seq<char>>> {
        self.local_files@
    }
}

impl MultiVisitor {
    /// A visitor that has listed nothing yet.
    pub fn new() -> (v: Self)
        ensures
            v@ == Map::<Seq<char>, Seq<Seq<char>>>::empty(),
    {
        MultiVisitor { local_files: DirMap::new() }
    }

    /// Records one visited entry: a directory's path with the names of its entries, or
    /// nothing where the entry could not be read as a directory.
    pub fn visit(&mut self, listing: Option<(String, Vec<String>)>)
        ensures
            match listing {
                Some((path, children)) => final(self)@ == old(self)@.insert(
                    path@,
                    children.deep_view(),
                ),
                None => final(self)@ == old(self)@,
            },
    {
        match listing {
            Some((path, children)) => self.local_files.insert(path, children),
            None => {},
        }
    }

    /// Hands everything listed over to the shared listing `main`; a directory listed here
    /// replaces what `main` held for it. The visitor is left empty.
    pub fn drain_into(&mut self, main: &mut DirMap)
        ensures
            final(main)@ == old(main)@.union_prefer_right(old(self)@),
            final(self)@ == Map::<Seq<char>, Seq<Seq<char>>>::empty(),
    {
        main.append(&mut self.local_files);
    }
}

} // verus!
