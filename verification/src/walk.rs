//! What a scan of the tree yields.
use vstd::prelude::*;

verus! {

/// A single regular file discovered during a scan.
#[derive(Debug)]
pub struct Entry {
    pub path: String,
    pub size: u64,
}

pub struct EntryView {
    pub path: Seq<char>,
    pub size: u64,
}

impl View for Entry {
    type V = EntryView;

    open spec fn view(&self) -> EntryView {
        EntryView { path: self.path@, size: self.size }
    }
}

impl Entry {
    /// An equal entry.
    pub fn duplicate(&self) -> (e: Entry)
        ensures
            e@ == self@,
    {
        Entry { path: self.path.clone(), size: self.size }
    }
}

} // verus!
