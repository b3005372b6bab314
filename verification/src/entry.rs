use vstd::prelude::*;

verus! {

/// A directory's child: either a nested directory of reference type `D` or a
/// leaf carrying a payload of type `L`. The tag never changes once the entry
/// is built: no operation reinterprets a leaf as a directory.
#[derive(Debug)]
pub enum DirectoryEntry<D, L> {
    Dir(D),
    Leaf(L),
}

impl<D, L> DirectoryEntry<D, L> {
    /// Whether this entry is a directory.
    pub fn is_dir(&self) -> (r: bool)
        ensures
            r == (self matches DirectoryEntry::Dir(_)),
    {
        match self {
            DirectoryEntry::Dir(_) => true,
            DirectoryEntry::Leaf(_) => false,
        }
    }

    /// Whether this entry is a leaf.
    pub fn is_leaf(&self) -> (r: bool)
        ensures
            r == (self matches DirectoryEntry::Leaf(_)),
    {
        match self {
            DirectoryEntry::Dir(_) => false,
            DirectoryEntry::Leaf(_) => true,
        }
    }

    /// Projects the directory component through `f`, leaving a leaf and its
    /// payload untouched; total over both variants, and allocates nothing
    /// beyond what `f` itself does.
    pub fn map_dir<E, F: FnOnce(D) -> E>(self, f: F) -> (r: DirectoryEntry<E, L>)
        requires
            (self matches DirectoryEntry::Dir(d) ==> f.requires((d,))),
        ensures
            (match self {
                DirectoryEntry::Dir(d) => (r matches DirectoryEntry::Dir(e) && f.ensures(
                    (d,),
                    e,
                )),
                DirectoryEntry::Leaf(l) => r == DirectoryEntry::<E, L>::Leaf(l),
            }),
    {
        match self {
            DirectoryEntry::Dir(d) => DirectoryEntry::Dir(f(d)),
            DirectoryEntry::Leaf(l) => DirectoryEntry::Leaf(l),
        }
    }
}

} // verus!
