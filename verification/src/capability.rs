use vstd::prelude::*;

use crate::builder::{builder_wf, DirectoryBuilder, node_to_builder};
use crate::directory::{node_view, node_wf, ExclusiveDirectory, SharedDirectory};
use crate::entry::DirectoryEntry;
use crate::fingerprint::{tokens_equal, Fingerprint};
use crate::model::{dir_child, encode, tree_bounded, tree_wf, view_entries, TreeView};
use crate::name::FileName;
use crate::proofs::lemma_encode_injective;

verus! {

/// The read capability of a frozen directory: enumerate children, look one
/// up by name, convert to a builder. One trait serves every concrete
/// representation, and the generic operations below are written once against
/// it, so no representation can drift in how it traverses or compares.
pub trait Directory: Sized {
    /// The tree this directory holds.
    spec fn dir_view(&self) -> TreeView;

    /// The representation's well-formedness.
    spec fn dir_wf(&self) -> bool;

    /// A well-formed directory holds a well-formed, bounded directory tree.
    proof fn lemma_wf_view(&self)
        requires
            self.dir_wf(),
        ensures
            tree_wf(self.dir_view()),
            tree_bounded(self.dir_view()),
            (self.dir_view() matches TreeView::Dir { .. }),
    ;

    /// How many direct children there are.
    fn entry_count(&self) -> (n: usize)
        requires
            self.dir_wf(),
        ensures
            n == view_entries(self.dir_view()).len(),
    ;

    /// The `i`th child in name order. Walking `0..entry_count()` enumerates
    /// one level; each child directory comes back as a shared handle, so
    /// descending costs nothing and the enumeration is repeatable.
    fn entry_at<'a>(&'a self, i: usize) -> (r: (
        &'a FileName,
        DirectoryEntry<&'a SharedDirectory, &'a Vec<u8>>,
    ))
        requires
            self.dir_wf(),
            i < view_entries(self.dir_view()).len(),
        ensures
            r.0@ == view_entries(self.dir_view())[i as int].0,
            (match r.1 {
                DirectoryEntry::Dir(d) => view_entries(self.dir_view())[i as int].1 == d@
                    && d.wf(),
                DirectoryEntry::Leaf(l) => view_entries(self.dir_view())[i as int].1 == (
                TreeView::Leaf { content: l@ }),
            }),
    ;

    /// The child named `name`; `None`, the documented absence signal, when
    /// the name is not there.
    fn get<'a>(&'a self, name: &FileName) -> (r: Option<
        DirectoryEntry<&'a SharedDirectory, &'a Vec<u8>>,
    >)
        requires
            self.dir_wf(),
        ensures
            (match r {
                None => dir_child(self.dir_view(), name@) is None,
                Some(DirectoryEntry::Dir(d)) => dir_child(self.dir_view(), name@) == Some(d@)
                    && d.wf(),
                Some(DirectoryEntry::Leaf(l)) => dir_child(self.dir_view(), name@) == Some(
                    TreeView::Leaf { content: l@ },
                ),
            }),
    ;

    /// A standalone builder holding this tree; the frozen original stays as
    /// it is, and unchanged subtrees keep their storage.
    fn to_builder(&self) -> (b: DirectoryBuilder)
        requires
            self.dir_wf(),
        ensures
            b@ == self.dir_view(),
            builder_wf(b),
    ;
}

/// The fingerprint capability, a strict refinement of [`Directory`]: every
/// reachable node exposes its content fingerprint in constant time. The
/// children handed out by `get` and `entry_at` are shared directories, which
/// carry this capability themselves, so a traversal never loses it.
pub trait FingerprintedDirectory: Directory {
    /// The fingerprint stored when this subtree was frozen; the subtree is
    /// never re-walked.
    fn fingerprint<'a>(&'a self) -> (r: &'a Fingerprint)
        requires
            self.dir_wf(),
        ensures
            r@ == encode(self.dir_view()),
    ;
}

impl Directory for SharedDirectory {
    open spec fn dir_view(&self) -> TreeView {
        node_view(*self.node)
    }

    open spec fn dir_wf(&self) -> bool {
        node_wf(*self.node)
    }

    proof fn lemma_wf_view(&self) {
    }

    fn entry_count(&self) -> (n: usize) {
        self.node.entry_count()
    }

    fn entry_at<'a>(&'a self, i: usize) -> (r: (
        &'a FileName,
        DirectoryEntry<&'a SharedDirectory, &'a Vec<u8>>,
    )) {
        self.node.entry_at(i)
    }

    fn get<'a>(&'a self, name: &FileName) -> (r: Option<
        DirectoryEntry<&'a SharedDirectory, &'a Vec<u8>>,
    >) {
        self.node.get_entry(name)
    }

    fn to_builder(&self) -> (b: DirectoryBuilder) {
        node_to_builder(&self.node)
    }
}

impl FingerprintedDirectory for SharedDirectory {
    fn fingerprint<'a>(&'a self) -> (r: &'a Fingerprint) {
        self.node.stored_fingerprint()
    }
}

impl Directory for ExclusiveDirectory {
    open spec fn dir_view(&self) -> TreeView {
        node_view(*self.node)
    }

    open spec fn dir_wf(&self) -> bool {
        node_wf(*self.node)
    }

    proof fn lemma_wf_view(&self) {
    }

    fn entry_count(&self) -> (n: usize) {
        self.node.entry_count()
    }

    fn entry_at<'a>(&'a self, i: usize) -> (r: (
        &'a FileName,
        DirectoryEntry<&'a SharedDirectory, &'a Vec<u8>>,
    )) {
        self.node.entry_at(i)
    }

    fn get<'a>(&'a self, name: &FileName) -> (r: Option<
        DirectoryEntry<&'a SharedDirectory, &'a Vec<u8>>,
    >) {
        self.node.get_entry(name)
    }

    fn to_builder(&self) -> (b: DirectoryBuilder) {
        node_to_builder(&self.node)
    }
}

impl FingerprintedDirectory for ExclusiveDirectory {
    fn fingerprint<'a>(&'a self) -> (r: &'a Fingerprint) {
        self.node.stored_fingerprint()
    }
}

/// Whether two frozen directories hold the same tree, decided by fingerprint
/// alone: constant in the size of the trees, correct by the injectivity of
/// the encoding, and written once for every pair of representations.
pub fn directories_equal<A: FingerprintedDirectory, B: FingerprintedDirectory>(a: &A, b: &B) -> (r:
    bool)
    requires
        a.dir_wf(),
        b.dir_wf(),
    ensures
        r == (a.dir_view() == b.dir_view()),
{
    let fa = a.fingerprint();
    let fb = b.fingerprint();
    let r = tokens_equal(&fa.tokens, &fb.tokens);
    proof {
        a.lemma_wf_view();
        b.lemma_wf_view();
        if r {
            lemma_encode_injective(a.dir_view(), b.dir_view());
        }
    }
    r
}

/// Equality is fingerprint equality: two well-formed frozen directories, of
/// any representations, carry equal fingerprints exactly when they hold the
/// same tree.
pub proof fn lemma_eq_iff_fingerprint_eq<A: FingerprintedDirectory, B: FingerprintedDirectory>(
    a: A,
    b: B,
)
    requires
        a.dir_wf(),
        b.dir_wf(),
    ensures
        (encode(a.dir_view()) == encode(b.dir_view())) <==> (a.dir_view() == b.dir_view()),
{
    a.lemma_wf_view();
    b.lemma_wf_view();
    if encode(a.dir_view()) == encode(b.dir_view()) {
        lemma_encode_injective(a.dir_view(), b.dir_view());
    }
}

/// Round trip: `to_builder` leaves the tree unchanged (`builder == dir`) and
/// an immediate `freeze` preserves it (`frozen == builder`) while computing
/// `encode(frozen)` as the fingerprint, so the rebuilt tree's fingerprint is
/// the original's.
pub proof fn lemma_round_trip(
    dir: TreeView,
    builder: TreeView,
    frozen: TreeView,
    fp_dir: Seq<u64>,
    fp_frozen: Seq<u64>,
)
    requires
        builder == dir,
        frozen == builder,
        fp_dir == encode(dir),
        fp_frozen == encode(frozen),
    ensures
        fp_frozen == fp_dir,
{
}

/// Frozen directories of one representation compare by fingerprint, never by
/// walking the tree.
impl PartialEq for SharedDirectory {
    fn eq(&self, other: &Self) -> (r: bool) {
        tokens_equal(&self.node.fingerprint.tokens, &other.node.fingerprint.tokens)
    }
}

impl vstd::std_specs::cmp::PartialEqSpecImpl for SharedDirectory {
    open spec fn obeys_eq_spec() -> bool {
        true
    }

    open spec fn eq_spec(&self, other: &SharedDirectory) -> bool {
        (*self.node).fingerprint@ == (*other.node).fingerprint@
    }
}

impl Eq for SharedDirectory {

}

impl PartialEq for ExclusiveDirectory {
    fn eq(&self, other: &Self) -> (r: bool) {
        tokens_equal(&self.node.fingerprint.tokens, &other.node.fingerprint.tokens)
    }
}

impl vstd::std_specs::cmp::PartialEqSpecImpl for ExclusiveDirectory {
    open spec fn obeys_eq_spec() -> bool {
        true
    }

    open spec fn eq_spec(&self, other: &ExclusiveDirectory) -> bool {
        (*self.node).fingerprint@ == (*other.node).fingerprint@
    }
}

impl Eq for ExclusiveDirectory {

}

} // verus!
