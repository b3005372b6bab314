use std::rc::Rc;

use vstd::prelude::*;

use crate::entry::DirectoryEntry;
use crate::fingerprint::Fingerprint;
use crate::model::{encode, lookup, tree_bounded, tree_wf, TreeView};
use crate::name::{compare_names, FileName, NameOrder};
use crate::proofs::{lemma_lookup_absent, lemma_lookup_present};

verus! {

/// A frozen directory node: its children, strictly sorted by name, and the
/// fingerprint computed for the whole subtree when it was frozen. Child
/// directories are shared handles, so unchanged subtrees are reused across
/// trees rather than copied.
pub struct DirectoryNode {
    pub entries: Vec<(FileName, DirectoryEntry<SharedDirectory, Vec<u8>>)>,
    pub fingerprint: Fingerprint,
}

/// A frozen directory held through a shared, reference-counted handle: the
/// representation that builders produce and that subtrees are shared through.
pub struct SharedDirectory {
    pub node: Rc<DirectoryNode>,
}

/// A frozen directory held exclusively: a second concrete representation of
/// the same node type, for a tree that one owner keeps to itself.
pub struct ExclusiveDirectory {
    pub node: Box<DirectoryNode>,
}

/// The tree value of one stored entry.
pub open spec fn stored_entry_view(e: DirectoryEntry<SharedDirectory, Vec<u8>>) -> TreeView
    decreases e,
{
    match e {
        DirectoryEntry::Leaf(l) => TreeView::Leaf { content: l@ },
        DirectoryEntry::Dir(d) => TreeView::Dir {
            entries: stored_entries_view((*d.node).entries@, 0),
        },
    }
}

/// The tree values of the stored entries from index `i` on.
pub open spec fn stored_entries_view(
    es: Seq<(FileName, DirectoryEntry<SharedDirectory, Vec<u8>>)>,
    i: int,
) -> Seq<(Seq<u8>, TreeView)>
    decreases es, es.len() - i,
{
    if 0 <= i < es.len() {
        seq![(es[i].0@, stored_entry_view(es[i].1))] + stored_entries_view(es, i + 1)
    } else {
        Seq::empty()
    }
}

/// The children of a frozen node, as tree values.
pub open spec fn node_entries(n: DirectoryNode) -> Seq<(Seq<u8>, TreeView)> {
    stored_entries_view(n.entries@, 0)
}

/// The tree value of a frozen node.
pub open spec fn node_view(n: DirectoryNode) -> TreeView {
    TreeView::Dir { entries: node_entries(n) }
}

/// The stored fingerprint of one entry's subtree is its view's encoding,
/// recursively at every level.
pub open spec fn entry_fp_ok(e: DirectoryEntry<SharedDirectory, Vec<u8>>) -> bool
    decreases e,
{
    match e {
        DirectoryEntry::Leaf(_) => true,
        DirectoryEntry::Dir(d) => node_fp_ok(*d.node),
    }
}

/// `entry_fp_ok` over the entries from index `i` on.
pub open spec fn entries_fp_ok(
    es: Seq<(FileName, DirectoryEntry<SharedDirectory, Vec<u8>>)>,
    i: int,
) -> bool
    decreases es, es.len() - i,
{
    if 0 <= i < es.len() {
        entry_fp_ok(es[i].1) && entries_fp_ok(es, i + 1)
    } else {
        true
    }
}

/// The node's stored fingerprint, and every descendant's, is the encoding of
/// the subtree it was frozen from.
pub open spec fn node_fp_ok(n: DirectoryNode) -> bool
    decreases n,
{
    &&& n.fingerprint@ == encode(node_view(n))
    &&& entries_fp_ok(n.entries@, 0)
}

/// A frozen node is well formed when its value is well formed and bounded
/// and all stored fingerprints are correct.
pub open spec fn node_wf(n: DirectoryNode) -> bool {
    &&& tree_wf(node_view(n))
    &&& tree_bounded(node_view(n))
    &&& node_fp_ok(n)
}

impl View for SharedDirectory {
    type V = TreeView;

    open spec fn view(&self) -> TreeView {
        node_view(*self.node)
    }
}

impl View for ExclusiveDirectory {
    type V = TreeView;

    open spec fn view(&self) -> TreeView {
        node_view(*self.node)
    }
}

/// Index form of `stored_entries_view`: the view has one pair per stored
/// entry, each the entry's name bytes and its subtree value.
pub proof fn lemma_stored_entries_view(
    es: Seq<(FileName, DirectoryEntry<SharedDirectory, Vec<u8>>)>,
    i: int,
)
    requires
        0 <= i <= es.len(),
    ensures
        stored_entries_view(es, i).len() == es.len() - i,
        forall|k: int|
            0 <= k < es.len() - i ==> #[trigger] stored_entries_view(es, i)[k] == (
            es[i + k].0@,
            stored_entry_view(es[i + k].1),
            ),
    decreases es.len() - i,
{
    if i < es.len() {
        lemma_stored_entries_view(es, i + 1);
        assert forall|k: int|
            0 <= k < es.len() - i implies #[trigger] stored_entries_view(es, i)[k] == (
            es[i + k].0@,
            stored_entry_view(es[i + k].1),
            ) by {
            if k > 0 {
                assert(stored_entries_view(es, i)[k] == stored_entries_view(es, i + 1)[k - 1]);
            }
        }
    }
}

/// Index form of `entries_fp_ok`.
pub proof fn lemma_entries_fp_ok(
    es: Seq<(FileName, DirectoryEntry<SharedDirectory, Vec<u8>>)>,
    i: int,
)
    requires
        0 <= i <= es.len(),
    ensures
        entries_fp_ok(es, i) <==> (forall|k: int|
            i <= k < es.len() ==> entry_fp_ok(#[trigger] es[k].1)),
    decreases es.len() - i,
{
    if i < es.len() {
        lemma_entries_fp_ok(es, i + 1);
    }
}

impl DirectoryNode {
    /// How many direct children the node has.
    pub fn entry_count(&self) -> (n: usize)
        requires
            node_wf(*self),
        ensures
            n == node_entries(*self).len(),
    {
        proof {
            lemma_stored_entries_view(self.entries@, 0);
        }
        self.entries.len()
    }

    /// The `i`th child in name order: its name and a borrowed entry. Walking
    /// `0..entry_count()` enumerates the children; the enumeration is
    /// repeatable because a frozen node never changes.
    pub fn entry_at<'a>(&'a self, i: usize) -> (r: (
        &'a FileName,
        DirectoryEntry<&'a SharedDirectory, &'a Vec<u8>>,
    ))
        requires
            node_wf(*self),
            i < node_entries(*self).len(),
        ensures
            r.0@ == node_entries(*self)[i as int].0,
            (match r.1 {
                DirectoryEntry::Dir(d) => node_entries(*self)[i as int].1 == d@ && node_wf(*d.node),
                DirectoryEntry::Leaf(l) => node_entries(*self)[i as int].1 == (TreeView::Leaf {
                    content: l@,
                }),
            }),
    {
        proof {
            lemma_stored_entries_view(self.entries@, 0);
            lemma_entries_fp_ok(self.entries@, 0);
            assert(tree_wf(node_view(*self)));
            assert(node_entries(*self)[i as int].1 == stored_entry_view(self.entries@[i as int].1));
        }
        let pair = &self.entries[i];
        match &pair.1 {
            DirectoryEntry::Dir(d) => (&pair.0, DirectoryEntry::Dir(d)),
            DirectoryEntry::Leaf(l) => (&pair.0, DirectoryEntry::Leaf(l)),
        }
    }

    /// The child named `name`, or `None` when the name is absent; absence is
    /// an answer, not an error.
    pub fn get_entry<'a>(&'a self, name: &FileName) -> (r: Option<
        DirectoryEntry<&'a SharedDirectory, &'a Vec<u8>>,
    >)
        requires
            node_wf(*self),
        ensures
            (match r {
                None => lookup(node_entries(*self), name@) is None,
                Some(DirectoryEntry::Dir(d)) => lookup(node_entries(*self), name@) == Some(d@)
                    && node_wf(*d.node),
                Some(DirectoryEntry::Leaf(l)) => lookup(node_entries(*self), name@) == Some(
                    TreeView::Leaf { content: l@ },
                ),
            }),
    {
        proof {
            lemma_stored_entries_view(self.entries@, 0);
            lemma_entries_fp_ok(self.entries@, 0);
            assert(tree_wf(node_view(*self)));
        }
        let ghost ves = node_entries(*self);
        let mut i: usize = 0;
        while i < self.entries.len()
            invariant
                node_wf(*self),
                ves == node_entries(*self),
                ves.len() == self.entries@.len(),
                forall|k: int|
                    0 <= k < ves.len() ==> #[trigger] ves[k] == (
                    self.entries@[k].0@,
                    stored_entry_view(self.entries@[k].1),
                    ),
                0 <= i <= self.entries@.len(),
                forall|k: int| 0 <= k < i ==> (#[trigger] ves[k]).0 != name@,
            decreases self.entries@.len() - i,
        {
            let pair = &self.entries[i];
            match compare_names(&pair.0, name) {
                NameOrder::Same => {
                    proof {
                        lemma_lookup_present(ves, i as int);
                        lemma_entries_fp_ok(self.entries@, 0);
                    }
                    match &pair.1 {
                        DirectoryEntry::Dir(d) => {
                            proof {
                                assert(self.entries@[i as int].1
                                    == DirectoryEntry::<SharedDirectory, Vec<u8>>::Dir(*d));
                                assert(ves[i as int].1 == d@);
                                assert(tree_wf(node_view(*self)));
                                assert(tree_bounded(node_view(*self)));
                                assert(tree_wf(ves[i as int].1));
                                assert(tree_bounded(ves[i as int].1));
                                assert(entry_fp_ok(self.entries@[i as int].1));
                                assert(node_fp_ok(*d.node));
                            }
                            return Some(DirectoryEntry::Dir(d));
                        },
                        DirectoryEntry::Leaf(l) => {
                            return Some(DirectoryEntry::Leaf(l));
                        },
                    }
                },
                _ => {
                    i += 1;
                },
            }
        }
        proof {
            lemma_lookup_absent(ves, name@);
        }
        None
    }

    /// The fingerprint computed when this subtree was frozen; constant time,
    /// the subtree is never re-walked.
    pub fn stored_fingerprint<'a>(&'a self) -> (r: &'a Fingerprint)
        requires
            node_wf(*self),
        ensures
            r@ == encode(node_view(*self)),
    {
        &self.fingerprint
    }
}

/// Relies on Rc::clone: the returned handle refers to the same allocation as
/// `n`, hence holds the same node; nothing is copied.
#[verifier::external_body]
pub(crate) fn clone_node_handle(n: &Rc<DirectoryNode>) -> (r: Rc<DirectoryNode>)
    ensures
        r == *n,
{
    Rc::clone(n)
}

/// Relies on Rc::ptr_eq: it returns true only when the two handles point to
/// one allocation, in which case they hold the same node and so equal trees.
/// Which handles share an allocation is a runtime fact, so nothing more is
/// promised of the outcome.
#[verifier::external_body]
pub fn same_storage(a: &SharedDirectory, b: &SharedDirectory) -> (r: bool)
    ensures
        r ==> a@ == b@,
{
    Rc::ptr_eq(&a.node, &b.node)
}

impl SharedDirectory {
    /// Whether this frozen tree is well formed; true of everything a builder
    /// freeze produces.
    pub open spec fn wf(&self) -> bool {
        node_wf(*self.node)
    }

    /// A second handle to the same frozen tree: structural sharing, no copy.
    pub fn share(&self) -> (r: SharedDirectory)
        ensures
            r == *self,
    {
        SharedDirectory { node: clone_node_handle(&self.node) }
    }
}

impl ExclusiveDirectory {
    /// Whether this frozen tree is well formed.
    pub open spec fn wf(&self) -> bool {
        node_wf(*self.node)
    }
}

} // verus!
