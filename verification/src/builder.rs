use vstd::prelude::*;

use crate::directory::{
    entry_fp_ok, lemma_entries_fp_ok, lemma_stored_entries_view, node_entries, node_fp_ok,
    node_view, node_wf, stored_entry_view, DirectoryNode, SharedDirectory,
};
use crate::entry::DirectoryEntry;
use crate::error::DirectoryError;
use crate::model::{
    lookup, names_view, seq_insert, seq_remove, tree_bounded, tree_insert, tree_wf, TreeView,
};
use crate::name::{compare_names, lex_lt, FileName, NameOrder};
use crate::proofs::{
    lemma_lookup_absent, lemma_lookup_present, lemma_seq_insert, lemma_seq_insert_found,
    lemma_seq_insert_fresh, lemma_seq_remove, lemma_seq_remove_found,
};

verus! {

/// A directory child of a tree under construction: either a nested builder
/// that can still be edited, or an already frozen subtree reused by handle.
/// Frozen children are what make rebuilding cheap: editing below one copies
/// only that one level, everything untouched stays shared.
pub enum BuilderDir {
    Mutable(Box<DirectoryBuilder>),
    Shared(SharedDirectory),
}

/// A mutable tree under construction: children can be inserted, replaced and
/// removed at any depth, other builders can be merged in, and `freeze` turns
/// the result into an immutable fingerprinted tree. A builder is exclusively
/// owned; only the frozen result is shared.
pub struct DirectoryBuilder {
    pub entries: Vec<(FileName, DirectoryEntry<BuilderDir, Vec<u8>>)>,
}

/// The tree value of one builder entry.
pub open spec fn builder_entry_view(e: DirectoryEntry<BuilderDir, Vec<u8>>) -> TreeView
    decreases e,
{
    match e {
        DirectoryEntry::Leaf(l) => TreeView::Leaf { content: l@ },
        DirectoryEntry::Dir(BuilderDir::Mutable(b)) => TreeView::Dir {
            entries: builder_entries_view((*b).entries@, 0),
        },
        DirectoryEntry::Dir(BuilderDir::Shared(d)) => node_view(*d.node),
    }
}

/// The tree values of the builder entries from index `i` on.
pub open spec fn builder_entries_view(
    es: Seq<(FileName, DirectoryEntry<BuilderDir, Vec<u8>>)>,
    i: int,
) -> Seq<(Seq<u8>, TreeView)>
    decreases es, es.len() - i,
{
    if 0 <= i < es.len() {
        seq![(es[i].0@, builder_entry_view(es[i].1))] + builder_entries_view(es, i + 1)
    } else {
        Seq::empty()
    }
}

/// The children of a builder, as tree values.
pub open spec fn builder_entries(b: DirectoryBuilder) -> Seq<(Seq<u8>, TreeView)> {
    builder_entries_view(b.entries@, 0)
}

impl View for DirectoryBuilder {
    type V = TreeView;

    open spec fn view(&self) -> TreeView {
        TreeView::Dir { entries: builder_entries(*self) }
    }
}

/// Every frozen subtree embedded in a builder entry is a well-formed node.
pub open spec fn builder_entry_wf(e: DirectoryEntry<BuilderDir, Vec<u8>>) -> bool
    decreases e,
{
    match e {
        DirectoryEntry::Leaf(_) => true,
        DirectoryEntry::Dir(BuilderDir::Mutable(b)) => builder_entries_wf((*b).entries@, 0),
        DirectoryEntry::Dir(BuilderDir::Shared(d)) => node_fp_ok(*d.node) && tree_bounded(
            node_view(*d.node),
        ),
    }
}

/// `builder_entry_wf` over the entries from index `i` on.
pub open spec fn builder_entries_wf(
    es: Seq<(FileName, DirectoryEntry<BuilderDir, Vec<u8>>)>,
    i: int,
) -> bool
    decreases es, es.len() - i,
{
    if 0 <= i < es.len() {
        builder_entry_wf(es[i].1) && builder_entries_wf(es, i + 1)
    } else {
        true
    }
}

/// A builder is well formed when its value is a well-formed tree and every
/// embedded frozen subtree is a well-formed node.
pub open spec fn builder_wf(b: DirectoryBuilder) -> bool {
    &&& tree_wf(b@)
    &&& builder_entries_wf(b.entries@, 0)
}

/// Index form of `builder_entries_view`.
pub proof fn lemma_builder_entries_view(
    es: Seq<(FileName, DirectoryEntry<BuilderDir, Vec<u8>>)>,
    i: int,
)
    requires
        0 <= i <= es.len(),
    ensures
        builder_entries_view(es, i).len() == es.len() - i,
        forall|k: int|
            0 <= k < es.len() - i ==> #[trigger] builder_entries_view(es, i)[k] == (
            es[i + k].0@,
            builder_entry_view(es[i + k].1),
            ),
    decreases es.len() - i,
{
    if i < es.len() {
        lemma_builder_entries_view(es, i + 1);
        assert forall|k: int|
            0 <= k < es.len() - i implies #[trigger] builder_entries_view(es, i)[k] == (
            es[i + k].0@,
            builder_entry_view(es[i + k].1),
            ) by {
            if k > 0 {
                assert(builder_entries_view(es, i)[k] == builder_entries_view(es, i + 1)[k - 1]);
            }
        }
    }
}

/// Index form of `builder_entries_wf`, in both directions.
pub proof fn lemma_builder_entries_wf(
    es: Seq<(FileName, DirectoryEntry<BuilderDir, Vec<u8>>)>,
    i: int,
)
    requires
        0 <= i <= es.len(),
    ensures
        builder_entries_wf(es, i) <==> (forall|k: int|
            i <= k < es.len() ==> builder_entry_wf(#[trigger] es[k].1)),
    decreases es.len() - i,
{
    if i < es.len() {
        lemma_builder_entries_wf(es, i + 1);
    }
}

/// The tree value of an entry handed to `insert`.
pub open spec fn inserted_entry_view(e: DirectoryEntry<DirectoryBuilder, Vec<u8>>) -> TreeView {
    match e {
        DirectoryEntry::Leaf(l) => TreeView::Leaf { content: l@ },
        DirectoryEntry::Dir(b) => b@,
    }
}

/// Well-formedness of an entry handed to `insert`.
pub open spec fn inserted_entry_wf(e: DirectoryEntry<DirectoryBuilder, Vec<u8>>) -> bool {
    match e {
        DirectoryEntry::Leaf(_) => true,
        DirectoryEntry::Dir(b) => builder_wf(b),
    }
}

/// All names of a path are validated.
pub open spec fn path_wf(path: Seq<FileName>) -> bool {
    forall|k: int| 0 <= k < path.len() ==> (#[trigger] path[k]).wf()
}

/// Wraps an inserted entry for storage in a builder.
fn wrap_entry(e: DirectoryEntry<DirectoryBuilder, Vec<u8>>) -> (r: DirectoryEntry<
    BuilderDir,
    Vec<u8>,
>)
    ensures
        builder_entry_view(r) == inserted_entry_view(e),
        inserted_entry_wf(e) ==> builder_entry_wf(r),
{
    match e {
        DirectoryEntry::Leaf(l) => DirectoryEntry::Leaf(l),
        DirectoryEntry::Dir(b) => DirectoryEntry::Dir(BuilderDir::Mutable(Box::new(b))),
    }
}

/// An independent copy of a leaf payload.
fn copy_bytes(v: &Vec<u8>) -> (r: Vec<u8>)
    ensures
        r@ == v@,
{
    let mut r: Vec<u8> = Vec::new();
    let mut i: usize = 0;
    while i < v.len()
        invariant
            0 <= i <= v@.len(),
            r@ == v@.subrange(0, i as int),
        decreases v@.len() - i,
    {
        r.push(v[i]);
        proof {
            assert(r@ =~= v@.subrange(0, i + 1));
        }
        i += 1;
    }
    proof {
        assert(r@ =~= v@);
    }
    r
}

impl DirectoryBuilder {
    /// A builder with no children.
    pub fn empty() -> (b: DirectoryBuilder)
        ensures
            b@ == (TreeView::Dir { entries: Seq::<(Seq<u8>, TreeView)>::empty() }),
            builder_wf(b),
    {
        let b = DirectoryBuilder { entries: Vec::new() };
        proof {
            assert(builder_entries(b) =~= Seq::<(Seq<u8>, TreeView)>::empty());
        }
        b
    }

    /// Where `name` sits among the sorted entries: the index of the entry of
    /// that name when present, else the index at which it would be inserted.
    fn find_slot(&self, name: &FileName) -> (r: (usize, bool))
        requires
            builder_wf(*self),
        ensures
            r.0 <= builder_entries(*self).len(),
            builder_entries(*self).len() == self.entries@.len(),
            r.1 ==> r.0 < builder_entries(*self).len() && builder_entries(*self)[r.0 as int].0
                == name@,
            forall|k: int|
                0 <= k < r.0 ==> lex_lt(#[trigger] builder_entries(*self)[k].0, name@),
            !r.1 && r.0 < builder_entries(*self).len() ==> lex_lt(
                name@,
                builder_entries(*self)[r.0 as int].0,
            ),
    {
        proof {
            lemma_builder_entries_view(self.entries@, 0);
        }
        let ghost ves = builder_entries(*self);
        let mut i: usize = 0;
        while i < self.entries.len()
            invariant
                builder_wf(*self),
                ves == builder_entries(*self),
                ves.len() == self.entries@.len(),
                forall|k: int|
                    0 <= k < ves.len() ==> #[trigger] ves[k] == (
                    self.entries@[k].0@,
                    builder_entry_view(self.entries@[k].1),
                    ),
                0 <= i <= self.entries@.len(),
                forall|k: int| 0 <= k < i ==> lex_lt((#[trigger] ves[k]).0, name@),
            decreases self.entries@.len() - i,
        {
            match compare_names(&self.entries[i].0, name) {
                NameOrder::Before => {
                    i += 1;
                },
                NameOrder::Same => {
                    return (i, true);
                },
                NameOrder::After => {
                    return (i, false);
                },
            }
        }
        (i, false)
    }
}

} // verus!

verus! {

/// A builder entry is a leaf value exactly when the stored entry is a leaf.
proof fn lemma_builder_entry_kind(e: DirectoryEntry<BuilderDir, Vec<u8>>)
    ensures
        (builder_entry_view(e) matches TreeView::Leaf { .. }) <==> (e matches DirectoryEntry::Leaf(
            _,
        )),
{
    match e {
        DirectoryEntry::Leaf(_) => {},
        DirectoryEntry::Dir(BuilderDir::Mutable(_)) => {},
        DirectoryEntry::Dir(BuilderDir::Shared(_)) => {},
    }
}

/// An inserted entry is a leaf value exactly when it is a leaf.
proof fn lemma_inserted_entry_kind(e: DirectoryEntry<DirectoryBuilder, Vec<u8>>)
    ensures
        (inserted_entry_view(e) matches TreeView::Leaf { .. }) <==> (e
            matches DirectoryEntry::Leaf(_)),
{
    match e {
        DirectoryEntry::Leaf(_) => {},
        DirectoryEntry::Dir(_) => {},
    }
}

/// Replacing the entry at `idx` by one of the same name: the children change
/// exactly as `seq_insert` says, and well-formedness is preserved.
proof fn lemma_store_replace(
    es: Seq<(FileName, DirectoryEntry<BuilderDir, Vec<u8>>)>,
    idx: int,
    pair: (FileName, DirectoryEntry<BuilderDir, Vec<u8>>),
)
    requires
        0 <= idx < es.len(),
        pair.0@ == builder_entries_view(es, 0)[idx].0,
        tree_wf(TreeView::Dir { entries: builder_entries_view(es, 0) }),
        builder_entries_wf(es, 0),
        builder_entry_wf(pair.1),
        tree_wf(builder_entry_view(pair.1)),
    ensures
        builder_entries_view(es.update(idx, pair), 0) == seq_insert(
            builder_entries_view(es, 0),
            pair.0@,
            builder_entry_view(pair.1),
        ),
        tree_wf(TreeView::Dir { entries: builder_entries_view(es.update(idx, pair), 0) }),
        builder_entries_wf(es.update(idx, pair), 0),
{
    let ves = builder_entries_view(es, 0);
    let v = builder_entry_view(pair.1);
    let nes = es.update(idx, pair);
    lemma_builder_entries_view(es, 0);
    lemma_builder_entries_view(nes, 0);
    lemma_seq_insert_found(ves, pair.0@, v, idx);
    assert(builder_entries_view(nes, 0) =~= ves.update(idx, (pair.0@, v)));
    lemma_builder_entries_wf(es, 0);
    lemma_builder_entries_wf(nes, 0);
}

/// Placing a fresh entry at its sorted slot `idx`: the children change
/// exactly as `seq_insert` says, the name was absent, and well-formedness is
/// preserved.
proof fn lemma_store_fresh(
    es: Seq<(FileName, DirectoryEntry<BuilderDir, Vec<u8>>)>,
    idx: int,
    pair: (FileName, DirectoryEntry<BuilderDir, Vec<u8>>),
)
    requires
        0 <= idx <= es.len(),
        forall|k: int| 0 <= k < idx ==> lex_lt(#[trigger] builder_entries_view(es, 0)[k].0, pair.0@),
        idx < es.len() ==> lex_lt(pair.0@, builder_entries_view(es, 0)[idx].0),
        tree_wf(TreeView::Dir { entries: builder_entries_view(es, 0) }),
        builder_entries_wf(es, 0),
        builder_entry_wf(pair.1),
        tree_wf(builder_entry_view(pair.1)),
        crate::name::valid_name(pair.0@),
    ensures
        lookup(builder_entries_view(es, 0), pair.0@) is None,
        builder_entries_view(es.insert(idx, pair), 0) == seq_insert(
            builder_entries_view(es, 0),
            pair.0@,
            builder_entry_view(pair.1),
        ),
        tree_wf(TreeView::Dir { entries: builder_entries_view(es.insert(idx, pair), 0) }),
        builder_entries_wf(es.insert(idx, pair), 0),
{
    let ves = builder_entries_view(es, 0);
    let v = builder_entry_view(pair.1);
    let name = pair.0@;
    let nes = es.insert(idx, pair);
    lemma_builder_entries_view(es, 0);
    lemma_builder_entries_view(nes, 0);
    assert forall|k: int| 0 <= k < ves.len() implies (#[trigger] ves[k]).0 != name by {
        if k < idx {
            crate::name::lemma_lex_neq(ves[k].0, name);
        } else {
            if k > idx {
                crate::name::lemma_lex_trans(name, ves[idx].0, ves[k].0);
            }
            crate::name::lemma_lex_neq(name, ves[k].0);
        }
    }
    lemma_lookup_absent(ves, name);
    lemma_seq_insert_fresh(ves, name, v, idx);
    assert(builder_entries_view(nes, 0) =~= ves.insert(idx, (name, v)));
    let sres = seq_insert(ves, name, v);
    lemma_seq_insert(ves, name, v);
    assert forall|k: int| 0 <= k < sres.len() implies crate::name::valid_name(
        (#[trigger] sres[k]).0,
    ) && tree_wf(sres[k].1) by {
        if sres[k] != (name, v) {
            assert(ves.contains(sres[k]));
            let w = choose|w: int| 0 <= w < ves.len() && ves[w] == sres[k];
            assert(crate::name::valid_name(ves[w].0));
            assert(tree_wf(ves[w].1));
        }
    }
    lemma_builder_entries_wf(es, 0);
    lemma_builder_entries_wf(nes, 0);
    assert forall|k: int| 0 <= k < nes.len() implies builder_entry_wf(#[trigger] nes[k].1) by {
        if k < idx {
            assert(nes[k] == es[k]);
        } else if k > idx {
            assert(nes[k] == es[k - 1]);
        }
    }
}

/// A standalone builder holding the frozen node's tree: leaf payloads are
/// copied, child directories are taken over as shared handles, so only one
/// level is materialised and every subtree keeps its storage.
pub fn node_to_builder(n: &DirectoryNode) -> (b: DirectoryBuilder)
    requires
        node_wf(*n),
    ensures
        b@ == node_view(*n),
        builder_wf(b),
{
    proof {
        lemma_stored_entries_view(n.entries@, 0);
        lemma_entries_fp_ok(n.entries@, 0);
    }
    let ghost ves = node_entries(*n);
    let mut entries: Vec<(FileName, DirectoryEntry<BuilderDir, Vec<u8>>)> = Vec::new();
    let mut i: usize = 0;
    while i < n.entries.len()
        invariant
            node_wf(*n),
            ves == node_entries(*n),
            ves.len() == n.entries@.len(),
            forall|k: int|
                0 <= k < ves.len() ==> #[trigger] ves[k] == (
                n.entries@[k].0@,
                stored_entry_view(n.entries@[k].1),
                ),
            forall|k: int| 0 <= k < ves.len() ==> entry_fp_ok(#[trigger] n.entries@[k].1),
            0 <= i <= n.entries@.len(),
            entries@.len() == i,
            forall|k: int|
                0 <= k < i ==> (#[trigger] entries@[k]).0@ == ves[k].0 && builder_entry_view(
                    entries@[k].1,
                ) == ves[k].1 && builder_entry_wf(entries@[k].1),
        decreases n.entries@.len() - i,
    {
        let pair = &n.entries[i];
        let nm = pair.0.duplicate();
        proof {
            assert(tree_wf(node_view(*n)));
            assert(tree_bounded(node_view(*n)));
            assert(tree_wf(ves[i as int].1));
            assert(tree_bounded(ves[i as int].1));
        }
        match &pair.1 {
            DirectoryEntry::Leaf(l) => {
                let copied = copy_bytes(l);
                entries.push((nm, DirectoryEntry::Leaf(copied)));
            },
            DirectoryEntry::Dir(d) => {
                proof {
                    assert(entry_fp_ok(n.entries@[i as int].1));
                }
                entries.push((nm, DirectoryEntry::Dir(BuilderDir::Shared(d.share()))));
            },
        }
        i += 1;
    }
    let b = DirectoryBuilder { entries };
    proof {
        lemma_builder_entries_view(b.entries@, 0);
        assert(builder_entries(b) =~= ves);
        lemma_builder_entries_wf(b.entries@, 0);
    }
    b
}

impl SharedDirectory {
    /// Converts the frozen tree into a standalone builder; the original stays
    /// immutable and its subtrees are reused, not copied.
    pub fn to_builder(&self) -> (b: DirectoryBuilder)
        requires
            self.wf(),
        ensures
            b@ == self@,
            builder_wf(b),
    {
        node_to_builder(&self.node)
    }
}

} // verus!

verus! {

impl DirectoryBuilder {
    /// Inserts `entry` at `path`, creating intermediate directories on
    /// demand. An existing entry of the same kind at the final name is
    /// replaced; a leaf blocking the path, or an existing entry of the other
    /// kind at the final name, is a `TypeConflict`, reported at once and
    /// leaving the builder's tree exactly as it was.
    pub fn insert(
        &mut self,
        path: &Vec<FileName>,
        entry: DirectoryEntry<DirectoryBuilder, Vec<u8>>,
    ) -> (r: Result<(), DirectoryError>)
        requires
            builder_wf(*old(self)),
            path_wf(path@),
            path@.len() > 0,
            inserted_entry_wf(entry),
        ensures
            builder_wf(*final(self)),
            (match r {
                Ok(()) => tree_insert(
                    old(self)@,
                    names_view(path@),
                    0,
                    inserted_entry_view(entry),
                ) == Some(final(self)@),
                Err(e) => (e matches DirectoryError::TypeConflict { .. }) && tree_insert(
                    old(self)@,
                    names_view(path@),
                    0,
                    inserted_entry_view(entry),
                ) is None && final(self)@ == old(self)@,
            }),
    {
        self.insert_at(path, 0, entry)
    }

    /// `insert`, from segment `depth` on.
    #[verifier::rlimit(50)]
    fn insert_at(
        &mut self,
        path: &Vec<FileName>,
        depth: usize,
        entry: DirectoryEntry<DirectoryBuilder, Vec<u8>>,
    ) -> (r: Result<(), DirectoryError>)
        requires
            builder_wf(*old(self)),
            path_wf(path@),
            depth < path@.len(),
            inserted_entry_wf(entry),
        ensures
            builder_wf(*final(self)),
            (match r {
                Ok(()) => tree_insert(
                    old(self)@,
                    names_view(path@),
                    depth as int,
                    inserted_entry_view(entry),
                ) == Some(final(self)@),
                Err(e) => (e matches DirectoryError::TypeConflict { .. }) && tree_insert(
                    old(self)@,
                    names_view(path@),
                    depth as int,
                    inserted_entry_view(entry),
                ) is None && final(self)@ == old(self)@,
            }),
        decreases path@.len() - depth,
    {
        let ghost ves = builder_entries(*self);
        let ghost pview = names_view(path@);
        let ghost v = inserted_entry_view(entry);
        let name = &path[depth];
        proof {
            assert(pview[depth as int] == path@[depth as int]@);
            assert(crate::model::entries_sorted(builder_entries(*self))) by {
                assert(tree_wf(self@));
            }
        }
        let (idx, found) = self.find_slot(name);
        let last = path.len() - 1;
        if depth == last {
            let new_is_dir = entry.is_dir();
            proof {
                lemma_inserted_entry_kind(entry);
            }
            if found {
                proof {
                    lemma_lookup_present(ves, idx as int);
                    lemma_builder_entries_view(self.entries@, 0);
                    lemma_builder_entry_kind(self.entries@[idx as int].1);
                }
                let existing_is_dir = self.entries[idx].1.is_dir();
                if existing_is_dir != new_is_dir {
                    return Err(DirectoryError::TypeConflict { depth });
                }
                let (nm, _discarded) = self.entries.remove(idx);
                let stored = wrap_entry(entry);
                let pair2 = (nm, stored);
                proof {
                    assert(old(self).entries@.remove(idx as int).insert(idx as int, pair2) =~= old(
                        self,
                    ).entries@.update(idx as int, pair2));
                }
                self.entries.insert(idx, pair2);
                proof {
                    lemma_store_replace(old(self).entries@, idx as int, pair2);
                    assert(builder_entries(*self) == seq_insert(ves, pview[depth as int], v));
                    assert(crate::model::same_kind(ves[idx as int].1, v));
                    assert(tree_insert(old(self)@, pview, depth as int, v) == Some(self@));
                }
                Ok(())
            } else {
                let nm = name.duplicate();
                let stored = wrap_entry(entry);
                let pair2 = (nm, stored);
                self.entries.insert(idx, pair2);
                proof {
                    lemma_store_fresh(old(self).entries@, idx as int, pair2);
                    assert(builder_entries(*self) == seq_insert(ves, pview[depth as int], v));
                    assert(tree_insert(old(self)@, pview, depth as int, v) == Some(self@));
                }
                Ok(())
            }
        } else {
            if found {
                proof {
                    lemma_lookup_present(ves, idx as int);
                    lemma_builder_entries_view(self.entries@, 0);
                    lemma_builder_entries_wf(self.entries@, 0);
                }
                let (nm, ent) = self.entries.remove(idx);
                match ent {
                    DirectoryEntry::Leaf(l) => {
                        let pair2 = (nm, DirectoryEntry::<BuilderDir, Vec<u8>>::Leaf(l));
                        self.entries.insert(idx, pair2);
                        proof {
                            assert(pair2 == old(self).entries@[idx as int]);
                            assert(self.entries@ =~= old(self).entries@);
                        }
                        Err(DirectoryError::TypeConflict { depth })
                    },
                    DirectoryEntry::Dir(BuilderDir::Mutable(mut bx)) => {
                        proof {
                            assert(builder_entry_wf(old(self).entries@[idx as int].1));
                            assert(builder_entry_view(old(self).entries@[idx as int].1) == (*bx)@);
                            assert(tree_wf(ves[idx as int].1));
                        }
                        let rec = bx.insert_at(path, depth + 1, entry);
                        let ghost newchild = (*bx)@;
                        let pair2 = (nm, DirectoryEntry::Dir(BuilderDir::Mutable(bx)));
                        proof {
                            assert(old(self).entries@.remove(idx as int).insert(idx as int, pair2)
                                =~= old(self).entries@.update(idx as int, pair2));
                        }
                        self.entries.insert(idx, pair2);
                        proof {
                            lemma_store_replace(old(self).entries@, idx as int, pair2);
                            assert(!(ves[idx as int].1 matches TreeView::Leaf { .. }));
                            if rec is Err {
                                lemma_seq_insert_found(ves, ves[idx as int].0, newchild, idx as int);
                                assert(ves.update(idx as int, (ves[idx as int].0, newchild)) =~= ves);
                            } else {
                                assert(builder_entries(*self) == seq_insert(
                                    ves,
                                    pview[depth as int],
                                    newchild,
                                ));
                                assert(tree_insert(ves[idx as int].1, pview, depth + 1, v) == Some(
                                    newchild,
                                ));
                                assert(tree_insert(old(self)@, pview, depth as int, v) == Some(
                                    self@,
                                ));
                            }
                        }
                        rec
                    },
                    DirectoryEntry::Dir(BuilderDir::Shared(sd)) => {
                        proof {
                            assert(builder_entry_wf(old(self).entries@[idx as int].1));
                            assert(builder_entry_view(old(self).entries@[idx as int].1)
                                == node_view(*sd.node));
                            assert(tree_wf(ves[idx as int].1));
                        }
                        let mut nb = node_to_builder(&sd.node);
                        let rec = nb.insert_at(path, depth + 1, entry);
                        match rec {
                            Ok(()) => {
                                let ghost newchild = nb@;
                                let pair2 = (
                                    nm,
                                    DirectoryEntry::Dir(BuilderDir::Mutable(Box::new(nb))),
                                );
                                proof {
                                    assert(old(self).entries@.remove(idx as int).insert(
                                        idx as int,
                                        pair2,
                                    ) =~= old(self).entries@.update(idx as int, pair2));
                                }
                                self.entries.insert(idx, pair2);
                                proof {
                                    lemma_store_replace(old(self).entries@, idx as int, pair2);
                                    assert(!(ves[idx as int].1 matches TreeView::Leaf { .. }));
                                    assert(builder_entries(*self) == seq_insert(
                                        ves,
                                        pview[depth as int],
                                        newchild,
                                    ));
                                    assert(tree_insert(ves[idx as int].1, pview, depth + 1, v)
                                        == Some(newchild));
                                    assert(tree_insert(old(self)@, pview, depth as int, v) == Some(
                                        self@,
                                    ));
                                }
                                Ok(())
                            },
                            Err(e) => {
                                let pair2 = (nm, DirectoryEntry::Dir(BuilderDir::Shared(sd)));
                                self.entries.insert(idx, pair2);
                                proof {
                                    assert(pair2 == old(self).entries@[idx as int]);
                                    assert(self.entries@ =~= old(self).entries@);
                                }
                                Err(e)
                            },
                        }
                    },
                }
            } else {
                let ghost emptyview = TreeView::Dir { entries: Seq::<(Seq<u8>, TreeView)>::empty() };
                proof {
                    assert forall|k: int| 0 <= k < ves.len() implies (#[trigger] ves[k]).0
                        != name@ by {
                        if k < idx {
                            crate::name::lemma_lex_neq(ves[k].0, name@);
                        } else {
                            if k > idx {
                                crate::name::lemma_lex_trans(name@, ves[idx as int].0, ves[k].0);
                            }
                            crate::name::lemma_lex_neq(name@, ves[k].0);
                        }
                    }
                    lemma_lookup_absent(ves, name@);
                }
                let mut child = DirectoryBuilder::empty();
                let rec = child.insert_at(path, depth + 1, entry);
                match rec {
                    Ok(()) => {
                        let pair2 = (
                            name.duplicate(),
                            DirectoryEntry::Dir(BuilderDir::Mutable(Box::new(child))),
                        );
                        self.entries.insert(idx, pair2);
                        proof {
                            lemma_store_fresh(old(self).entries@, idx as int, pair2);
                            assert(builder_entries(*self) == seq_insert(
                                ves,
                                pview[depth as int],
                                child@,
                            ));
                            assert(tree_insert(emptyview, pview, depth + 1, v) == Some(child@));
                            assert(tree_insert(old(self)@, pview, depth as int, v) == Some(self@));
                        }
                        Ok(())
                    },
                    Err(e) => Err(e),
                }
            }
        }
    }
}

} // verus!

verus! {

/// Appends a name to the token stream: its length, then its bytes widened.
fn push_name_tokens(dst: &mut Vec<u64>, name: &FileName)
    ensures
        final(dst)@ == old(dst)@ + seq![name@.len() as u64] + crate::model::byte_tokens(name@),
{
    let nb = name.as_bytes();
    dst.push(nb.len() as u64);
    let mut bi: usize = 0;
    while bi < nb.len()
        invariant
            nb@ == name@,
            0 <= bi <= nb@.len(),
            dst@ == old(dst)@ + seq![name@.len() as u64] + crate::model::byte_tokens(
                name@.subrange(0, bi as int),
            ),
        decreases nb@.len() - bi,
    {
        dst.push(nb[bi] as u64);
        proof {
            assert(crate::model::byte_tokens(name@.subrange(0, bi + 1)) =~= crate::model::byte_tokens(
                name@.subrange(0, bi as int),
            ).push(name@[bi as int] as u64));
            assert(dst@ =~= old(dst)@ + seq![name@.len() as u64] + crate::model::byte_tokens(
                name@.subrange(0, bi + 1),
            ));
        }
        bi += 1;
    }
    proof {
        assert(name@.subrange(0, name@.len() as int) =~= name@);
    }
}

/// Appends a leaf's whole encoding to the token stream.
fn push_leaf_tokens(dst: &mut Vec<u64>, l: &Vec<u8>)
    ensures
        final(dst)@ == old(dst)@ + crate::model::encode(TreeView::Leaf { content: l@ }),
        crate::model::tree_bounded(TreeView::Leaf { content: l@ }),
{
    let ghost t = TreeView::Leaf { content: l@ };
    let mut body: Vec<u64> = Vec::new();
    body.push(crate::model::LEAF_TAG);
    body.push(l.len() as u64);
    let mut bi: usize = 0;
    while bi < l.len()
        invariant
            0 <= bi <= l@.len(),
            body@ == seq![crate::model::LEAF_TAG, l@.len() as u64] + crate::model::byte_tokens(
                l@.subrange(0, bi as int),
            ),
        decreases l@.len() - bi,
    {
        body.push(l[bi] as u64);
        proof {
            assert(crate::model::byte_tokens(l@.subrange(0, bi + 1)) =~= crate::model::byte_tokens(
                l@.subrange(0, bi as int),
            ).push(l@[bi as int] as u64));
            assert(body@ =~= seq![crate::model::LEAF_TAG, l@.len() as u64]
                + crate::model::byte_tokens(l@.subrange(0, bi + 1)));
        }
        bi += 1;
    }
    proof {
        assert(l@.subrange(0, l@.len() as int) =~= l@);
        assert(body@ == crate::model::encode_body(t));
    }
    dst.push(body.len() as u64);
    let mut bj: usize = 0;
    while bj < body.len()
        invariant
            body@ == crate::model::encode_body(t),
            0 <= bj <= body@.len(),
            dst@ == old(dst)@ + seq![crate::model::encode_body(t).len() as u64]
                + crate::model::encode_body(t).subrange(0, bj as int),
        decreases body@.len() - bj,
    {
        dst.push(body[bj]);
        proof {
            assert(dst@ =~= old(dst)@ + seq![crate::model::encode_body(t).len() as u64]
                + crate::model::encode_body(t).subrange(0, bj + 1));
        }
        bj += 1;
    }
    proof {
        assert(crate::model::encode_body(t).subrange(0, crate::model::encode_body(t).len() as int)
            =~= crate::model::encode_body(t));
        assert(final(dst)@ == old(dst)@ + crate::model::encode(t));
    }
}

/// Appends a stored fingerprint's tokens to the token stream.
fn extend_tokens(dst: &mut Vec<u64>, src: &Vec<u64>)
    ensures
        final(dst)@ == old(dst)@ + src@,
{
    let mut i: usize = 0;
    while i < src.len()
        invariant
            0 <= i <= src@.len(),
            dst@ == old(dst)@ + src@.subrange(0, i as int),
        decreases src@.len() - i,
    {
        dst.push(src[i]);
        proof {
            assert(dst@ =~= old(dst)@ + src@.subrange(0, i + 1));
        }
        i += 1;
    }
    proof {
        assert(src@.subrange(0, src@.len() as int) =~= src@);
    }
}

} // verus!

verus! {


/// The number of builder nodes in one entry; frozen subtrees count one.
pub open spec fn builder_entry_size(e: DirectoryEntry<BuilderDir, Vec<u8>>) -> nat
    decreases e,
{
    match e {
        DirectoryEntry::Leaf(_) => 1,
        DirectoryEntry::Dir(BuilderDir::Mutable(b)) => 1 + builder_entries_size((*b).entries@, 0),
        DirectoryEntry::Dir(BuilderDir::Shared(_)) => 1,
    }
}

/// The number of builder nodes in the entries from index `i` on.
pub open spec fn builder_entries_size(
    es: Seq<(FileName, DirectoryEntry<BuilderDir, Vec<u8>>)>,
    i: int,
) -> nat
    decreases es, es.len() - i,
{
    if 0 <= i < es.len() {
        builder_entry_size(es[i].1) + builder_entries_size(es, i + 1)
    } else {
        0
    }
}

/// The number of builder nodes in the whole builder; the measure that
/// freezing recurses on.
pub open spec fn builder_size(b: DirectoryBuilder) -> nat {
    1 + builder_entries_size(b.entries@, 0)
}

/// Each entry's size is bounded by the size of the list holding it.
proof fn lemma_entries_size_ge(
    es: Seq<(FileName, DirectoryEntry<BuilderDir, Vec<u8>>)>,
    i: int,
    k: int,
)
    requires
        0 <= i <= k < es.len(),
    ensures
        builder_entries_size(es, i) >= builder_entry_size(es[k].1),
    decreases k - i,
{
    if i < k {
        lemma_entries_size_ge(es, i + 1, k);
    }
}

impl DirectoryBuilder {
    /// Freezes the tree into an immutable, fingerprinted, shared directory.
    /// Fingerprints are computed bottom up, children before parents; a child
    /// that is already frozen contributes its stored fingerprint and keeps
    /// its storage, so unchanged subtrees are shared, never recomputed or
    /// copied. The builder is consumed: mutation ends here.
    pub fn freeze(self) -> (d: SharedDirectory)
        requires
            builder_wf(self),
        ensures
            d@ == self@,
            d.wf(),
            d.node.fingerprint@ == crate::model::encode(self@),
        decreases builder_size(self), 1int,
    {
        SharedDirectory { node: std::rc::Rc::new(self.freeze_node()) }
    }

    /// Freezes the tree into an exclusively owned directory: the same frozen
    /// node as `freeze` produces, held by one owner instead of shared.
    pub fn freeze_exclusive(self) -> (d: crate::directory::ExclusiveDirectory)
        requires
            builder_wf(self),
        ensures
            d@ == self@,
            d.wf(),
            d.node.fingerprint@ == crate::model::encode(self@),
    {
        crate::directory::ExclusiveDirectory { node: Box::new(self.freeze_node()) }
    }

    /// The node both freezing operations produce.
    #[verifier::loop_isolation(false)]
    fn freeze_node(self) -> (node: DirectoryNode)
        requires
            builder_wf(self),
        ensures
            node_view(node) == self@,
            node_wf(node),
            node.fingerprint@ == crate::model::encode(self@),
        decreases builder_size(self), 0int,
    {
        let ghost orig = self;
        let ghost ves = builder_entries(orig);
        proof {
            lemma_builder_entries_view(orig.entries@, 0);
            lemma_builder_entries_wf(orig.entries@, 0);
            assert(tree_wf(TreeView::Dir { entries: ves }));
        }
        let DirectoryBuilder { entries: mut src } = self;
        let n = src.len();
        let mut out: Vec<(FileName, DirectoryEntry<SharedDirectory, Vec<u8>>)> = Vec::new();
        let mut etoks: Vec<u64> = Vec::new();
        let mut j: usize = 0;
        while j < n
            invariant
                n == orig.entries@.len(),
                ves == builder_entries(orig),
                ves.len() == n,
                forall|k: int|
                    0 <= k < n ==> #[trigger] ves[k] == (
                    orig.entries@[k].0@,
                    builder_entry_view(orig.entries@[k].1),
                    ),
                forall|k: int| 0 <= k < n ==> builder_entry_wf(#[trigger] orig.entries@[k].1),
                tree_wf(TreeView::Dir { entries: ves }),
                0 <= j <= n,
                src@ == orig.entries@.skip(j as int),
                out@.len() == j,
                forall|k: int|
                    0 <= k < j ==> (#[trigger] out@[k]).0@ == ves[k].0 && stored_entry_view(
                    out@[k].1,
                    ) == ves[k].1 && entry_fp_ok(out@[k].1),
                forall|k: int|
                    0 <= k < j ==> crate::model::tree_bounded(#[trigger] ves[k].1) && ves[k].0.len()
                        <= u64::MAX,
                etoks@ + crate::model::encode_entries(ves, j as int) == crate::model::encode_entries(
                    ves,
                    0,
                ),
            decreases n - j,
        {
            let ghost etoks0 = etoks@;
            let (nm, ent) = src.remove(0);
            proof {
                assert(orig.entries@.skip(j as int)[0] == orig.entries@[j as int]);
                assert(orig.entries@.skip(j as int).remove(0) =~= orig.entries@.skip(j + 1));
                assert(nm == orig.entries@[j as int].0);
                assert(ent == orig.entries@[j as int].1);
                assert(ves[j as int].0 == nm@);
                assert(ves[j as int].1 == builder_entry_view(orig.entries@[j as int].1));
                assert(builder_entry_wf(orig.entries@[j as int].1));
                assert(tree_wf(ves[j as int].1));
            }
            let nmlen = nm.as_bytes().len();
            proof {
                assert(ves[j as int].0.len() <= u64::MAX);
            }
            push_name_tokens(&mut etoks, &nm);
            let ghost etoks1 = etoks@;
            match ent {
                DirectoryEntry::Leaf(l) => {
                    push_leaf_tokens(&mut etoks, &l);
                    out.push((nm, DirectoryEntry::Leaf(l)));
                },
                DirectoryEntry::Dir(BuilderDir::Shared(sd)) => {
                    proof {
                        assert(node_fp_ok(*sd.node));
                        assert(sd.node.fingerprint@ == crate::model::encode(node_view(*sd.node)));
                    }
                    extend_tokens(&mut etoks, &sd.node.fingerprint.tokens);
                    out.push((nm, DirectoryEntry::Dir(sd)));
                },
                DirectoryEntry::Dir(BuilderDir::Mutable(bx)) => {
                    proof {
                        lemma_entries_size_ge(orig.entries@, 0, j as int);
                        assert(builder_entry_size(orig.entries@[j as int].1) == 1
                            + builder_entries_size((*bx).entries@, 0));
                        assert(builder_size(*bx) <= builder_entries_size(orig.entries@, 0));
                        assert(builder_size(*bx) < builder_size(orig));
                        assert(builder_entries_wf((*bx).entries@, 0));
                    }
                    let b2 = *bx;
                    let sub = b2.freeze();
                    proof {
                        assert(sub@ == ves[j as int].1);
                        assert(node_fp_ok(*sub.node));
                    }
                    extend_tokens(&mut etoks, &sub.node.fingerprint.tokens);
                    out.push((nm, DirectoryEntry::Dir(sub)));
                },
            }
            proof {
                assert(crate::model::tree_bounded(ves[j as int].1));
                let child = ves[j as int].1;
                assert(crate::model::encode_entries(ves, j as int) == seq![ves[j as int].0.len() as u64]
                    + crate::model::byte_tokens(ves[j as int].0) + crate::model::encode(child)
                    + crate::model::encode_entries(ves, j + 1));
                assert(etoks1 =~= etoks0 + (seq![ves[j as int].0.len() as u64]
                    + crate::model::byte_tokens(ves[j as int].0)));
                assert(etoks@ =~= etoks1 + crate::model::encode(child));
                assert(etoks@ + crate::model::encode_entries(ves, j + 1)
                    =~= etoks0 + crate::model::encode_entries(ves, j as int));
                assert forall|k: int|
                    0 <= k < j + 1 implies crate::model::tree_bounded(#[trigger] ves[k].1)
                    && ves[k].0.len() <= u64::MAX by {
                    if k < j as int {
                        assert(crate::model::tree_bounded(ves[k].1));
                        assert(ves[k].0.len() <= u64::MAX);
                    }
                }
            }
            j += 1;
        }
        proof {
            assert(crate::model::encode_entries(ves, n as int) =~= Seq::<u64>::empty());
            assert(etoks@ + Seq::<u64>::empty() =~= etoks@);
            assert(etoks@ == crate::model::encode_entries(ves, 0));
        }
        let mut body: Vec<u64> = Vec::new();
        body.push(crate::model::DIR_TAG);
        body.push(n as u64);
        let mut bj: usize = 0;
        let ghost etv = etoks@;
        while bj < etoks.len()
            invariant
                etoks@ == etv,
                0 <= bj <= etv.len(),
                body@ == seq![crate::model::DIR_TAG, (n as u64)] + etv.subrange(0, bj as int),
            decreases etv.len() - bj,
        {
            body.push(etoks[bj]);
            proof {
                assert(body@ =~= seq![crate::model::DIR_TAG, (n as u64)] + etv.subrange(0, bj + 1));
            }
            bj += 1;
        }
        proof {
            assert(etv.subrange(0, etv.len() as int) =~= etv);
            assert(body@ == crate::model::encode_body(TreeView::Dir { entries: ves }));
        }
        let mut tokens: Vec<u64> = Vec::new();
        tokens.push(body.len() as u64);
        let mut tj: usize = 0;
        let ghost bv = body@;
        while tj < body.len()
            invariant
                body@ == bv,
                0 <= tj <= bv.len(),
                tokens@ == seq![(bv.len() as u64)] + bv.subrange(0, tj as int),
            decreases bv.len() - tj,
        {
            tokens.push(body[tj]);
            proof {
                assert(tokens@ =~= seq![(bv.len() as u64)] + bv.subrange(0, tj + 1));
            }
            tj += 1;
        }
        let node = DirectoryNode {
            entries: out,
            fingerprint: crate::fingerprint::Fingerprint { tokens },
        };
        proof {
            assert(bv.subrange(0, bv.len() as int) =~= bv);
            assert(node.fingerprint@ == crate::model::encode(TreeView::Dir { entries: ves }));
            lemma_stored_entries_view(node.entries@, 0);
            assert(node_entries(node) =~= ves);
            assert(node_view(node) == orig@);
            lemma_entries_fp_ok(node.entries@, 0);
            assert(node_fp_ok(node));
            assert(crate::model::tree_bounded(node_view(node))) by {
                assert(crate::model::encode_body(TreeView::Dir { entries: ves }).len() == bv.len());
            }
            assert(node_wf(node));
        }
        node
    }
}

} // verus!

verus! {

/// Removing the entry at `idx`: the children change exactly as `seq_remove`
/// says, and well-formedness is preserved.
proof fn lemma_store_remove(es: Seq<(FileName, DirectoryEntry<BuilderDir, Vec<u8>>)>, idx: int)
    requires
        0 <= idx < es.len(),
        tree_wf(TreeView::Dir { entries: builder_entries_view(es, 0) }),
        builder_entries_wf(es, 0),
    ensures
        builder_entries_view(es.remove(idx), 0) == seq_remove(
            builder_entries_view(es, 0),
            builder_entries_view(es, 0)[idx].0,
        ),
        tree_wf(TreeView::Dir { entries: builder_entries_view(es.remove(idx), 0) }),
        builder_entries_wf(es.remove(idx), 0),
{
    let ves = builder_entries_view(es, 0);
    let name = ves[idx].0;
    let nes = es.remove(idx);
    lemma_builder_entries_view(es, 0);
    lemma_builder_entries_view(nes, 0);
    lemma_seq_remove_found(ves, name, idx);
    assert(builder_entries_view(nes, 0) =~= ves.remove(idx));
    lemma_seq_remove(ves, name);
    assert(seq_remove(ves, name) == ves.remove(idx));
    lemma_builder_entries_wf(es, 0);
    lemma_builder_entries_wf(nes, 0);
    assert forall|k: int| 0 <= k < nes.len() implies builder_entry_wf(#[trigger] nes[k].1) by {
        if k < idx {
            assert(nes[k] == es[k]);
        } else {
            assert(nes[k] == es[k + 1]);
        }
    }
}

impl DirectoryBuilder {
    /// Removes the entry named `name`, reporting whether one was there;
    /// removing an absent name changes nothing, and in either case the other
    /// children are untouched.
    pub fn remove(&mut self, name: &FileName) -> (removed: bool)
        requires
            builder_wf(*old(self)),
        ensures
            builder_wf(*final(self)),
            removed == (crate::model::dir_child(old(self)@, name@) is Some),
            final(self)@ == (TreeView::Dir {
                entries: seq_remove(crate::model::view_entries(old(self)@), name@),
            }),
    {
        let ghost ves = builder_entries(*self);
        proof {
            assert(tree_wf(self@));
        }
        let (idx, found) = self.find_slot(name);
        if found {
            proof {
                lemma_lookup_present(ves, idx as int);
                lemma_store_remove(self.entries@, idx as int);
            }
            let _ = self.entries.remove(idx);
            true
        } else {
            proof {
                assert forall|k: int| 0 <= k < ves.len() implies (#[trigger] ves[k]).0 != name@ by {
                    if k < idx {
                        crate::name::lemma_lex_neq(ves[k].0, name@);
                    } else {
                        if k > idx {
                            crate::name::lemma_lex_trans(name@, ves[idx as int].0, ves[k].0);
                        }
                        crate::name::lemma_lex_neq(name@, ves[k].0);
                    }
                }
                lemma_lookup_absent(ves, name@);
                crate::proofs::lemma_seq_remove_absent(ves, name@);
            }
            false
        }
    }
}

} // verus!

verus! {

/// The nesting depth of a tree.
pub open spec fn tree_height(t: TreeView) -> nat
    decreases t,
{
    match t {
        TreeView::Leaf { .. } => 0,
        TreeView::Dir { entries } => 1 + entries_height(entries, 0),
    }
}

/// The greatest height among the children from index `i` on.
pub open spec fn entries_height(es: Seq<(Seq<u8>, TreeView)>, i: int) -> nat
    decreases es, es.len() - i,
{
    if 0 <= i < es.len() {
        let h = tree_height(es[i].1);
        let rest = entries_height(es, i + 1);
        if h > rest {
            h
        } else {
            rest
        }
    } else {
        0
    }
}

/// Each child is at most as high as the highest child.
proof fn lemma_entries_height_ge(es: Seq<(Seq<u8>, TreeView)>, i: int, k: int)
    requires
        0 <= i <= k < es.len(),
    ensures
        entries_height(es, i) >= tree_height(es[k].1),
    decreases k - i,
{
    if i < k {
        lemma_entries_height_ge(es, i + 1, k);
    }
}

/// Turns a builder child into a standalone builder.
fn builder_dir_to_builder(d: BuilderDir) -> (b: DirectoryBuilder)
    requires
        builder_entry_wf(DirectoryEntry::Dir(d)),
        tree_wf(builder_entry_view(DirectoryEntry::Dir(d))),
    ensures
        b@ == builder_entry_view(DirectoryEntry::Dir(d)),
        builder_wf(b),
{
    match d {
        BuilderDir::Mutable(b) => *b,
        BuilderDir::Shared(sd) => node_to_builder(&sd.node),
    }
}

impl DirectoryBuilder {
    /// Merges `other`'s tree into this one: a fresh name is inserted, a leaf
    /// overwrites a leaf of the same name, directories of one name merge
    /// recursively, and a leaf meeting a directory, either way round, is a
    /// `TypeConflict`. The error is reported as soon as it is found; entries
    /// merged before it keep their new values, so a caller that needs the old
    /// tree back keeps its own copy before merging.
    #[verifier::loop_isolation(false)]
    pub fn merge(&mut self, other: DirectoryBuilder) -> (r: Result<(), DirectoryError>)
        requires
            builder_wf(*old(self)),
            builder_wf(other),
        ensures
            builder_wf(*final(self)),
            (match r {
                Ok(()) => crate::model::tree_merge(old(self)@, other@) == Some(final(self)@),
                Err(e) => (e matches DirectoryError::TypeConflict { .. })
                    && crate::model::tree_merge(old(self)@, other@) is None,
            }),
        decreases tree_height(other@),
    {
        let ghost bes = builder_entries(other);
        let ghost oview = other@;
        let ghost orig_ves = builder_entries(*self);
        proof {
            lemma_builder_entries_view(other.entries@, 0);
            lemma_builder_entries_wf(other.entries@, 0);
        }
        let DirectoryBuilder { entries: mut src } = other;
        let n = src.len();
        let mut j: usize = 0;
        while j < n
            invariant
                0 <= j <= n,
                src@ == other.entries@.skip(j as int),
                builder_wf(*self),
                crate::model::merge_entries(builder_entries(*self), bes, j as int)
                    == crate::model::merge_entries(orig_ves, bes, 0),
            decreases n - j,
        {
            let ghost ves = builder_entries(*self);
            let ghost es0 = self.entries@;
            let (nm, ent) = src.remove(0);
            proof {
                assert(other.entries@.skip(j as int)[0] == other.entries@[j as int]);
                assert(other.entries@.skip(j as int).remove(0) =~= other.entries@.skip(j + 1));
                assert(nm == other.entries@[j as int].0);
                assert(ent == other.entries@[j as int].1);
                assert(bes[j as int] == (nm@, builder_entry_view(other.entries@[j as int].1)));
                assert(builder_entry_wf(other.entries@[j as int].1));
                assert(tree_wf(TreeView::Dir { entries: bes }));
                assert(tree_wf(bes[j as int].1));
                assert(crate::name::valid_name(bes[j as int].0));
                assert(tree_wf(self@));
            }
            let ghost bv = bes[j as int].1;
            let (idx, found) = self.find_slot(&nm);
            if !found {
                proof {
                    assert(tree_wf(builder_entry_view(ent)));
                }
                self.entries.insert(idx, (nm, ent));
                proof {
                    lemma_store_fresh(es0, idx as int, (nm, ent));
                    assert(crate::model::merge_entries(ves, bes, j as int)
                        == crate::model::merge_entries(builder_entries(*self), bes, j + 1));
                }
            } else {
                proof {
                    lemma_lookup_present(ves, idx as int);
                    lemma_builder_entries_view(es0, 0);
                    lemma_builder_entries_wf(es0, 0);
                    lemma_builder_entry_kind(es0[idx as int].1);
                    lemma_builder_entry_kind(other.entries@[j as int].1);
                    assert(ves[idx as int] == (es0[idx as int].0@, builder_entry_view(
                        es0[idx as int].1,
                    )));
                }
                let (snm, sent) = self.entries.remove(idx);
                let self_is_dir = sent.is_dir();
                let other_is_dir = ent.is_dir();
                if self_is_dir != other_is_dir {
                    let pair2 = (snm, sent);
                    self.entries.insert(idx, pair2);
                    proof {
                        assert(pair2 == es0[idx as int]);
                        assert(self.entries@ =~= es0);
                        assert(crate::model::merge_entries(ves, bes, j as int) is None);
                    }
                    return Err(DirectoryError::TypeConflict { depth: 0 });
                }
                if !other_is_dir {
                    let pair2 = (snm, ent);
                    proof {
                        assert(es0.remove(idx as int).insert(idx as int, pair2) =~= es0.update(
                            idx as int,
                            pair2,
                        ));
                        assert(tree_wf(builder_entry_view(pair2.1)));
                    }
                    self.entries.insert(idx, pair2);
                    proof {
                        lemma_store_replace(es0, idx as int, pair2);
                        assert(builder_entry_view(pair2.1) == bv);
                        assert(crate::model::merge_entries(ves, bes, j as int)
                            == crate::model::merge_entries(builder_entries(*self), bes, j + 1));
                    }
                } else {
                    match (sent, ent) {
                        (DirectoryEntry::Dir(sd), DirectoryEntry::Dir(od)) => {
                            proof {
                                assert(builder_entry_wf(es0[idx as int].1));
                                assert(tree_wf(ves[idx as int].1));
                            }
                            let mut sc = builder_dir_to_builder(sd);
                            let oc = builder_dir_to_builder(od);
                            proof {
                                lemma_entries_height_ge(bes, 0, j as int);
                                assert(tree_height(oc@) < tree_height(oview));
                            }
                            let ghost sc0 = sc@;
                            let rec = sc.merge(oc);
                            let pair2 = (
                                snm,
                                DirectoryEntry::Dir(BuilderDir::Mutable(Box::new(sc))),
                            );
                            proof {
                                assert(es0.remove(idx as int).insert(idx as int, pair2)
                                    =~= es0.update(idx as int, pair2));
                                assert(tree_wf(builder_entry_view(pair2.1)));
                            }
                            self.entries.insert(idx, pair2);
                            proof {
                                lemma_store_replace(es0, idx as int, pair2);
                            }
                            match rec {
                                Ok(()) => {
                                    proof {
                                        assert(crate::model::tree_merge(sc0, bv) == Some(
                                            builder_entry_view(pair2.1),
                                        ));
                                        assert(crate::model::merge_entries(ves, bes, j as int)
                                            == crate::model::merge_entries(
                                            builder_entries(*self),
                                            bes,
                                            j + 1,
                                        ));
                                    }
                                },
                                Err(e) => {
                                    proof {
                                        assert(crate::model::tree_merge(sc0, bv) is None);
                                        assert(crate::model::merge_entries(ves, bes, j as int)
                                            is None);
                                    }
                                    return Err(e);
                                },
                            }
                        },
                        _ => {
                            proof {
                                assert(false);
                            }
                            return Err(DirectoryError::TypeConflict { depth: 0 });
                        },
                    }
                }
            }
            j += 1;
        }
        proof {
            assert(crate::model::merge_entries(builder_entries(*self), bes, n as int) == Some(
                builder_entries(*self),
            ));
        }
        Ok(())
    }
}

} // verus!

verus! {

impl DirectoryBuilder {
    /// Merges `other`'s tree in at `path`: the same as merging, at the root,
    /// `other` wrapped in one single-entry directory per path segment, so
    /// intermediate directories are created or merged into, and a leaf met
    /// anywhere on the way is a `TypeConflict`.
    pub fn merge_at(&mut self, path: &Vec<FileName>, other: DirectoryBuilder) -> (r: Result<
        (),
        DirectoryError,
    >)
        requires
            builder_wf(*old(self)),
            builder_wf(other),
            path_wf(path@),
        ensures
            builder_wf(*final(self)),
            (match r {
                Ok(()) => crate::model::tree_merge(
                    old(self)@,
                    crate::model::nest(names_view(path@), 0, other@),
                ) == Some(final(self)@),
                Err(e) => (e matches DirectoryError::TypeConflict { .. })
                    && crate::model::tree_merge(
                    old(self)@,
                    crate::model::nest(names_view(path@), 0, other@),
                ) is None,
            }),
    {
        let ghost pview = names_view(path@);
        let ghost oview = other@;
        let mut cur = other;
        let mut k = path.len();
        while k > 0
            invariant
                0 <= k <= path@.len(),
                pview == names_view(path@),
                path_wf(path@),
                cur@ == crate::model::nest(pview, k as int, oview),
                builder_wf(cur),
            decreases k,
        {
            proof {
                assert(pview[k - 1] == path@[k - 1]@);
            }
            let mut nb = DirectoryBuilder::empty();
            let nm = path[k - 1].duplicate();
            nb.entries.push((nm, DirectoryEntry::Dir(BuilderDir::Mutable(Box::new(cur)))));
            proof {
                lemma_builder_entries_view(nb.entries@, 0);
                assert(builder_entries(nb) =~= seq![
                    (pview[k - 1], crate::model::nest(pview, k as int, oview)),
                ]);
                assert(nb@ == crate::model::nest(pview, k - 1, oview));
                lemma_builder_entries_wf(nb.entries@, 0);
                assert(tree_wf(nb@));
            }
            cur = nb;
            k -= 1;
        }
        self.merge(cur)
    }
}

} // verus!
