use vstd::prelude::*;

use crate::name::{lex_lt, valid_name};

verus! {

/// The mathematical value of a tree: a leaf carries its content bytes, a
/// directory carries its children as an association sequence of
/// (name, child) pairs. In a well-formed tree the sequence is strictly
/// sorted by name, which makes the value canonical: two well-formed trees
/// with the same children are the same value, whatever order the children
/// were inserted in.
pub enum TreeView {
    Leaf { content: Seq<u8> },
    Dir { entries: Seq<(Seq<u8>, TreeView)> },
}

/// The child registered under `name`, if any.
pub open spec fn lookup(es: Seq<(Seq<u8>, TreeView)>, name: Seq<u8>) -> Option<TreeView>
    decreases es.len(),
{
    if es.len() == 0 {
        None
    } else if es[0].0 == name {
        Some(es[0].1)
    } else {
        lookup(es.drop_first(), name)
    }
}

/// The child of directory `t` named `name`; `None` on a leaf or an absent name.
pub open spec fn dir_child(t: TreeView, name: Seq<u8>) -> Option<TreeView> {
    match t {
        TreeView::Dir { entries } => lookup(entries, name),
        TreeView::Leaf { .. } => None,
    }
}

/// Entry names strictly ascend, so they are also pairwise distinct.
pub open spec fn entries_sorted(es: Seq<(Seq<u8>, TreeView)>) -> bool {
    forall|i: int, j: int| 0 <= i < j < es.len() ==> lex_lt(#[trigger] es[i].0, #[trigger] es[j].0)
}

/// Well-formedness: at every level the names are valid and strictly sorted.
pub open spec fn tree_wf(t: TreeView) -> bool
    decreases t,
{
    match t {
        TreeView::Leaf { .. } => true,
        TreeView::Dir { entries } => {
            &&& entries_sorted(entries)
            &&& forall|i: int| 0 <= i < entries.len() ==> valid_name(#[trigger] entries[i].0)
            &&& forall|i: int| 0 <= i < entries.len() ==> tree_wf(#[trigger] entries[i].1)
        },
    }
}

/// Tag token opening the encoding of a leaf.
pub const LEAF_TAG: u64 = 0;

/// Tag token opening the encoding of a directory.
pub const DIR_TAG: u64 = 1;

/// Name and content bytes widened to tokens.
pub open spec fn byte_tokens(s: Seq<u8>) -> Seq<u64> {
    s.map_values(|b: u8| b as u64)
}

/// The fingerprint encoding of a tree: the body prefixed with its own
/// length, which makes the encoding of a tree recoverable from any token
/// stream it starts, and hence injective on bounded trees.
pub open spec fn encode(t: TreeView) -> Seq<u64>
    decreases t, 1int,
{
    seq![encode_body(t).len() as u64] + encode_body(t)
}

/// The body of the encoding: a tag, the number of bytes or children, then
/// for a directory each child in order as its name (length-prefixed)
/// followed by the child's own encoding.
pub open spec fn encode_body(t: TreeView) -> Seq<u64>
    decreases t, 0int,
{
    match t {
        TreeView::Leaf { content } => seq![LEAF_TAG, content.len() as u64] + byte_tokens(content),
        TreeView::Dir { entries } => seq![DIR_TAG, entries.len() as u64] + encode_entries(
            entries,
            0,
        ),
    }
}

/// The concatenated encodings of the entries from index `i` on.
pub open spec fn encode_entries(es: Seq<(Seq<u8>, TreeView)>, i: int) -> Seq<u64>
    decreases es, es.len() - i,
{
    if 0 <= i < es.len() {
        seq![es[i].0.len() as u64] + byte_tokens(es[i].0) + encode(es[i].1) + encode_entries(
            es,
            i + 1,
        )
    } else {
        Seq::empty()
    }
}

/// Every length that the encoding stores in a single token fits in one:
/// true of every tree a builder can freeze, and required for fingerprint
/// equality to imply tree equality.
pub open spec fn tree_bounded(t: TreeView) -> bool
    decreases t,
{
    &&& encode_body(t).len() <= u64::MAX
    &&& match t {
        TreeView::Leaf { content } => content.len() <= u64::MAX,
        TreeView::Dir { entries } => {
            &&& entries.len() <= u64::MAX
            &&& forall|i: int| 0 <= i < entries.len() ==> (#[trigger] entries[i].0).len()
                <= u64::MAX
            &&& forall|i: int| 0 <= i < entries.len() ==> tree_bounded(#[trigger] entries[i].1)
        },
    }
}

/// Insertion into the canonical association sequence: replaces the entry
/// named `name` or places a new one at its sorted position.
pub open spec fn seq_insert(
    es: Seq<(Seq<u8>, TreeView)>,
    name: Seq<u8>,
    v: TreeView,
) -> Seq<(Seq<u8>, TreeView)>
    decreases es.len(),
{
    if es.len() == 0 {
        seq![(name, v)]
    } else if lex_lt(es[0].0, name) {
        seq![es[0]] + seq_insert(es.drop_first(), name, v)
    } else if es[0].0 == name {
        seq![(name, v)] + es.drop_first()
    } else {
        seq![(name, v)] + es
    }
}

/// Removal from the association sequence; the sequence is unchanged when
/// the name is absent.
pub open spec fn seq_remove(es: Seq<(Seq<u8>, TreeView)>, name: Seq<u8>) -> Seq<
    (Seq<u8>, TreeView),
>
    decreases es.len(),
{
    if es.len() == 0 {
        es
    } else if es[0].0 == name {
        es.drop_first()
    } else {
        seq![es[0]] + seq_remove(es.drop_first(), name)
    }
}

/// Whether two entries are of the same kind, both leaves or both directories.
pub open spec fn same_kind(a: TreeView, b: TreeView) -> bool {
    (a matches TreeView::Leaf { .. }) <==> (b matches TreeView::Leaf { .. })
}

/// Insertion of `v` at `path[i..]` below `t`: intermediate directories are
/// created on demand; `None` reports a type conflict, either a leaf blocking
/// the path or an existing entry of the other kind at the final name, and in
/// that case the tree is left as it was.
pub open spec fn tree_insert(t: TreeView, path: Seq<Seq<u8>>, i: int, v: TreeView) -> Option<
    TreeView,
>
    decreases path.len() - i,
{
    match t {
        TreeView::Leaf { .. } => None,
        TreeView::Dir { entries } => {
            if !(0 <= i < path.len()) {
                None
            } else {
                let name = path[i];
                if i == path.len() - 1 {
                    match lookup(entries, name) {
                        Some(w) => if same_kind(w, v) {
                            Some(TreeView::Dir { entries: seq_insert(entries, name, v) })
                        } else {
                            None
                        },
                        None => Some(TreeView::Dir { entries: seq_insert(entries, name, v) }),
                    }
                } else {
                    let child = match lookup(entries, name) {
                        Some(c) => c,
                        None => TreeView::Dir { entries: Seq::empty() },
                    };
                    match tree_insert(child, path, i + 1, v) {
                        Some(c2) => Some(
                            TreeView::Dir { entries: seq_insert(entries, name, c2) },
                        ),
                        None => None,
                    }
                }
            }
        },
    }
}

/// Merging directory `b` into directory `a`: fresh names are inserted, a
/// leaf overwrites a leaf of the same name, directories merge recursively,
/// and a leaf meeting a directory (either way) is a conflict, `None`.
pub open spec fn tree_merge(a: TreeView, b: TreeView) -> Option<TreeView>
    decreases b, 1int,
{
    match b {
        TreeView::Leaf { .. } => None,
        TreeView::Dir { entries: bes } => {
            match a {
                TreeView::Leaf { .. } => None,
                TreeView::Dir { entries: aes } => {
                    match merge_entries(aes, bes, 0) {
                        Some(res) => Some(TreeView::Dir { entries: res }),
                        None => None,
                    }
                },
            }
        },
    }
}

/// Merges the entries of `bes` from index `j` on into `aes`, one at a time.
pub open spec fn merge_entries(
    aes: Seq<(Seq<u8>, TreeView)>,
    bes: Seq<(Seq<u8>, TreeView)>,
    j: int,
) -> Option<Seq<(Seq<u8>, TreeView)>>
    decreases bes, bes.len() - j, 0int,
{
    if !(0 <= j < bes.len()) {
        Some(aes)
    } else {
        let name = bes[j].0;
        let bv = bes[j].1;
        let combined: Option<TreeView> = match lookup(aes, name) {
            None => Some(bv),
            Some(av) => if (av matches TreeView::Leaf { .. }) && (bv matches TreeView::Leaf {
                ..
            }) {
                Some(bv)
            } else if (av matches TreeView::Dir { .. }) && (bv matches TreeView::Dir { .. }) {
                tree_merge(av, bv)
            } else {
                None
            },
        };
        match combined {
            None => None,
            Some(cv) => merge_entries(seq_insert(aes, name, cv), bes, j + 1),
        }
    }
}

/// `t` wrapped in single-entry directories named after `path[i..]`; merging
/// this at the root is merging `t` at `path`.
pub open spec fn nest(path: Seq<Seq<u8>>, i: int, t: TreeView) -> TreeView
    decreases path.len() - i,
{
    if 0 <= i < path.len() {
        TreeView::Dir { entries: seq![(path[i], nest(path, i + 1, t))] }
    } else {
        t
    }
}

/// The names of a path, one byte sequence per segment.
pub open spec fn names_view(path: Seq<crate::name::FileName>) -> Seq<Seq<u8>> {
    path.map_values(|n: crate::name::FileName| n@)
}

} // verus!

verus! {

/// The children of a directory value; empty for a leaf.
pub open spec fn view_entries(t: TreeView) -> Seq<(Seq<u8>, TreeView)> {
    match t {
        TreeView::Dir { entries } => entries,
        TreeView::Leaf { .. } => Seq::empty(),
    }
}

} // verus!
