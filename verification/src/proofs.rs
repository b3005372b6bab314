use vstd::prelude::*;

use crate::model::{
    byte_tokens, encode, encode_body, encode_entries, entries_sorted, lookup, seq_insert,
    seq_remove, tree_bounded, TreeView, DIR_TAG, LEAF_TAG,
};
use crate::name::{lemma_lex_neq, lemma_lex_trans, lemma_lex_trichotomy, lex_lt};

verus! {

/// Equal-length prefixes of equal concatenations agree, and so do the rests.
pub proof fn lemma_concat_parts(x: Seq<u64>, y: Seq<u64>, rx: Seq<u64>, ry: Seq<u64>)
    requires
        x.len() == y.len(),
        x + rx == y + ry,
    ensures
        x == y,
        rx == ry,
{
    assert((x + rx).len() == x.len() + rx.len());
    assert((y + ry).len() == y.len() + ry.len());
    assert(rx.len() == ry.len());
    assert(x =~= y) by {
        assert forall|k: int| 0 <= k < x.len() implies x[k] == y[k] by {
            assert((x + rx)[k] == x[k]);
            assert((y + ry)[k] == y[k]);
        }
    }
    assert(rx =~= ry) by {
        assert forall|k: int| 0 <= k < rx.len() implies rx[k] == ry[k] by {
            assert((x + rx)[x.len() + k] == rx[k]);
            assert((y + ry)[y.len() + k] == ry[k]);
        }
    }
}

/// Widening bytes to tokens loses nothing.
pub proof fn lemma_byte_tokens_inj(a: Seq<u8>, b: Seq<u8>)
    requires
        byte_tokens(a) == byte_tokens(b),
    ensures
        a == b,
{
    assert(byte_tokens(a).len() == a.len());
    assert(byte_tokens(b).len() == b.len());
    assert(a =~= b) by {
        assert forall|k: int| 0 <= k < a.len() implies a[k] == b[k] by {
            assert(byte_tokens(a)[k] == a[k] as u64);
            assert(byte_tokens(b)[k] == b[k] as u64);
        }
    }
}

/// The encoding of a bounded tree determines the tree and is prefix-free:
/// if two encodings agree once extended by arbitrary rests, the trees and
/// the rests agree. The leading body-length token pins the boundary.
pub proof fn lemma_encode_prefix(a: TreeView, b: TreeView, ra: Seq<u64>, rb: Seq<u64>)
    requires
        tree_bounded(a),
        tree_bounded(b),
        encode(a) + ra == encode(b) + rb,
    ensures
        a == b,
        ra == rb,
    decreases a, 2int,
{
    let ba = encode_body(a);
    let bb = encode_body(b);
    assert((encode(a) + ra)[0] == ba.len() as u64);
    assert((encode(b) + rb)[0] == bb.len() as u64);
    assert(ba.len() == bb.len());
    lemma_concat_parts(encode(a), encode(b), ra, rb);
    lemma_concat_parts(seq![ba.len() as u64], seq![bb.len() as u64], ba, bb);
    match (a, b) {
        (TreeView::Leaf { content: ca }, TreeView::Leaf { content: cb }) => {
            assert(ba[1] == ca.len() as u64);
            assert(bb[1] == cb.len() as u64);
            assert(ca.len() == cb.len());
            lemma_concat_parts(
                seq![LEAF_TAG, ca.len() as u64],
                seq![LEAF_TAG, cb.len() as u64],
                byte_tokens(ca),
                byte_tokens(cb),
            );
            lemma_byte_tokens_inj(ca, cb);
        },
        (TreeView::Dir { entries: aes }, TreeView::Dir { entries: bes }) => {
            assert(ba[1] == aes.len() as u64);
            assert(bb[1] == bes.len() as u64);
            assert(aes.len() == bes.len());
            lemma_concat_parts(
                seq![DIR_TAG, aes.len() as u64],
                seq![DIR_TAG, bes.len() as u64],
                encode_entries(aes, 0),
                encode_entries(bes, 0),
            );
            assert(encode_entries(aes, 0) + Seq::<u64>::empty() =~= encode_entries(aes, 0));
            assert(encode_entries(bes, 0) + Seq::<u64>::empty() =~= encode_entries(bes, 0));
            lemma_entries_prefix(aes, 0, bes, 0, Seq::empty(), Seq::empty());
            assert(aes.subrange(0, aes.len() as int) =~= aes);
            assert(bes.subrange(0, bes.len() as int) =~= bes);
        },
        (TreeView::Leaf { .. }, TreeView::Dir { .. }) => {
            assert(ba[0] == LEAF_TAG);
            assert(bb[0] == DIR_TAG);
            assert(false);
        },
        (TreeView::Dir { .. }, TreeView::Leaf { .. }) => {
            assert(ba[0] == DIR_TAG);
            assert(bb[0] == LEAF_TAG);
            assert(false);
        },
    }
}

/// Companion to `lemma_encode_prefix` for entry lists of equal remaining
/// length whose concatenated encodings agree up to rests.
pub proof fn lemma_entries_prefix(
    aes: Seq<(Seq<u8>, TreeView)>,
    ai: int,
    bes: Seq<(Seq<u8>, TreeView)>,
    bi: int,
    ra: Seq<u64>,
    rb: Seq<u64>,
)
    requires
        tree_bounded(TreeView::Dir { entries: aes }),
        tree_bounded(TreeView::Dir { entries: bes }),
        0 <= ai <= aes.len(),
        0 <= bi <= bes.len(),
        aes.len() - ai == bes.len() - bi,
        encode_entries(aes, ai) + ra == encode_entries(bes, bi) + rb,
    ensures
        aes.subrange(ai, aes.len() as int) == bes.subrange(bi, bes.len() as int),
        ra == rb,
    decreases aes, aes.len() - ai, 1int,
{
    if ai == aes.len() {
        assert(encode_entries(aes, ai) + ra =~= ra);
        assert(encode_entries(bes, bi) + rb =~= rb);
        assert(aes.subrange(ai, aes.len() as int) =~= bes.subrange(bi, bes.len() as int));
    } else {
        let na = aes[ai].0;
        let nb = bes[bi].0;
        let va = aes[ai].1;
        let vb = bes[bi].1;
        let ta = encode_entries(aes, ai + 1);
        let tb = encode_entries(bes, bi + 1);
        assert(encode_entries(aes, ai) + ra =~= seq![na.len() as u64] + (byte_tokens(na) + (encode(
            va,
        ) + (ta + ra))));
        assert(encode_entries(bes, bi) + rb =~= seq![nb.len() as u64] + (byte_tokens(nb) + (encode(
            vb,
        ) + (tb + rb))));
        lemma_concat_parts(
            seq![na.len() as u64],
            seq![nb.len() as u64],
            byte_tokens(na) + (encode(va) + (ta + ra)),
            byte_tokens(nb) + (encode(vb) + (tb + rb)),
        );
        assert((seq![na.len() as u64])[0] == na.len() as u64);
        assert(na.len() == nb.len());
        lemma_concat_parts(
            byte_tokens(na),
            byte_tokens(nb),
            encode(va) + (ta + ra),
            encode(vb) + (tb + rb),
        );
        lemma_byte_tokens_inj(na, nb);
        lemma_encode_prefix(va, vb, ta + ra, tb + rb);
        lemma_entries_prefix(aes, ai + 1, bes, bi + 1, ra, rb);
        assert(aes.subrange(ai, aes.len() as int) =~= bes.subrange(bi, bes.len() as int)) by {
            assert(aes[ai] == bes[bi]);
            assert(forall|k: int|
                0 < k < aes.len() - ai ==> aes.subrange(ai, aes.len() as int)[k] == aes.subrange(
                    ai + 1,
                    aes.len() as int,
                )[k - 1]);
            assert(forall|k: int|
                0 < k < bes.len() - bi ==> bes.subrange(bi, bes.len() as int)[k] == bes.subrange(
                    bi + 1,
                    bes.len() as int,
                )[k - 1]);
        }
    }
}

/// Fingerprint injectivity: bounded trees with equal encodings are equal.
pub proof fn lemma_encode_injective(a: TreeView, b: TreeView)
    requires
        tree_bounded(a),
        tree_bounded(b),
        encode(a) == encode(b),
    ensures
        a == b,
{
    assert(encode(a) + Seq::<u64>::empty() =~= encode(a));
    assert(encode(b) + Seq::<u64>::empty() =~= encode(b));
    lemma_encode_prefix(a, b, Seq::empty(), Seq::empty());
}

/// Fingerprint sensitivity: distinct bounded trees have distinct encodings,
/// so any change to a node's children or a leaf's content changes the
/// fingerprint of that node and, by the same argument level by level, of
/// every ancestor, while nodes whose value is unchanged keep theirs.
pub proof fn lemma_encode_sensitive(a: TreeView, b: TreeView)
    requires
        tree_bounded(a),
        tree_bounded(b),
        a != b,
    ensures
        encode(a) != encode(b),
{
    if encode(a) == encode(b) {
        lemma_encode_injective(a, b);
    }
}

/// Names strictly below the first entry are absent from a sorted list.
pub proof fn lemma_lookup_below(es: Seq<(Seq<u8>, TreeView)>, n: Seq<u8>)
    requires
        entries_sorted(es),
        es.len() > 0 ==> lex_lt(n, es[0].0),
    ensures
        lookup(es, n) is None,
    decreases es.len(),
{
    if es.len() > 0 {
        lemma_lex_neq(n, es[0].0);
        let tail = es.drop_first();
        assert forall|i: int, j: int| 0 <= i < j < tail.len() implies lex_lt(
            #[trigger] tail[i].0,
            #[trigger] tail[j].0,
        ) by {
            assert(tail[i] == es[i + 1]);
            assert(tail[j] == es[j + 1]);
        }
        if tail.len() > 0 {
            assert(tail[0] == es[1]);
            lemma_lex_trans(n, es[0].0, es[1].0);
        }
        lemma_lookup_below(tail, n);
    }
}

/// In a sorted list, each entry is found under its own name.
pub proof fn lemma_lookup_present(es: Seq<(Seq<u8>, TreeView)>, k: int)
    requires
        entries_sorted(es),
        0 <= k < es.len(),
    ensures
        lookup(es, es[k].0) == Some(es[k].1),
    decreases es.len(),
{
    if k > 0 {
        lemma_lex_neq(es[0].0, es[k].0);
        let tail = es.drop_first();
        assert forall|i: int, j: int| 0 <= i < j < tail.len() implies lex_lt(
            #[trigger] tail[i].0,
            #[trigger] tail[j].0,
        ) by {
            assert(tail[i] == es[i + 1]);
            assert(tail[j] == es[j + 1]);
        }
        assert(tail[k - 1] == es[k]);
        lemma_lookup_present(tail, k - 1);
    }
}

/// A name matching no entry is absent, sorted or not.
pub proof fn lemma_lookup_absent(es: Seq<(Seq<u8>, TreeView)>, n: Seq<u8>)
    requires
        forall|k: int| 0 <= k < es.len() ==> (#[trigger] es[k]).0 != n,
    ensures
        lookup(es, n) is None,
    decreases es.len(),
{
    if es.len() > 0 {
        let tail = es.drop_first();
        assert forall|k: int| 0 <= k < tail.len() implies (#[trigger] tail[k]).0 != n by {
            assert(tail[k] == es[k + 1]);
        }
        lemma_lookup_absent(tail, n);
    }
}

/// Sorted lists with the same lookup function are the same list: the
/// canonical form is determined by the mapping it represents, so any
/// insertion order that reaches the same children reaches the same value.
pub proof fn lemma_entries_extensional(aes: Seq<(Seq<u8>, TreeView)>, bes: Seq<(Seq<u8>, TreeView)>)
    requires
        entries_sorted(aes),
        entries_sorted(bes),
        forall|n: Seq<u8>| #[trigger] lookup(aes, n) == lookup(bes, n),
    ensures
        aes == bes,
    decreases aes.len(),
{
    if aes.len() == 0 && bes.len() == 0 {
        assert(aes =~= bes);
    } else if aes.len() == 0 {
        assert(lookup(bes, bes[0].0) == Some(bes[0].1));
        assert(lookup(aes, bes[0].0) is None);
    } else if bes.len() == 0 {
        assert(lookup(aes, aes[0].0) == Some(aes[0].1));
        assert(lookup(bes, aes[0].0) is None);
    } else {
        let a0 = aes[0].0;
        let b0 = bes[0].0;
        lemma_lex_trichotomy(a0, b0);
        if lex_lt(a0, b0) {
            lemma_lookup_below(bes, a0);
            assert(lookup(aes, a0) == Some(aes[0].1));
            assert(false);
        }
        if lex_lt(b0, a0) {
            lemma_lookup_below(aes, b0);
            assert(lookup(bes, b0) == Some(bes[0].1));
            assert(false);
        }
        assert(lookup(aes, a0) == Some(aes[0].1));
        assert(lookup(bes, a0) == Some(bes[0].1));
        assert(aes[0] == bes[0]);
        let ta = aes.drop_first();
        let tb = bes.drop_first();
        assert forall|i: int, j: int| 0 <= i < j < ta.len() implies lex_lt(
            #[trigger] ta[i].0,
            #[trigger] ta[j].0,
        ) by {
            assert(ta[i] == aes[i + 1]);
            assert(ta[j] == aes[j + 1]);
        }
        assert forall|i: int, j: int| 0 <= i < j < tb.len() implies lex_lt(
            #[trigger] tb[i].0,
            #[trigger] tb[j].0,
        ) by {
            assert(tb[i] == bes[i + 1]);
            assert(tb[j] == bes[j + 1]);
        }
        assert forall|n: Seq<u8>| #[trigger] lookup(ta, n) == lookup(tb, n) by {
            if n == a0 {
                if ta.len() > 0 {
                    assert(ta[0] == aes[1]);
                    assert(lex_lt(aes[0].0, aes[1].0));
                }
                if tb.len() > 0 {
                    assert(tb[0] == bes[1]);
                    assert(lex_lt(bes[0].0, bes[1].0));
                }
                lemma_lookup_below(ta, a0);
                lemma_lookup_below(tb, a0);
            } else {
                assert(lookup(aes, n) == lookup(ta, n));
                assert(lookup(bes, n) == lookup(tb, n));
            }
        }
        lemma_entries_extensional(ta, tb);
        assert(aes =~= bes) by {
            assert forall|k: int| 0 <= k < aes.len() implies aes[k] == bes[k] by {
                if k > 0 {
                    assert(ta[k - 1] == aes[k]);
                    assert(tb[k - 1] == bes[k]);
                }
            }
        }
    }
}

} // verus!

verus! {

/// What insertion does to the canonical list: the order stays strict, the
/// lookup function changes exactly at the inserted name, every entry is the
/// new one or one of the old ones, and the length grows only on a fresh name.
pub proof fn lemma_seq_insert(es: Seq<(Seq<u8>, TreeView)>, name: Seq<u8>, v: TreeView)
    requires
        entries_sorted(es),
    ensures
        entries_sorted(seq_insert(es, name, v)),
        forall|n: Seq<u8>| #[trigger] lookup(seq_insert(es, name, v), n) == if n == name {
            Some(v)
        } else {
            lookup(es, n)
        },
        forall|k: int|
            0 <= k < seq_insert(es, name, v).len() ==> #[trigger] seq_insert(es, name, v)[k] == (
            name,
            v,
            ) || es.contains(seq_insert(es, name, v)[k]),
        seq_insert(es, name, v).len() == if lookup(es, name) is Some {
            es.len()
        } else {
            es.len() + 1
        },
    decreases es.len(),
{
    let res = seq_insert(es, name, v);
    if es.len() == 0 {
        assert forall|n: Seq<u8>| #[trigger] lookup(res, n) == if n == name {
            Some(v)
        } else {
            lookup(es, n)
        } by {
            assert(res.drop_first() =~= Seq::<(Seq<u8>, TreeView)>::empty());
            assert(lookup(Seq::<(Seq<u8>, TreeView)>::empty(), n) is None);
        }
    } else if lex_lt(es[0].0, name) {
        let tail = es.drop_first();
        assert forall|i: int, j: int| 0 <= i < j < tail.len() implies lex_lt(
            #[trigger] tail[i].0,
            #[trigger] tail[j].0,
        ) by {
            assert(tail[i] == es[i + 1]);
            assert(tail[j] == es[j + 1]);
        }
        lemma_seq_insert(tail, name, v);
        let sub = seq_insert(tail, name, v);
        assert(res =~= seq![es[0]] + sub);
        lemma_lex_neq(es[0].0, name);
        assert forall|i: int, j: int| 0 <= i < j < res.len() implies lex_lt(
            #[trigger] res[i].0,
            #[trigger] res[j].0,
        ) by {
            if i == 0 {
                assert(res[j] == sub[j - 1]);
                if sub[j - 1] == (name, v) {
                } else {
                    assert(tail.contains(sub[j - 1]));
                    let w = choose|w: int| 0 <= w < tail.len() && tail[w] == sub[j - 1];
                    assert(tail[w] == es[w + 1]);
                    assert(lex_lt(es[0].0, es[w + 1].0));
                }
            } else {
                assert(res[i] == sub[i - 1]);
                assert(res[j] == sub[j - 1]);
            }
        }
        assert forall|n: Seq<u8>| #[trigger] lookup(res, n) == if n == name {
            Some(v)
        } else {
            lookup(es, n)
        } by {
            assert(res[0] == es[0]);
            assert(res.drop_first() =~= sub);
            if n != es[0].0 {
                assert(lookup(res, n) == lookup(sub, n));
                assert(lookup(es, n) == lookup(tail, n));
            }
        }
        assert forall|k: int| 0 <= k < res.len() implies #[trigger] res[k] == (name, v)
            || es.contains(res[k]) by {
            if k == 0 {
                assert(es[0] == res[0]);
                assert(es.contains(res[0]));
            } else {
                assert(res[k] == sub[k - 1]);
                if sub[k - 1] != (name, v) {
                    assert(tail.contains(sub[k - 1]));
                    let w = choose|w: int| 0 <= w < tail.len() && tail[w] == sub[k - 1];
                    assert(es[w + 1] == tail[w]);
                    assert(es.contains(es[w + 1]));
                }
            }
        }
        assert(lookup(es, name) == lookup(tail, name));
    } else if es[0].0 == name {
        let tail = es.drop_first();
        assert(res =~= seq![(name, v)] + tail);
        assert forall|i: int, j: int| 0 <= i < j < res.len() implies lex_lt(
            #[trigger] res[i].0,
            #[trigger] res[j].0,
        ) by {
            if i == 0 {
                assert(res[j] == tail[j - 1]);
                assert(tail[j - 1] == es[j]);
                assert(lex_lt(es[0].0, es[j].0));
            } else {
                assert(res[i] == es[i]);
                assert(res[j] == es[j]);
            }
        }
        assert forall|n: Seq<u8>| #[trigger] lookup(res, n) == if n == name {
            Some(v)
        } else {
            lookup(es, n)
        } by {
            assert(res.drop_first() =~= tail);
        }
        assert forall|k: int| 0 <= k < res.len() implies #[trigger] res[k] == (name, v)
            || es.contains(res[k]) by {
            if k > 0 {
                assert(res[k] == es[k]);
                assert(es.contains(es[k]));
            }
        }
    } else {
        lemma_lex_trichotomy(es[0].0, name);
        assert(lex_lt(name, es[0].0));
        assert(res =~= seq![(name, v)] + es);
        assert forall|i: int, j: int| 0 <= i < j < res.len() implies lex_lt(
            #[trigger] res[i].0,
            #[trigger] res[j].0,
        ) by {
            if i == 0 {
                assert(res[j] == es[j - 1]);
                if j > 1 {
                    lemma_lex_trans(name, es[0].0, es[j - 1].0);
                }
            } else {
                assert(res[i] == es[i - 1]);
                assert(res[j] == es[j - 1]);
            }
        }
        lemma_lookup_below(es, name);
        assert forall|n: Seq<u8>| #[trigger] lookup(res, n) == if n == name {
            Some(v)
        } else {
            lookup(es, n)
        } by {
            assert(res.drop_first() =~= es);
        }
        assert forall|k: int| 0 <= k < res.len() implies #[trigger] res[k] == (name, v)
            || es.contains(res[k]) by {
            if k > 0 {
                assert(res[k] == es[k - 1]);
                assert(es.contains(es[k - 1]));
            }
        }
    }
}

/// When the name is already present at index `idx`, insertion is exactly an
/// update in place.
pub proof fn lemma_seq_insert_found(
    es: Seq<(Seq<u8>, TreeView)>,
    name: Seq<u8>,
    v: TreeView,
    idx: int,
)
    requires
        entries_sorted(es),
        0 <= idx < es.len(),
        es[idx].0 == name,
    ensures
        seq_insert(es, name, v) == es.update(idx, (name, v)),
    decreases idx,
{
    let res = seq_insert(es, name, v);
    let tail = es.drop_first();
    crate::name::lemma_lex_irrefl(name);
    if idx == 0 {
        assert(res =~= es.update(0, (name, v)));
    } else {
        assert(lex_lt(es[0].0, es[idx].0));
        assert forall|i: int, j: int| 0 <= i < j < tail.len() implies lex_lt(
            #[trigger] tail[i].0,
            #[trigger] tail[j].0,
        ) by {
            assert(tail[i] == es[i + 1]);
            assert(tail[j] == es[j + 1]);
        }
        assert(tail[idx - 1] == es[idx]);
        lemma_seq_insert_found(tail, name, v, idx - 1);
        assert(res =~= es.update(idx, (name, v))) by {
            assert forall|k: int| 0 <= k < res.len() implies res[k] == es.update(idx, (name, v))[k]
            by {
                if k > 0 {
                    assert(res[k] == seq_insert(tail, name, v)[k - 1]);
                    assert(tail.update(idx - 1, (name, v))[k - 1] == es.update(idx, (name, v))[k]);
                }
            }
        }
    }
}

/// When the name is fresh and `idx` is its sorted position, insertion is
/// exactly `Seq::insert` at that position.
pub proof fn lemma_seq_insert_fresh(
    es: Seq<(Seq<u8>, TreeView)>,
    name: Seq<u8>,
    v: TreeView,
    idx: int,
)
    requires
        entries_sorted(es),
        0 <= idx <= es.len(),
        forall|k: int| 0 <= k < idx ==> lex_lt(#[trigger] es[k].0, name),
        idx < es.len() ==> lex_lt(name, es[idx].0),
    ensures
        seq_insert(es, name, v) == es.insert(idx, (name, v)),
    decreases idx,
{
    let res = seq_insert(es, name, v);
    let tail = es.drop_first();
    if idx == 0 {
        if es.len() > 0 {
            lemma_lex_neq(name, es[0].0);
            if lex_lt(es[0].0, name) {
                lemma_lex_trans(name, es[0].0, name);
                crate::name::lemma_lex_irrefl(name);
            }
        }
        assert(res =~= es.insert(0, (name, v)));
    } else {
        assert(lex_lt(es[0].0, name));
        assert forall|i: int, j: int| 0 <= i < j < tail.len() implies lex_lt(
            #[trigger] tail[i].0,
            #[trigger] tail[j].0,
        ) by {
            assert(tail[i] == es[i + 1]);
            assert(tail[j] == es[j + 1]);
        }
        assert forall|k: int| 0 <= k < idx - 1 implies lex_lt(#[trigger] tail[k].0, name) by {
            assert(tail[k] == es[k + 1]);
        }
        if idx - 1 < tail.len() {
            assert(tail[idx - 1] == es[idx]);
        }
        lemma_seq_insert_fresh(tail, name, v, idx - 1);
        assert(res =~= es.insert(idx, (name, v))) by {
            assert forall|k: int| 0 <= k < res.len() implies res[k] == es.insert(idx, (name, v))[k]
            by {
                if k > 0 {
                    assert(res[k] == seq_insert(tail, name, v)[k - 1]);
                    assert(tail.insert(idx - 1, (name, v))[k - 1] == es.insert(idx, (name, v))[k]);
                }
            }
        }
    }
}

/// What removal does to the canonical list.
pub proof fn lemma_seq_remove(es: Seq<(Seq<u8>, TreeView)>, name: Seq<u8>)
    requires
        entries_sorted(es),
    ensures
        entries_sorted(seq_remove(es, name)),
        forall|n: Seq<u8>| #[trigger] lookup(seq_remove(es, name), n) == if n == name {
            None
        } else {
            lookup(es, n)
        },
        forall|k: int|
            0 <= k < seq_remove(es, name).len() ==> es.contains(
                #[trigger] seq_remove(es, name)[k],
            ),
        seq_remove(es, name).len() == if lookup(es, name) is Some {
            es.len() - 1
        } else {
            es.len() as int
        },
    decreases es.len(),
{
    let res = seq_remove(es, name);
    if es.len() == 0 {
    } else {
        let tail = es.drop_first();
        assert forall|i: int, j: int| 0 <= i < j < tail.len() implies lex_lt(
            #[trigger] tail[i].0,
            #[trigger] tail[j].0,
        ) by {
            assert(tail[i] == es[i + 1]);
            assert(tail[j] == es[j + 1]);
        }
        if es[0].0 == name {
            assert(res =~= tail);
            assert forall|n: Seq<u8>| #[trigger] lookup(res, n) == if n == name {
                None
            } else {
                lookup(es, n)
            } by {
                if n == name {
                    if tail.len() > 0 {
                        assert(tail[0] == es[1]);
                        assert(lex_lt(es[0].0, es[1].0));
                    }
                    lemma_lookup_below(tail, name);
                }
            }
            assert forall|k: int| 0 <= k < res.len() implies es.contains(#[trigger] res[k]) by {
                assert(res[k] == es[k + 1]);
            }
        } else {
            lemma_seq_remove(tail, name);
            let sub = seq_remove(tail, name);
            assert(res =~= seq![es[0]] + sub);
            assert forall|i: int, j: int| 0 <= i < j < res.len() implies lex_lt(
                #[trigger] res[i].0,
                #[trigger] res[j].0,
            ) by {
                if i == 0 {
                    assert(res[j] == sub[j - 1]);
                    assert(tail.contains(sub[j - 1]));
                    let w = choose|w: int| 0 <= w < tail.len() && tail[w] == sub[j - 1];
                    assert(tail[w] == es[w + 1]);
                    assert(lex_lt(es[0].0, es[w + 1].0));
                } else {
                    assert(res[i] == sub[i - 1]);
                    assert(res[j] == sub[j - 1]);
                }
            }
            assert forall|n: Seq<u8>| #[trigger] lookup(res, n) == if n == name {
                None
            } else {
                lookup(es, n)
            } by {
                assert(res[0] == es[0]);
                assert(res.drop_first() =~= sub);
                if n != es[0].0 {
                    assert(lookup(res, n) == lookup(sub, n));
                    assert(lookup(es, n) == lookup(tail, n));
                }
            }
            assert forall|k: int| 0 <= k < res.len() implies es.contains(#[trigger] res[k]) by {
                if k == 0 {
                    assert(es.contains(es[0]));
                } else {
                    assert(res[k] == sub[k - 1]);
                    assert(tail.contains(sub[k - 1]));
                    let w = choose|w: int| 0 <= w < tail.len() && tail[w] == sub[k - 1];
                    assert(es[w + 1] == tail[w]);
                    assert(es.contains(es[w + 1]));
                }
            }
            assert(lookup(es, name) == lookup(tail, name));
        }
    }
}

/// When the name sits at index `idx`, removal is exactly `Seq::remove`.
pub proof fn lemma_seq_remove_found(es: Seq<(Seq<u8>, TreeView)>, name: Seq<u8>, idx: int)
    requires
        entries_sorted(es),
        0 <= idx < es.len(),
        es[idx].0 == name,
    ensures
        seq_remove(es, name) == es.remove(idx),
    decreases idx,
{
    let res = seq_remove(es, name);
    let tail = es.drop_first();
    if idx == 0 {
        assert(res =~= es.remove(0));
    } else {
        assert(lex_lt(es[0].0, es[idx].0));
        lemma_lex_neq(es[0].0, es[idx].0);
        assert forall|i: int, j: int| 0 <= i < j < tail.len() implies lex_lt(
            #[trigger] tail[i].0,
            #[trigger] tail[j].0,
        ) by {
            assert(tail[i] == es[i + 1]);
            assert(tail[j] == es[j + 1]);
        }
        assert(tail[idx - 1] == es[idx]);
        lemma_seq_remove_found(tail, name, idx - 1);
        assert(res =~= es.remove(idx)) by {
            assert forall|k: int| 0 <= k < res.len() implies res[k] == es.remove(idx)[k] by {
                if k > 0 {
                    assert(res[k] == seq_remove(tail, name)[k - 1]);
                    assert(tail.remove(idx - 1)[k - 1] == es.remove(idx)[k]);
                }
            }
        }
    }
}

/// Removing an absent name changes nothing.
pub proof fn lemma_seq_remove_absent(es: Seq<(Seq<u8>, TreeView)>, name: Seq<u8>)
    requires
        forall|k: int| 0 <= k < es.len() ==> (#[trigger] es[k]).0 != name,
    ensures
        seq_remove(es, name) == es,
    decreases es.len(),
{
    if es.len() > 0 {
        let tail = es.drop_first();
        assert forall|k: int| 0 <= k < tail.len() implies (#[trigger] tail[k]).0 != name by {
            assert(tail[k] == es[k + 1]);
        }
        lemma_seq_remove_absent(tail, name);
        assert(seq_remove(es, name) =~= es);
    }
}

/// Insertions under distinct names commute: the canonical value, and with it
/// the fingerprint, depends only on which children end up in the directory,
/// not on the order they were put there.
pub proof fn lemma_insert_commutes(
    es: Seq<(Seq<u8>, TreeView)>,
    n1: Seq<u8>,
    v1: TreeView,
    n2: Seq<u8>,
    v2: TreeView,
)
    requires
        entries_sorted(es),
        n1 != n2,
    ensures
        seq_insert(seq_insert(es, n1, v1), n2, v2) == seq_insert(seq_insert(es, n2, v2), n1, v1),
{
    lemma_seq_insert(es, n1, v1);
    lemma_seq_insert(es, n2, v2);
    lemma_seq_insert(seq_insert(es, n1, v1), n2, v2);
    lemma_seq_insert(seq_insert(es, n2, v2), n1, v1);
    lemma_entries_extensional(
        seq_insert(seq_insert(es, n1, v1), n2, v2),
        seq_insert(seq_insert(es, n2, v2), n1, v1),
    );
}

/// Replacing a child by a different value changes the directory's value, and
/// so, by `lemma_encode_sensitive`, its fingerprint and every ancestor's.
pub proof fn lemma_replace_changes_dir(es: Seq<(Seq<u8>, TreeView)>, name: Seq<u8>, v: TreeView)
    requires
        entries_sorted(es),
        (lookup(es, name) matches Some(w) && w != v),
    ensures
        (TreeView::Dir { entries: seq_insert(es, name, v) }) != (TreeView::Dir { entries: es }),
{
    lemma_seq_insert(es, name, v);
    assert(lookup(seq_insert(es, name, v), name) == Some(v));
}

} // verus!

verus! {

/// Replacing one child by a different subtree changes the parent's
/// fingerprint. Applied level by level up a path, this is what makes a change
/// reach every ancestor's fingerprint, while a sibling whose value is
/// untouched keeps its fingerprint, `encode` being a function of the value.
pub proof fn lemma_child_change_changes_fingerprint(
    es: Seq<(Seq<u8>, TreeView)>,
    name: Seq<u8>,
    v: TreeView,
)
    requires
        entries_sorted(es),
        (lookup(es, name) matches Some(w) && w != v),
        tree_bounded(TreeView::Dir { entries: es }),
        tree_bounded(TreeView::Dir { entries: seq_insert(es, name, v) }),
    ensures
        encode(TreeView::Dir { entries: seq_insert(es, name, v) }) != encode(
            TreeView::Dir { entries: es },
        ),
{
    lemma_replace_changes_dir(es, name, v);
    lemma_encode_sensitive(
        TreeView::Dir { entries: seq_insert(es, name, v) },
        TreeView::Dir { entries: es },
    );
}

} // verus!

verus! {

/// Fingerprint determinism: two well-formed directories with the same child
/// under every name are the same canonical value and so carry the same
/// encoding, however and in whatever order they were built.
pub proof fn lemma_fingerprint_deterministic(a: TreeView, b: TreeView)
    requires
        (a matches TreeView::Dir { .. }),
        (b matches TreeView::Dir { .. }),
        crate::model::tree_wf(a),
        crate::model::tree_wf(b),
        forall|n: Seq<u8>| #[trigger] crate::model::dir_child(a, n) == crate::model::dir_child(
            b,
            n,
        ),
    ensures
        a == b,
        encode(a) == encode(b),
{
    match (a, b) {
        (TreeView::Dir { entries: aes }, TreeView::Dir { entries: bes }) => {
            assert forall|n: Seq<u8>| #[trigger] lookup(aes, n) == lookup(bes, n) by {
                assert(crate::model::dir_child(a, n) == crate::model::dir_child(b, n));
            }
            lemma_entries_extensional(aes, bes);
        },
        _ => {},
    }
}

} // verus!
