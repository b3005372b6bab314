use vstd::prelude::*;

use crate::error::DirectoryError;

verus! {

/// The path separator byte `/`; no valid file name contains it.
pub const SEPARATOR: u8 = 47;

/// The byte `.`; the names `.` and `..` are reserved and rejected.
pub const DOT: u8 = 46;

/// What it means for a byte sequence to be a valid path segment:
/// non-empty, free of separators, and not one of the reserved names
/// `.` and `..`.
pub open spec fn valid_name(s: Seq<u8>) -> bool {
    &&& s.len() > 0
    &&& forall|i: int| 0 <= i < s.len() ==> s[i] != SEPARATOR
    &&& s != seq![DOT]
    &&& s != seq![DOT, DOT]
}

/// Strict byte-wise lexicographic order on names.
pub open spec fn lex_lt(a: Seq<u8>, b: Seq<u8>) -> bool
    decreases a.len(),
{
    if b.len() == 0 {
        false
    } else if a.len() == 0 {
        true
    } else if a[0] < b[0] {
        true
    } else if a[0] > b[0] {
        false
    } else {
        lex_lt(a.drop_first(), b.drop_first())
    }
}

/// The lexicographic order is irreflexive.
pub proof fn lemma_lex_irrefl(a: Seq<u8>)
    ensures
        !lex_lt(a, a),
    decreases a.len(),
{
    if a.len() > 0 {
        lemma_lex_irrefl(a.drop_first());
    }
}

/// Any two names are ordered one way or the other, or are equal.
pub proof fn lemma_lex_trichotomy(a: Seq<u8>, b: Seq<u8>)
    ensures
        lex_lt(a, b) || lex_lt(b, a) || a == b,
    decreases a.len(),
{
    if a.len() == 0 && b.len() == 0 {
        assert(a =~= b);
    } else if a.len() > 0 && b.len() > 0 && a[0] == b[0] {
        lemma_lex_trichotomy(a.drop_first(), b.drop_first());
        if a.drop_first() == b.drop_first() {
            assert(a =~= seq![a[0]] + a.drop_first());
            assert(b =~= seq![b[0]] + b.drop_first());
        }
    }
}

/// The lexicographic order is transitive.
pub proof fn lemma_lex_trans(a: Seq<u8>, b: Seq<u8>, c: Seq<u8>)
    requires
        lex_lt(a, b),
        lex_lt(b, c),
    ensures
        lex_lt(a, c),
    decreases b.len(),
{
    if a.len() > 0 {
        if a[0] == b[0] && b[0] == c[0] {
            lemma_lex_trans(a.drop_first(), b.drop_first(), c.drop_first());
        }
    }
}

/// Ordered names are distinct.
pub proof fn lemma_lex_neq(a: Seq<u8>, b: Seq<u8>)
    requires
        lex_lt(a, b),
    ensures
        a != b,
{
    lemma_lex_irrefl(a);
}

/// A validated, immutable path segment; ordering and equality are byte-wise.
#[derive(Debug)]
pub struct FileName {
    bytes: Vec<u8>,
}

impl View for FileName {
    type V = Seq<u8>;

    closed spec fn view(&self) -> Seq<u8> {
        self.bytes@
    }
}

impl FileName {
    /// A name is well formed when its bytes pass validation; `new` is the
    /// only constructor, so every `FileName` in a tree is well formed.
    pub open spec fn wf(&self) -> bool {
        valid_name(self@)
    }

    /// Validates `bytes` as a path segment; rejection happens here, before a
    /// name can enter any tree.
    pub fn new(bytes: Vec<u8>) -> (r: Result<FileName, DirectoryError>)
        ensures
            match r {
                Ok(n) => valid_name(bytes@) && n@ == bytes@,
                Err(e) => !valid_name(bytes@) && e == DirectoryError::InvalidName,
            },
    {
        if bytes.len() == 0 {
            return Err(DirectoryError::InvalidName);
        }
        let mut i: usize = 0;
        while i < bytes.len()
            invariant
                0 <= i <= bytes@.len(),
                forall|k: int| 0 <= k < i ==> bytes@[k] != SEPARATOR,
            decreases bytes@.len() - i,
        {
            if bytes[i] == SEPARATOR {
                return Err(DirectoryError::InvalidName);
            }
            i += 1;
        }
        if bytes.len() == 1 && bytes[0] == DOT {
            proof {
                assert(bytes@ =~= seq![DOT]);
            }
            return Err(DirectoryError::InvalidName);
        }
        if bytes.len() == 2 && bytes[0] == DOT && bytes[1] == DOT {
            proof {
                assert(bytes@ =~= seq![DOT, DOT]);
            }
            return Err(DirectoryError::InvalidName);
        }
        proof {
            if bytes@ == seq![DOT] {
                assert(bytes@.len() == 1 && bytes@[0] == DOT);
            }
            if bytes@ == seq![DOT, DOT] {
                assert(bytes@.len() == 2 && bytes@[0] == DOT && bytes@[1] == DOT);
            }
        }
        Ok(FileName { bytes })
    }

    /// The raw bytes of the name.
    pub fn as_bytes(&self) -> (r: &Vec<u8>)
        ensures
            r@ == self@,
    {
        &self.bytes
    }

    /// An independent copy of the name.
    pub fn duplicate(&self) -> (r: FileName)
        ensures
            r@ == self@,
    {
        let bytes = self.bytes.clone();
        proof {
            assert(bytes@ =~= self.bytes@);
        }
        FileName { bytes }
    }
}

/// The result of a three-way byte-wise comparison of two names.
#[derive(PartialEq, Eq, Structural)]
pub enum NameOrder {
    Before,
    Same,
    After,
}

/// Splitting off equal heads preserves the lexicographic order: while two
/// names agree on a prefix, their order is decided by the rest.
proof fn lemma_lex_skip(a: Seq<u8>, b: Seq<u8>, i: int)
    requires
        0 <= i <= a.len(),
        i <= b.len(),
        forall|k: int| 0 <= k < i ==> a[k] == b[k],
    ensures
        lex_lt(a, b) == lex_lt(a.skip(i), b.skip(i)),
    decreases i,
{
    if i > 0 {
        assert(a[0] == b[0]);
        assert forall|k: int| 0 <= k < i - 1 implies a.drop_first()[k] == b.drop_first()[k] by {
            assert(a[k + 1] == b[k + 1]);
        }
        lemma_lex_skip(a.drop_first(), b.drop_first(), i - 1);
        assert(a.drop_first().skip(i - 1) =~= a.skip(i));
        assert(b.drop_first().skip(i - 1) =~= b.skip(i));
    } else {
        assert(a.skip(0) =~= a);
        assert(b.skip(0) =~= b);
    }
}

/// Three-way comparison of two byte vectors under the lexicographic order.
pub fn compare_bytes(a: &Vec<u8>, b: &Vec<u8>) -> (o: NameOrder)
    ensures
        o == NameOrder::Before <==> lex_lt(a@, b@),
        o == NameOrder::Same <==> a@ == b@,
        o == NameOrder::After <==> lex_lt(b@, a@),
{
    proof {
        lemma_lex_trichotomy(a@, b@);
        lemma_lex_irrefl(a@);
        if lex_lt(a@, b@) {
            lemma_lex_neq(a@, b@);
            if lex_lt(b@, a@) {
                lemma_lex_trans(a@, b@, a@);
            }
        }
        if lex_lt(b@, a@) {
            lemma_lex_neq(b@, a@);
        }
    }
    let mut i: usize = 0;
    while i < a.len() && i < b.len()
        invariant
            0 <= i <= a@.len(),
            0 <= i <= b@.len(),
            forall|k: int| 0 <= k < i ==> a@[k] == b@[k],
        decreases a@.len() - i,
    {
        let x = a[i];
        let y = b[i];
        proof {
            lemma_lex_skip(a@, b@, i as int);
            lemma_lex_skip(b@, a@, i as int);
            assert(a@.skip(i as int)[0] == a@[i as int]);
            assert(b@.skip(i as int)[0] == b@[i as int]);
        }
        if x < y {
            return NameOrder::Before;
        }
        if x > y {
            return NameOrder::After;
        }
        i += 1;
    }
    if a.len() == b.len() {
        proof {
            assert(a@ =~= b@);
        }
        NameOrder::Same
    } else if a.len() < b.len() {
        proof {
            lemma_lex_skip(a@, b@, i as int);
            lemma_lex_skip(b@, a@, i as int);
            assert(a@.skip(i as int).len() == 0);
            assert(b@.skip(i as int).len() > 0);
        }
        NameOrder::Before
    } else {
        proof {
            lemma_lex_skip(a@, b@, i as int);
            lemma_lex_skip(b@, a@, i as int);
            assert(b@.skip(i as int).len() == 0);
            assert(a@.skip(i as int).len() > 0);
        }
        NameOrder::After
    }
}

/// Three-way comparison of two names.
pub fn compare_names(a: &FileName, b: &FileName) -> (o: NameOrder)
    ensures
        o == NameOrder::Before <==> lex_lt(a@, b@),
        o == NameOrder::Same <==> a@ == b@,
        o == NameOrder::After <==> lex_lt(b@, a@),
{
    compare_bytes(&a.bytes, &b.bytes)
}

} // verus!
