use vstd::prelude::*;

verus! {

/// Equality of two token vectors, decided element by element.
pub fn tokens_equal(a: &Vec<u64>, b: &Vec<u64>) -> (r: bool)
    ensures
        r == (a@ == b@),
{
    if a.len() != b.len() {
        return false;
    }
    let mut i: usize = 0;
    while i < a.len()
        invariant
            0 <= i <= a@.len(),
            a@.len() == b@.len(),
            forall|k: int| 0 <= k < i ==> a@[k] == b@[k],
        decreases a@.len() - i,
    {
        if a[i] != b[i] {
            return false;
        }
        i += 1;
    }
    proof {
        assert(a@ =~= b@);
    }
    true
}

/// A content fingerprint: an opaque, equality-comparable, hashable token
/// usable as a cache key. Its value is the token encoding of the tree it was
/// computed from, so by the injectivity of that encoding, two well-formed
/// frozen trees carry equal fingerprints exactly when they are the same tree.
#[derive(Debug, Hash)]
pub struct Fingerprint {
    pub tokens: Vec<u64>,
}

impl View for Fingerprint {
    type V = Seq<u64>;

    open spec fn view(&self) -> Seq<u64> {
        self.tokens@
    }
}

impl Fingerprint {
    /// An independent copy of the fingerprint.
    pub fn duplicate(&self) -> (r: Fingerprint)
        ensures
            r@ == self@,
    {
        let mut tokens: Vec<u64> = Vec::new();
        let mut i: usize = 0;
        while i < self.tokens.len()
            invariant
                0 <= i <= self.tokens@.len(),
                tokens@ == self.tokens@.subrange(0, i as int),
            decreases self.tokens@.len() - i,
        {
            tokens.push(self.tokens[i]);
            proof {
                assert(tokens@ =~= self.tokens@.subrange(0, i + 1));
            }
            i += 1;
        }
        proof {
            assert(tokens@ =~= self.tokens@);
        }
        Fingerprint { tokens }
    }
}

/// Fingerprints compare as their token sequences; every frozen directory
/// representation inherits its equality from this one definition.
impl PartialEq for Fingerprint {
    fn eq(&self, other: &Self) -> (r: bool) {
        tokens_equal(&self.tokens, &other.tokens)
    }
}

impl vstd::std_specs::cmp::PartialEqSpecImpl for Fingerprint {
    open spec fn obeys_eq_spec() -> bool {
        true
    }

    open spec fn eq_spec(&self, other: &Fingerprint) -> bool {
        self.tokens@ == other.tokens@
    }
}

impl Eq for Fingerprint {

}

} // verus!

verus! {

/// Strict lexicographic order on token sequences: with equality it orders
/// fingerprints totally, so they can serve as sorted cache keys.
pub open spec fn token_lt(a: Seq<u64>, b: Seq<u64>) -> bool
    decreases a.len(),
{
    if b.len() == 0 {
        false
    } else if a.len() == 0 {
        true
    } else if a[0] < b[0] {
        true
    } else if a[0] > b[0] {
        false
    } else {
        token_lt(a.drop_first(), b.drop_first())
    }
}

/// The token order is irreflexive.
pub proof fn lemma_token_irrefl(a: Seq<u64>)
    ensures
        !token_lt(a, a),
    decreases a.len(),
{
    if a.len() > 0 {
        lemma_token_irrefl(a.drop_first());
    }
}

/// Any two token sequences are ordered one way or the other, or are equal.
pub proof fn lemma_token_trichotomy(a: Seq<u64>, b: Seq<u64>)
    ensures
        token_lt(a, b) || token_lt(b, a) || a == b,
    decreases a.len(),
{
    if a.len() == 0 && b.len() == 0 {
        assert(a =~= b);
    } else if a.len() > 0 && b.len() > 0 && a[0] == b[0] {
        lemma_token_trichotomy(a.drop_first(), b.drop_first());
        if a.drop_first() == b.drop_first() {
            assert(a =~= seq![a[0]] + a.drop_first());
            assert(b =~= seq![b[0]] + b.drop_first());
        }
    }
}

/// The token order is transitive.
pub proof fn lemma_token_trans(a: Seq<u64>, b: Seq<u64>, c: Seq<u64>)
    requires
        token_lt(a, b),
        token_lt(b, c),
    ensures
        token_lt(a, c),
    decreases b.len(),
{
    if a.len() > 0 {
        if a[0] == b[0] && b[0] == c[0] {
            lemma_token_trans(a.drop_first(), b.drop_first(), c.drop_first());
        }
    }
}

/// Splitting off equal heads preserves the token order.
proof fn lemma_token_skip(a: Seq<u64>, b: Seq<u64>, i: int)
    requires
        0 <= i <= a.len(),
        i <= b.len(),
        forall|k: int| 0 <= k < i ==> a[k] == b[k],
    ensures
        token_lt(a, b) == token_lt(a.skip(i), b.skip(i)),
    decreases i,
{
    if i > 0 {
        assert(a[0] == b[0]);
        assert forall|k: int| 0 <= k < i - 1 implies a.drop_first()[k] == b.drop_first()[k] by {
            assert(a[k + 1] == b[k + 1]);
        }
        lemma_token_skip(a.drop_first(), b.drop_first(), i - 1);
        assert(a.drop_first().skip(i - 1) =~= a.skip(i));
        assert(b.drop_first().skip(i - 1) =~= b.skip(i));
    } else {
        assert(a.skip(0) =~= a);
        assert(b.skip(0) =~= b);
    }
}

/// The result of comparing two fingerprints.
#[derive(Debug, PartialEq, Eq, Structural)]
pub enum FingerprintOrder {
    Less,
    Equal,
    Greater,
}

impl Fingerprint {
    /// Three-way comparison under the total token order.
    #[verifier::loop_isolation(false)]
    pub fn compare(&self, other: &Fingerprint) -> (o: FingerprintOrder)
        ensures
            o == FingerprintOrder::Less <==> token_lt(self@, other@),
            o == FingerprintOrder::Equal <==> self@ == other@,
            o == FingerprintOrder::Greater <==> token_lt(other@, self@),
    {
        let a = &self.tokens;
        let b = &other.tokens;
        proof {
            lemma_token_trichotomy(a@, b@);
            lemma_token_irrefl(a@);
            if token_lt(a@, b@) && token_lt(b@, a@) {
                lemma_token_trans(a@, b@, a@);
            }
            if token_lt(a@, b@) || token_lt(b@, a@) {
                if a@ == b@ {
                    lemma_token_irrefl(a@);
                }
            }
        }
        let mut i: usize = 0;
        while i < a.len() && i < b.len()
            invariant
                0 <= i <= a@.len(),
                0 <= i <= b@.len(),
                forall|k: int| 0 <= k < i ==> a@[k] == b@[k],
            decreases a@.len() - i,
        {
            let x = a[i];
            let y = b[i];
            proof {
                lemma_token_skip(a@, b@, i as int);
                lemma_token_skip(b@, a@, i as int);
                assert(a@.skip(i as int)[0] == a@[i as int]);
                assert(b@.skip(i as int)[0] == b@[i as int]);
            }
            if x < y {
                return FingerprintOrder::Less;
            }
            if x > y {
                return FingerprintOrder::Greater;
            }
            i += 1;
        }
        if a.len() == b.len() {
            proof {
                assert(a@ =~= b@);
            }
            FingerprintOrder::Equal
        } else if a.len() < b.len() {
            proof {
                lemma_token_skip(a@, b@, i as int);
                lemma_token_skip(b@, a@, i as int);
                assert(a@.skip(i as int).len() == 0);
                assert(b@.skip(i as int).len() > 0);
            }
            FingerprintOrder::Less
        } else {
            proof {
                lemma_token_skip(a@, b@, i as int);
                lemma_token_skip(b@, a@, i as int);
                assert(b@.skip(i as int).len() == 0);
                assert(a@.skip(i as int).len() > 0);
            }
            FingerprintOrder::Greater
        }
    }
}

} // verus!
