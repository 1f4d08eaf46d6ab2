//! The order on join keys: names compared byte by byte, as `str` orders itself.

use vstd::prelude::*;
use vstd::string::StringSliceAdditionalSpecFns;

verus! {

/// How one name stands to another.
#[derive(Clone, Copy, Debug, PartialEq, Eq, Structural)]
pub enum KeyOrder {
    Before,
    Same,
    After,
}

/// `a` and `b` agree on their first `k` bytes, and at `k` either `a` ends
/// while `b` goes on, or `a` holds the smaller byte.
pub open spec fn lt_at(a: Seq<u8>, b: Seq<u8>, k: int) -> bool {
    &&& 0 <= k <= a.len()
    &&& k < b.len()
    &&& forall|i: int| 0 <= i < k ==> a[i] == b[i]
    &&& (k == a.len() || a[k] < b[k])
}

/// `a` comes strictly before `b` in lexicographic byte order.
pub open spec fn key_lt(a: Seq<u8>, b: Seq<u8>) -> bool {
    exists|k: int| lt_at(a, b, k)
}

/// No key comes before itself.
pub proof fn lemma_key_lt_irreflexive(a: Seq<u8>)
    ensures
        !key_lt(a, a),
{
}

/// The order on keys is transitive.
pub proof fn lemma_key_lt_transitive(a: Seq<u8>, b: Seq<u8>, c: Seq<u8>)
    requires
        key_lt(a, b),
        key_lt(b, c),
    ensures
        key_lt(a, c),
{
    let k1: int = choose|k: int| lt_at(a, b, k);
    let k2: int = choose|k: int| lt_at(b, c, k);
    let k: int = if k1 <= k2 { k1 } else { k2 };
    assert(lt_at(a, c, k));
}

/// Of two keys at most one comes before the other.
pub proof fn lemma_key_lt_asymmetric(a: Seq<u8>, b: Seq<u8>)
    requires
        key_lt(a, b),
    ensures
        !key_lt(b, a),
        a != b,
{
    if key_lt(b, a) {
        lemma_key_lt_transitive(a, b, a);
        lemma_key_lt_irreflexive(a);
    }
    lemma_key_lt_irreflexive(a);
}

/// Two names have the same bytes exactly when they are the same text.
pub proof fn lemma_same_bytes_same_text(a: &str, b: &str)
    ensures
        a.spec_bytes() == b.spec_bytes() <==> a@ == b@,
{
    vstd::utf8::encode_utf8_decode_utf8(a@);
    vstd::utf8::encode_utf8_decode_utf8(b@);
}

/// Compares two names byte by byte.
pub fn compare_names(a: &str, b: &str) -> (o: KeyOrder)
    ensures
        o == KeyOrder::Before <==> key_lt(a.spec_bytes(), b.spec_bytes()),
        o == KeyOrder::Same <==> a.spec_bytes() == b.spec_bytes(),
        o == KeyOrder::Same <==> a@ == b@,
        o == KeyOrder::After <==> key_lt(b.spec_bytes(), a.spec_bytes()),
{
    proof {
        lemma_same_bytes_same_text(a, b);
    }
    let x = a.as_bytes();
    let y = b.as_bytes();
    let mut i: usize = 0;
    while i < x.len() && i < y.len()
        invariant
            i <= x@.len(),
            i <= y@.len(),
            x@ == a.spec_bytes(),
            y@ == b.spec_bytes(),
            forall|j: int| 0 <= j < i ==> x@[j] == y@[j],
        decreases x@.len() - i,
    {
        if x[i] < y[i] {
            proof {
                assert(lt_at(x@, y@, i as int));
                lemma_key_lt_asymmetric(x@, y@);
            }
            return KeyOrder::Before;
        }
        if x[i] > y[i] {
            proof {
                assert(lt_at(y@, x@, i as int));
                lemma_key_lt_asymmetric(y@, x@);
            }
            return KeyOrder::After;
        }
        i += 1;
    }
    if x.len() < y.len() {
        proof {
            assert(lt_at(x@, y@, i as int));
            lemma_key_lt_asymmetric(x@, y@);
        }
        KeyOrder::Before
    } else if x.len() > y.len() {
        proof {
            assert(lt_at(y@, x@, i as int));
            lemma_key_lt_asymmetric(y@, x@);
        }
        KeyOrder::After
    } else {
        proof {
            assert(x@ =~= y@);
            lemma_key_lt_irreflexive(x@);
        }
        KeyOrder::Same
    }
}

} // verus!
