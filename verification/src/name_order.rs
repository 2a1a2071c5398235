//! Byte-wise lexicographic order on child names.
//!
//! A name is an opaque sequence of bytes (it need not be valid text), and
//! directories keep their children strictly ascending under this order.

use vstd::prelude::*;

verus! {

/// Strict lexicographic order on byte sequences: the shorter of two
/// sequences with equal contents comes first, and otherwise the first
/// differing byte decides.
pub open spec fn lex_lt(a: Seq<u8>, b: Seq<u8>) -> bool
    decreases a.len(),
{
    if b.len() == 0 {
        false
    } else if a.len() == 0 {
        true
    } else if a[0] != b[0] {
        a[0] < b[0]
    } else {
        lex_lt(a.skip(1), b.skip(1))
    }
}

/// `lex_lt` never holds both ways, and never of a sequence and itself.
pub proof fn lemma_lex_asymmetric(a: Seq<u8>, b: Seq<u8>)
    requires
        lex_lt(a, b),
    ensures
        !lex_lt(b, a),
        a != b,
    decreases a.len(),
{
    if a.len() != 0 && b.len() != 0 && a[0] == b[0] {
        lemma_lex_asymmetric(a.skip(1), b.skip(1));
        assert(a != b) by {
            assert(a.skip(1) != b.skip(1));
        }
    }
}

/// Any two distinct byte sequences are ordered one way or the other.
pub proof fn lemma_lex_total(a: Seq<u8>, b: Seq<u8>)
    ensures
        lex_lt(a, b) || lex_lt(b, a) || a == b,
    decreases a.len(),
{
    if a.len() == 0 && b.len() == 0 {
        assert(a =~= b);
    } else if a.len() != 0 && b.len() != 0 && a[0] == b[0] {
        lemma_lex_total(a.skip(1), b.skip(1));
        if a.skip(1) == b.skip(1) {
            assert(a.skip(1).len() == b.skip(1).len());
            assert(a.len() == b.len());
            assert forall|k: int| 0 <= k < a.len() implies a[k] == b[k] by {
                if k >= 1 {
                    assert(a[k] == a.skip(1)[k - 1]);
                    assert(b[k] == b.skip(1)[k - 1]);
                }
            }
            assert(a =~= b);
        }
    }
}

/// `lex_lt` is transitive.
pub proof fn lemma_lex_transitive(a: Seq<u8>, b: Seq<u8>, c: Seq<u8>)
    requires
        lex_lt(a, b),
        lex_lt(b, c),
    ensures
        lex_lt(a, c),
    decreases a.len(),
{
    if a.len() != 0 && b.len() != 0 && c.len() != 0 {
        if a[0] == b[0] && b[0] == c[0] {
            lemma_lex_transitive(a.skip(1), b.skip(1), c.skip(1));
        }
    }
}

/// How two names compare under the canonical byte-wise order.
pub enum NameOrdering {
    Less,
    Equal,
    Greater,
}

/// Compares two names under the canonical byte-wise order.
pub fn name_cmp(a: &Vec<u8>, b: &Vec<u8>) -> (r: NameOrdering)
    ensures
        r is Less <==> lex_lt(a@, b@),
        r is Equal <==> a@ == b@,
        r is Greater <==> lex_lt(b@, a@),
{
    let a_len = a.len();
    let b_len = b.len();
    let mut i: usize = 0;
    loop
        invariant
            i <= a_len,
            i <= b_len,
            a_len == a@.len(),
            b_len == b@.len(),
            forall|k: int| 0 <= k < i ==> a@[k] == b@[k],
        decreases a_len - i,
    {
        proof {
            lemma_lex_skip_common_prefix(a@, b@, i as int);
            lemma_lex_skip_common_prefix(b@, a@, i as int);
        }
        if i == a_len || i == b_len {
            if a_len == b_len {
                proof {
                    assert(a@ =~= b@);
                    lemma_lex_asymmetric_or_self(a@, b@);
                }
                return NameOrdering::Equal;
            } else if a_len < b_len {
                proof {
                    lemma_lex_asymmetric(a@, b@);
                }
                return NameOrdering::Less;
            } else {
                proof {
                    lemma_lex_asymmetric(b@, a@);
                }
                return NameOrdering::Greater;
            }
        }
        let ab = a[i];
        let bb = b[i];
        if ab < bb {
            proof {
                lemma_lex_asymmetric(a@, b@);
            }
            return NameOrdering::Less;
        } else if ab > bb {
            proof {
                lemma_lex_asymmetric(b@, a@);
            }
            return NameOrdering::Greater;
        }
        i = i + 1;
    }
}

/// After a common prefix of length `i`, the order of the full sequences is
/// the order of their remainders.
proof fn lemma_lex_skip_common_prefix(a: Seq<u8>, b: Seq<u8>, i: int)
    requires
        0 <= i <= a.len(),
        0 <= i <= b.len(),
        forall|k: int| 0 <= k < i ==> a[k] == b[k],
    ensures
        lex_lt(a, b) == lex_lt(a.skip(i), b.skip(i)),
        (a == b) == (a.skip(i) == b.skip(i)),
    decreases i,
{
    if i > 0 {
        assert(a[0] == b[0]);
        assert forall|k: int| 0 <= k < i - 1 implies a.skip(1)[k] == b.skip(1)[k] by {
            assert(a.skip(1)[k] == a[k + 1]);
            assert(b.skip(1)[k] == b[k + 1]);
        }
        lemma_lex_skip_common_prefix(a.skip(1), b.skip(1), i - 1);
        assert(a.skip(1).skip(i - 1) =~= a.skip(i));
        assert(b.skip(1).skip(i - 1) =~= b.skip(i));
        if a.skip(1) == b.skip(1) {
            assert forall|k: int| 0 <= k < a.len() implies a[k] == b[k] by {
                if k >= 1 {
                    assert(a[k] == a.skip(1)[k - 1]);
                    assert(b[k] == b.skip(1)[k - 1]);
                }
            }
            assert(a =~= b);
        }
        if a == b {
            assert(a.skip(1) =~= b.skip(1));
        }
    } else {
        assert(a.skip(0) =~= a);
        assert(b.skip(0) =~= b);
    }
}

/// Copies a name byte for byte.
pub fn copy_name(v: &Vec<u8>) -> (r: Vec<u8>)
    ensures
        r@ == v@,
{
    let n = v.len();
    let mut r: Vec<u8> = Vec::new();
    let mut i: usize = 0;
    while i < n
        invariant
            i <= n,
            n == v@.len(),
            r@.len() == i,
            forall|k: int| 0 <= k < i ==> r@[k] == v@[k],
        decreases n - i,
    {
        r.push(v[i]);
        i = i + 1;
    }
    proof {
        assert(r@ =~= v@);
    }
    r
}

/// A sequence is never strictly below itself.
proof fn lemma_lex_asymmetric_or_self(a: Seq<u8>, b: Seq<u8>)
    requires
        a == b,
    ensures
        !lex_lt(a, b),
        !lex_lt(b, a),
{
    if lex_lt(a, b) {
        lemma_lex_asymmetric(a, b);
    }
    if lex_lt(b, a) {
        lemma_lex_asymmetric(b, a);
    }
}

} // verus!
