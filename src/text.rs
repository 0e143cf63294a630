//! Ordering of text by code points, the order a byte-wise comparison of
//! UTF-8 gives.

use vstd::prelude::*;
use vstd::string::*;

verus! {

/// `a` and `b` agree on their first `k` characters.
pub open spec fn agree_upto(a: Seq<char>, b: Seq<char>, k: int) -> bool {
    forall|i: int| 0 <= i < k ==> a[i] == b[i]
}

/// `a` and `b` first part at position `k`: `a` ends there while `b` goes
/// on, or `a` has the smaller character there.
pub open spec fn lex_lt_at(a: Seq<char>, b: Seq<char>, k: int) -> bool {
    &&& 0 <= k <= a.len()
    &&& k < b.len()
    &&& agree_upto(a, b, k)
    &&& (k == a.len() || (a[k] as u32) < (b[k] as u32))
}

/// `a` comes strictly before `b` in lexicographic order.
pub open spec fn lex_lt(a: Seq<char>, b: Seq<char>) -> bool {
    exists|k: int| lex_lt_at(a, b, k)
}

pub proof fn lemma_lex_asym(a: Seq<char>, b: Seq<char>)
    ensures
        !(lex_lt(a, b) && lex_lt(b, a)),
        !lex_lt(a, a),
{
    if lex_lt(a, b) && lex_lt(b, a) {
        let k1 = choose|k: int| lex_lt_at(a, b, k);
        let k2 = choose|k: int| lex_lt_at(b, a, k);
        if k1 < k2 {
            assert(b[k1] == a[k1]);
        } else if k2 < k1 {
            assert(a[k2] == b[k2]);
        }
    }
    if lex_lt(a, a) {
        let k = choose|k: int| lex_lt_at(a, a, k);
    }
}

pub proof fn lemma_lex_trans(a: Seq<char>, b: Seq<char>, c: Seq<char>)
    requires
        lex_lt(a, b),
        lex_lt(b, c),
    ensures
        lex_lt(a, c),
{
    let k1 = choose|k: int| lex_lt_at(a, b, k);
    let k2 = choose|k: int| lex_lt_at(b, c, k);
    if k1 <= k2 {
        assert(agree_upto(a, c, k1)) by {
            assert forall|i: int| 0 <= i < k1 implies a[i] == c[i] by {
                assert(a[i] == b[i]);
                assert(b[i] == c[i]);
            }
        }
        assert(lex_lt_at(a, c, k1));
    } else {
        assert(agree_upto(a, c, k2)) by {
            assert forall|i: int| 0 <= i < k2 implies a[i] == c[i] by {
                assert(a[i] == b[i]);
                assert(b[i] == c[i]);
            }
        }
        assert(a[k2] == b[k2]);
        assert(lex_lt_at(a, c, k2));
    }
}

/// Three-way comparison: negative, zero or positive as `a` comes before,
/// equals or comes after `b`.
pub fn compare_text(a: &str, b: &str) -> (r: i8)
    ensures
        r < 0 <==> lex_lt(a@, b@),
        r == 0 <==> a@ == b@,
        r > 0 <==> lex_lt(b@, a@),
{
    let la = a.unicode_len();
    let lb = b.unicode_len();
    let mut i: usize = 0;
    while i < la && i < lb && a.get_char(i) == b.get_char(i)
        invariant
            la == a@.len(),
            lb == b@.len(),
            i <= la,
            i <= lb,
            agree_upto(a@, b@, i as int),
        decreases la - i,
    {
        i += 1;
    }
    proof {
        lemma_lex_asym(a@, b@);
        lemma_lex_asym(a@, a@);
    }
    if i < la && i < lb {
        let ca = a.get_char(i);
        let cb = b.get_char(i);
        assert(a@ != b@) by {
            assert(a@[i as int] != b@[i as int]);
        }
        if (ca as u32) < (cb as u32) {
            assert(lex_lt_at(a@, b@, i as int));
            -1
        } else {
            assert(lex_lt_at(b@, a@, i as int));
            1
        }
    } else if i < lb {
        assert(lex_lt_at(a@, b@, i as int));
        assert(a@.len() != b@.len());
        -1
    } else if i < la {
        assert(lex_lt_at(b@, a@, i as int));
        assert(a@.len() != b@.len());
        1
    } else {
        assert(a@ =~= b@);
        0
    }
}

} // verus!
