//! Ordering of entries by a key, largest first; on equal keys by a text,
//! smallest first in code-point order; on equal texts by position.

use vstd::prelude::*;
use crate::text::{compare_text, lemma_lex_asym, lemma_lex_trans, lex_lt};

verus! {

/// The views of a sequence of texts.
pub open spec fn texts_of(s: Seq<String>) -> Seq<Seq<char>> {
    s.map_values(|t: String| t@)
}

/// Entry `i` ranks strictly before entry `j`: both carry a key, and `i` has
/// the larger key, or the same key and a smaller text, or the same key and
/// text at an earlier position.
pub open spec fn precedes(keys: Seq<Option<i128>>, texts: Seq<Seq<char>>, i: int, j: int) -> bool {
    &&& keys[i] is Some
    &&& keys[j] is Some
    &&& (keys[i]->0 > keys[j]->0 || (keys[i]->0 == keys[j]->0 && (lex_lt(texts[i], texts[j]) || (
    texts[i] == texts[j] && i < j))))
}

/// `idx` lists the first `limit` entries that carry a key, in rank order
/// (all of them, if there are fewer). Entries without a key are left out.
pub open spec fn is_ranking(
    keys: Seq<Option<i128>>,
    texts: Seq<Seq<char>>,
    limit: int,
    idx: Seq<usize>,
) -> bool {
    &&& idx.len() <= limit
    &&& forall|k: int|
        0 <= k < idx.len() ==> (idx[k] as int) < keys.len() && keys[idx[k] as int] is Some
    &&& forall|k1: int, k2: int|
        0 <= k1 < k2 < idx.len() ==> precedes(keys, texts, idx[k1] as int, idx[k2] as int)
    &&& forall|i: int|
        0 <= i < keys.len() && keys[i] is Some && !idx.contains(i as usize) ==> {
            &&& idx.len() == limit
            &&& forall|k: int| 0 <= k < idx.len() ==> precedes(keys, texts, idx[k] as int, i)
        }
}

pub proof fn lemma_precedes_asym(keys: Seq<Option<i128>>, texts: Seq<Seq<char>>, i: int, j: int)
    ensures
        !(precedes(keys, texts, i, j) && precedes(keys, texts, j, i)),
{
    lemma_lex_asym(texts[i], texts[j]);
    lemma_lex_asym(texts[i], texts[i]);
}

pub proof fn lemma_precedes_trans(
    keys: Seq<Option<i128>>,
    texts: Seq<Seq<char>>,
    a: int,
    b: int,
    c: int,
)
    requires
        precedes(keys, texts, a, b),
        precedes(keys, texts, b, c),
    ensures
        precedes(keys, texts, a, c),
{
    if lex_lt(texts[a], texts[b]) && lex_lt(texts[b], texts[c]) {
        lemma_lex_trans(texts[a], texts[b], texts[c]);
    }
}

/// Two rankings of the same entries to the same limit are the same: a
/// listing depends on the entries alone.
pub proof fn lemma_ranking_unique(
    keys: Seq<Option<i128>>,
    texts: Seq<Seq<char>>,
    limit: int,
    idx1: Seq<usize>,
    idx2: Seq<usize>,
)
    requires
        is_ranking(keys, texts, limit, idx1),
        is_ranking(keys, texts, limit, idx2),
    ensures
        idx1 == idx2,
{
    let m = if idx1.len() < idx2.len() {
        idx1.len() as int
    } else {
        idx2.len() as int
    };
    lemma_ranking_prefix(keys, texts, limit, idx1, idx2, m);
    lemma_ranking_prefix(keys, texts, limit, idx2, idx1, m);
    if idx1.len() <= idx2.len() {
        lemma_ranking_longer(keys, texts, limit, idx1, idx2);
    } else {
        lemma_ranking_longer(keys, texts, limit, idx2, idx1);
    }
    assert(idx1 =~= idx2);
}

proof fn lemma_ranking_longer(
    keys: Seq<Option<i128>>,
    texts: Seq<Seq<char>>,
    limit: int,
    idx1: Seq<usize>,
    idx2: Seq<usize>,
)
    requires
        is_ranking(keys, texts, limit, idx1),
        is_ranking(keys, texts, limit, idx2),
        idx1.len() <= idx2.len(),
        forall|j: int| 0 <= j < idx1.len() ==> idx1[j] == idx2[j],
    ensures
        idx1.len() == idx2.len(),
{
    if idx1.len() == idx2.len() {
        return;
    }
    let n = idx1.len() as int;
    let b = idx2[n];
    if idx1.contains(b) {
        let p = choose|p: int| 0 <= p < idx1.len() && idx1[p] == b;
        assert(idx2[p] == b);
        lemma_precedes_asym(keys, texts, b as int, b as int);
    } else {
        assert(keys[b as int] is Some);
    }
}

proof fn lemma_ranking_prefix(
    keys: Seq<Option<i128>>,
    texts: Seq<Seq<char>>,
    limit: int,
    idx1: Seq<usize>,
    idx2: Seq<usize>,
    k: int,
)
    requires
        is_ranking(keys, texts, limit, idx1),
        is_ranking(keys, texts, limit, idx2),
        0 <= k <= idx1.len(),
        k <= idx2.len(),
    ensures
        forall|j: int| 0 <= j < k ==> idx1[j] == idx2[j],
    decreases k,
{
    if k > 0 {
        lemma_ranking_prefix(keys, texts, limit, idx1, idx2, k - 1);
        let c = k - 1;
        let a = idx1[c];
        let b = idx2[c];
        if a != b {
            // b ranks before a, or a appears in idx2 after position c
            let b_before_a = if idx2.contains(a) {
                let q = choose|q: int| 0 <= q < idx2.len() && idx2[q] == a;
                if q < c {
                    assert(idx1[q] == a);
                    lemma_precedes_asym(keys, texts, a as int, a as int);
                }
                assert(q > c);
                true
            } else {
                assert(keys[a as int] is Some);
                true
            };
            assert(precedes(keys, texts, b as int, a as int));
            if idx1.contains(b) {
                let p = choose|p: int| 0 <= p < idx1.len() && idx1[p] == b;
                if p < c {
                    assert(idx2[p] == b);
                    lemma_precedes_asym(keys, texts, b as int, b as int);
                }
                assert(p > c);
                assert(precedes(keys, texts, a as int, b as int));
            } else {
                assert(keys[b as int] is Some);
                assert(precedes(keys, texts, a as int, b as int));
            }
            lemma_precedes_asym(keys, texts, a as int, b as int);
        }
    }
}

/// Positions of the best `limit` keyed entries, best first; `texts[i]`
/// is the text of entry `i`.
pub fn rank_by_key(keys: &Vec<Option<i128>>, texts: &Vec<String>, limit: usize) -> (idx: Vec<usize>)
    requires
        texts@.len() == keys@.len(),
    ensures
        is_ranking(keys@, texts_of(texts@), limit as int, idx@),
{
    let ghost tx = texts_of(texts@);
    let n = keys.len();
    let mut taken: Vec<bool> = Vec::new();
    let mut i: usize = 0;
    while i < n
        invariant
            i <= n,
            taken@.len() == i,
            forall|j: int| 0 <= j < i ==> !taken@[j],
        decreases n - i,
    {
        taken.push(false);
        i += 1;
    }
    let mut idx: Vec<usize> = Vec::new();
    let mut done = false;
    while idx.len() < limit && !done
        invariant
            n == keys.len(),
            texts@.len() == n,
            tx == texts_of(texts@),
            taken@.len() == n,
            idx.len() <= limit,
            forall|j: int| 0 <= j < n ==> (taken@[j] <==> idx@.contains(j as usize)),
            forall|k: int|
                0 <= k < idx.len() ==> (idx[k] as int) < n && keys@[idx[k] as int] is Some,
            forall|k1: int, k2: int|
                0 <= k1 < k2 < idx.len() ==> precedes(keys@, tx, idx[k1] as int, idx[k2] as int),
            forall|t: int|
                0 <= t < n && keys@[t] is Some && !taken@[t] ==> forall|k: int|
                    0 <= k < idx.len() ==> precedes(keys@, tx, idx[k] as int, t),
            done ==> forall|t: int| 0 <= t < n && keys@[t] is Some ==> taken@[t],
        decreases limit - idx.len() + (if done { 0int } else { 1int }),
    {
        let mut best: usize = 0;
        let mut found = false;
        let mut j: usize = 0;
        while j < n
            invariant
                n == keys.len(),
                texts@.len() == n,
                tx == texts_of(texts@),
                taken@.len() == n,
                j <= n,
                found ==> best < j && keys@[best as int] is Some && !taken@[best as int],
                forall|t: int|
                    0 <= t < j && keys@[t] is Some && !taken@[t] ==> found && (t == best
                        || precedes(keys@, tx, best as int, t)),
            decreases n - j,
        {
            if !taken[j] {
                if let Some(kj) = keys[j] {
                    if !found {
                        best = j;
                        found = true;
                    } else {
                        let kb = keys[best].unwrap();
                        let beats = if kj > kb {
                            true
                        } else if kj < kb {
                            false
                        } else {
                            compare_text(texts[j].as_str(), texts[best].as_str()) < 0
                        };
                        if beats {
                            assert(precedes(keys@, tx, j as int, best as int));
                            assert forall|t: int|
                                0 <= t < j && keys@[t] is Some && !taken@[t] implies (t == j
                                    || precedes(keys@, tx, j as int, t)) by {
                                if t != best {
                                    lemma_precedes_trans(keys@, tx, j as int, best as int, t);
                                }
                            }
                            best = j;
                        } else {
                            assert(precedes(keys@, tx, best as int, j as int));
                        }
                    }
                }
            }
            j += 1;
        }
        if found {
            let ghost old_idx = idx@;
            idx.push(best);
            taken.set(best, true);
            assert forall|t: int| 0 <= t < n implies (taken@[t] <==> idx@.contains(t as usize)) by {
                if idx@.contains(t as usize) && t != best {
                    let k = choose|k: int| 0 <= k < idx@.len() && idx@[k] == t as usize;
                    assert(old_idx[k] == t as usize);
                }
                if t == best {
                    assert(idx@[old_idx.len() as int] == best);
                }
                if old_idx.contains(t as usize) {
                    let k = choose|k: int| 0 <= k < old_idx.len() && old_idx[k] == t as usize;
                    assert(idx@[k] == t as usize);
                }
            }
        } else {
            done = true;
        }
    }
    assert forall|t: int|
        0 <= t < keys@.len() && keys@[t] is Some && !idx@.contains(t as usize) implies {
        &&& idx@.len() == limit
        &&& forall|k: int| 0 <= k < idx@.len() ==> precedes(keys@, tx, idx@[k] as int, t)
    } by {
        assert(!taken@[t]);
    }
    idx
}

} // verus!
