//! Orders of indices: permutations of `0..n` and what sorting them pins down.

use vstd::prelude::*;
use vstd::set_lib::{lemma_int_range, lemma_len_subset, lemma_subset_equality, set_int_range};

verus! {

/// `r` lists each of `0..n` exactly once.
pub open spec fn is_permutation(r: Seq<usize>, n: nat) -> bool {
    &&& r.len() == n
    &&& forall|i: int| 0 <= i < r.len() ==> #[trigger] r[i] < n
    &&& forall|i: int, j: int| 0 <= i < j < r.len() ==> r[i] != r[j]
}

/// Every index below `n` occurs in a permutation of `0..n`.
pub proof fn lemma_permutation_onto(r: Seq<usize>, n: nat, v: int)
    requires
        is_permutation(r, n),
        0 <= v < n,
    ensures
        exists|i: int| 0 <= i < r.len() && r[i] == v,
{
    let m = r.map_values(|x: usize| x as int);
    assert(m.no_duplicates()) by {
        assert forall|i: int, j: int| 0 <= i < m.len() && 0 <= j < m.len() && i != j implies m[i] != m[j] by {
            if i < j {
                assert(r[i] != r[j]);
            } else {
                assert(r[j] != r[i]);
            }
        }
    }
    m.unique_seq_to_set();
    let range = set_int_range(0, n as int);
    lemma_int_range(0, n as int);
    assert(m.to_set().subset_of(range)) by {
        assert forall|x: int| m.to_set().contains(x) implies range.contains(x) by {
            assert(m.contains(x));
            let i = choose|i: int| 0 <= i < m.len() && m[i] == x;
            assert(r[i] < n);
        }
    }
    lemma_len_subset(m.to_set(), range);
    lemma_subset_equality(m.to_set(), range);
    assert(range.contains(v));
    assert(m.contains(v));
    let i = choose|i: int| 0 <= i < m.len() && m[i] == v;
    assert(r[i] == v);
}

/// Two permutations of `0..n`, each listed in an order `before` that never
/// holds both ways round, are the same sequence.
pub proof fn lemma_sorted_permutation_unique(r: Seq<usize>, s: Seq<usize>, n: nat, before: spec_fn(usize, usize) -> bool)
    requires
        is_permutation(r, n),
        is_permutation(s, n),
        forall|i: int, j: int| #![trigger r[i], r[j]] 0 <= i < j < r.len() ==> before(r[i], r[j]),
        forall|i: int, j: int| #![trigger s[i], s[j]] 0 <= i < j < s.len() ==> before(s[i], s[j]),
        forall|a: usize, b: usize| #[trigger] before(a, b) ==> !before(b, a),
    ensures
        r == s,
{
    lemma_sorted_prefix_equal(r, s, n, before, n as int);
    assert(r =~= s);
}

proof fn lemma_sorted_prefix_equal(r: Seq<usize>, s: Seq<usize>, n: nat, before: spec_fn(usize, usize) -> bool, k: int)
    requires
        is_permutation(r, n),
        is_permutation(s, n),
        forall|i: int, j: int| #![trigger r[i], r[j]] 0 <= i < j < r.len() ==> before(r[i], r[j]),
        forall|i: int, j: int| #![trigger s[i], s[j]] 0 <= i < j < s.len() ==> before(s[i], s[j]),
        forall|a: usize, b: usize| #[trigger] before(a, b) ==> !before(b, a),
        0 <= k <= n,
    ensures
        forall|t: int| 0 <= t < k ==> r[t] == s[t],
    decreases k,
{
    if k > 0 {
        let p = k - 1;
        lemma_sorted_prefix_equal(r, s, n, before, p);
        if r[p] != s[p] {
            lemma_permutation_onto(s, n, r[p] as int);
            let j = choose|j: int| 0 <= j < s.len() && s[j] == r[p];
            lemma_permutation_onto(r, n, s[p] as int);
            let i = choose|i: int| 0 <= i < r.len() && r[i] == s[p];
            if j < p {
                assert(r[j] == s[j]);
                assert(r[j] != r[p]);
            }
            if i < p {
                assert(s[i] == r[i]);
                assert(s[i] != s[p]);
            }
            assert(before(s[p], s[j]));
            assert(before(r[p], r[i]));
        }
    }
}

} // verus!
