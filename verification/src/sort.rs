//! Descending argsort of a row of weights, the abstract "sorted order" the
//! sampler's top-k and top-p filters are defined over. Ties are broken by
//! the lower vocabulary index, so the order is strict and total.

use vstd::prelude::*;

verus! {

/// Token `x` strictly precedes token `y` in the sampler's descending order:
/// larger weight first, lower index first on equal weights.
pub open spec fn key_precedes(prs: Seq<u32>, x: int, y: int) -> bool {
    prs[x] > prs[y] || (prs[x] == prs[y] && x < y)
}

/// `idx` is the descending stable argsort of `prs`: a permutation of the
/// positions of `prs`, strictly ordered by `key_precedes`.
pub open spec fn is_desc_perm(prs: Seq<u32>, idx: Seq<usize>) -> bool {
    &&& idx.len() == prs.len()
    &&& forall|i: int| 0 <= i < idx.len() ==> (#[trigger] idx[i]) < prs.len()
    &&& idx.no_duplicates()
    &&& forall|a: int, b: int|
        0 <= a < b < idx.len() ==> key_precedes(prs, idx[a] as int, idx[b] as int)
}

/// Exec comparator for `key_precedes`.
fn comes_before(prs: &Vec<u32>, x: usize, y: usize) -> (r: bool)
    requires
        x < prs@.len(),
        y < prs@.len(),
    ensures
        r == key_precedes(prs@, x as int, y as int),
{
    prs[x] > prs[y] || (prs[x] == prs[y] && x < y)
}

/// Returns the positions of `prs` sorted descending by weight, ties broken
/// by the lower position: the "sorted_indices" of an abstract descending
/// sort. Insertion sort, so the cost is quadratic in the row length.
pub fn sort_desc_indices(prs: &Vec<u32>) -> (idx: Vec<usize>)
    ensures
        is_desc_perm(prs@, idx@),
{
    let n = prs.len();
    let mut idx: Vec<usize> = Vec::new();
    let mut t: usize = 0;
    while t < n
        invariant
            t <= n,
            idx@.len() == t,
            forall|j: int| 0 <= j < t ==> #[trigger] idx@[j] == j,
        decreases n - t,
    {
        idx.push(t);
        t = t + 1;
    }
    proof {
        assert(idx@.no_duplicates());
    }
    if n > 1 {
        let mut i: usize = 1;
        while i < n
            invariant
                1 <= i <= n,
                n == prs@.len(),
                idx@.len() == n,
                forall|q: int| 0 <= q < n ==> (#[trigger] idx@[q]) < n,
                idx@.no_duplicates(),
                forall|a: int, b: int|
                    0 <= a < b < i ==> key_precedes(prs@, idx@[a] as int, idx@[b] as int),
            decreases n - i,
        {
            let mut j: usize = i;
            while j > 0 && comes_before(prs, idx[j], idx[j - 1])
                invariant
                    j <= i < n,
                    n == prs@.len(),
                    idx@.len() == n,
                    forall|q: int| 0 <= q < n ==> (#[trigger] idx@[q]) < n,
                    idx@.no_duplicates(),
                    forall|a: int, b: int|
                        0 <= a < b <= i && b != j ==> key_precedes(
                            prs@,
                            idx@[a] as int,
                            idx@[b] as int,
                        ),
                    forall|a: int|
                        j < a <= i ==> key_precedes(prs@, idx@[j as int] as int, idx@[a] as int),
                decreases j,
            {
                let ghost pre = idx@;
                let va = idx[j - 1];
                let vb = idx[j];
                idx[j - 1] = vb;
                idx[j] = va;
                proof {
                    let new = idx@;
                    assert(new =~= pre.update(j - 1, vb).update(j as int, va));
                    assert forall|p: int, q: int|
                        0 <= p < new.len() && 0 <= q < new.len() && p != q
                        implies new[p] != new[q] by {
                        let p0: int = if p == j - 1 {
                            j as int
                        } else if p == j {
                            j - 1
                        } else {
                            p
                        };
                        let q0: int = if q == j - 1 {
                            j as int
                        } else if q == j {
                            j - 1
                        } else {
                            q
                        };
                        assert(new[p] == pre[p0] && new[q] == pre[q0] && p0 != q0);
                    }
                    assert forall|a: int, b: int|
                        0 <= a < b <= i && b != j - 1
                        implies key_precedes(prs@, new[a] as int, new[b] as int) by {
                        if b == j {
                            if a == j - 1 {
                                assert(new[a] == pre[j as int] && new[b] == pre[j - 1]);
                            } else {
                                assert(new[a] == pre[a] && new[b] == pre[j - 1]);
                                assert(key_precedes(prs@, pre[a] as int, pre[j - 1] as int));
                            }
                        } else if a == j - 1 {
                            assert(new[a] == pre[j as int] && new[b] == pre[b]);
                            assert(key_precedes(prs@, pre[j as int] as int, pre[b] as int));
                        } else if a == j {
                            assert(new[a] == pre[j - 1] && new[b] == pre[b]);
                            assert(key_precedes(prs@, pre[j - 1] as int, pre[b] as int));
                        } else {
                            assert(new[a] == pre[a] && new[b] == pre[b]);
                        }
                    }
                    assert forall|a: int|
                        j - 1 < a <= i implies key_precedes(
                        prs@,
                        new[j - 1] as int,
                        #[trigger] new[a] as int,
                    ) by {
                        if a == j {
                            assert(new[j - 1] == pre[j as int] && new[j as int] == pre[j - 1]);
                        } else {
                            assert(new[j - 1] == pre[j as int] && new[a] == pre[a]);
                            assert(key_precedes(prs@, pre[j as int] as int, pre[a] as int));
                        }
                    }
                }
                j = j - 1;
            }
            proof {
                assert forall|a: int, b: int|
                    0 <= a < b < i + 1
                    implies key_precedes(prs@, idx@[a] as int, idx@[b] as int) by {
                    if b == j {
                        assert(j > 0);
                        assert(!key_precedes(prs@, idx@[b] as int, idx@[b - 1] as int));
                        assert(idx@[b - 1] != idx@[b]);
                        assert(key_precedes(prs@, idx@[b - 1] as int, idx@[b] as int));
                        if a < b - 1 {
                            assert(key_precedes(prs@, idx@[a] as int, idx@[b - 1] as int));
                        }
                    }
                }
            }
            i = i + 1;
        }
    }
    idx
}

/// The descending stable argsort is unique: `key_precedes` is a strict
/// total order, so two permutations both sorted by it agree everywhere.
/// The `exists` in the sampler's top-k and top-p contracts therefore
/// names one single permutation.
pub proof fn lemma_desc_perm_unique(prs: Seq<u32>, idx1: Seq<usize>, idx2: Seq<usize>)
    requires
        is_desc_perm(prs, idx1),
        is_desc_perm(prs, idx2),
        prs.len() <= usize::MAX,
    ensures
        idx1 =~= idx2,
{
    assert forall|x: usize| idx1.contains(x) <==> idx2.contains(x) by {
        if idx1.contains(x) {
            let i = idx1.lemma_contains_to_index(x);
            lemma_desc_perm_onto(prs, idx2, x as int);
        }
        if idx2.contains(x) {
            let i = idx2.lemma_contains_to_index(x);
            lemma_desc_perm_onto(prs, idx1, x as int);
        }
    }
    lemma_sorted_same_members_unique(prs, idx1, idx2);
}

/// Two duplicate-free index lists with the same members, both strictly
/// sorted by `key_precedes`, are the same list.
proof fn lemma_sorted_same_members_unique(prs: Seq<u32>, a: Seq<usize>, b: Seq<usize>)
    requires
        a.no_duplicates(),
        b.no_duplicates(),
        forall|p: int, q: int| 0 <= p < q < a.len() ==> key_precedes(prs, a[p] as int, a[q] as int),
        forall|p: int, q: int| 0 <= p < q < b.len() ==> key_precedes(prs, b[p] as int, b[q] as int),
        forall|x: usize| a.contains(x) <==> b.contains(x),
    ensures
        a =~= b,
    decreases a.len(),
{
    if a.len() == 0 {
        if b.len() > 0 {
            assert(b.contains(b[0]));
            assert(a.contains(b[0]));
        }
    } else {
        assert(a.contains(a[0]));
        assert(b.contains(a[0]));
        let j = b.lemma_contains_to_index(a[0]);
        assert(b.contains(b[0]));
        assert(a.contains(b[0]));
        let k = a.lemma_contains_to_index(b[0]);
        // Both heads are the least member of the order, so they coincide:
        // otherwise each would strictly precede the other.
        if j > 0 && k > 0 {
            assert(key_precedes(prs, b[0] as int, b[j] as int));
            assert(key_precedes(prs, a[0] as int, a[k] as int));
            assert(false);
        }
        assert(a[0] == b[0]);
        let at = a.skip(1);
        let bt = b.skip(1);
        assert forall|p: int, q: int|
            0 <= p < q < at.len() implies key_precedes(
            prs,
            #[trigger] at[p] as int,
            #[trigger] at[q] as int,
        ) by {
            assert(at[p] == a[p + 1] && at[q] == a[q + 1]);
        }
        assert forall|p: int, q: int|
            0 <= p < q < bt.len() implies key_precedes(
            prs,
            #[trigger] bt[p] as int,
            #[trigger] bt[q] as int,
        ) by {
            assert(bt[p] == b[p + 1] && bt[q] == b[q + 1]);
        }
        assert forall|p: int, q: int|
            0 <= p < at.len() && 0 <= q < at.len() && p != q implies #[trigger] at[p]
            != #[trigger] at[q] by {
            assert(at[p] == a[p + 1] && at[q] == a[q + 1]);
        }
        assert forall|p: int, q: int|
            0 <= p < bt.len() && 0 <= q < bt.len() && p != q implies #[trigger] bt[p]
            != #[trigger] bt[q] by {
            assert(bt[p] == b[p + 1] && bt[q] == b[q + 1]);
        }
        assert forall|x: usize| at.contains(x) <==> bt.contains(x) by {
            if at.contains(x) {
                let i = at.lemma_contains_to_index(x);
                assert(a[i + 1] == x);
                assert(x != a[0]);
                assert(a.contains(x));
                assert(b.contains(x));
                let j2 = b.lemma_contains_to_index(x);
                assert(j2 > 0);
                assert(bt[j2 - 1] == x);
                assert(bt.contains(x));
            }
            if bt.contains(x) {
                let i = bt.lemma_contains_to_index(x);
                assert(b[i + 1] == x);
                assert(x != b[0]);
                assert(b.contains(x));
                assert(a.contains(x));
                let j2 = a.lemma_contains_to_index(x);
                assert(j2 > 0);
                assert(at[j2 - 1] == x);
                assert(at.contains(x));
            }
        }
        lemma_sorted_same_members_unique(prs, at, bt);
        assert(a.len() == b.len());
        assert forall|p: int| 0 <= p < a.len() implies a[p] == b[p] by {
            if p > 0 {
                assert(at[p - 1] == bt[p - 1]);
            }
        }
    }
}

/// A descending permutation hits every position: its `prs.len()` distinct
/// values all lie below `prs.len()`, so by counting none can be missing.
pub proof fn lemma_desc_perm_onto(prs: Seq<u32>, idx: Seq<usize>, x: int)
    requires
        is_desc_perm(prs, idx),
        0 <= x < prs.len(),
        prs.len() <= usize::MAX,
    ensures
        idx.contains(x as usize),
{
    if !idx.contains(x as usize) {
        let n = prs.len();
        let without = Set::new(|y: usize| y < n).remove(x as usize);
        idx.unique_seq_to_set();
        lemma_bounded_set_size(n);
        assert(Set::new(|y: usize| y < n).contains(x as usize));
        assert(without.len() == n - 1);
        assert forall|y: usize| idx.to_set().contains(y) implies without.contains(y) by {
            assert(idx.contains(y));
            let i = idx.lemma_contains_to_index(y);
        }
        vstd::set_lib::lemma_len_subset(idx.to_set(), without);
        assert(false);
    }
}

/// The set of `usize` values below `n` has exactly `n` elements.
proof fn lemma_bounded_set_size(n: nat)
    requires
        n <= usize::MAX,
    ensures
        Set::new(|y: usize| y < n).finite(),
        Set::new(|y: usize| y < n).len() == n,
    decreases n,
{
    if n == 0 {
        assert(Set::new(|y: usize| y < 0nat) =~= Set::<usize>::empty());
    } else {
        lemma_bounded_set_size((n - 1) as nat);
        assert(!Set::new(|y: usize| y < (n - 1) as nat).contains((n - 1) as usize));
        assert(Set::new(|y: usize| y < n) =~= Set::new(|y: usize| y < (n - 1) as nat).insert(
            (n - 1) as usize,
        ));
    }
}

} // verus!
