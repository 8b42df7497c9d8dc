//! Axis permutations: validation, inversion and reordering of per-axis data.
use vstd::prelude::*;

verus! {

/// A sequence of `i32` read as mathematical integers.
pub open spec fn int_seq(v: Seq<i32>) -> Seq<int> {
    Seq::new(v.len(), |k: int| v[k] as int)
}

/// `p` holds the value `j`.
pub open spec fn occurs(p: Seq<int>, j: int) -> bool {
    exists|k: int| 0 <= k < p.len() && #[trigger] p[k] == j
}

/// `p` lists every value of `0..p.len()` exactly once.
pub open spec fn is_permutation(p: Seq<int>) -> bool {
    &&& forall|k: int| 0 <= k < p.len() ==> 0 <= #[trigger] p[k] < p.len()
    &&& forall|j: int| 0 <= j < p.len() ==> #[trigger] occurs(p, j)
    &&& forall|j: int, k: int| 0 <= j < p.len() && 0 <= k < p.len() && j != k ==> p[j] != p[k]
}

/// The inverse permutation: `inverse(p)[j]` is the position at which `p` holds `j`.
pub open spec fn inverse(p: Seq<int>) -> Seq<int> {
    Seq::new(p.len(), |j: int| choose|k: int| 0 <= k < p.len() && p[k] == j)
}

/// `s` reordered by `p`: entry `k` of the result is entry `p[k]` of `s`.
pub open spec fn permuted<T>(p: Seq<int>, s: Seq<T>) -> Seq<T> {
    Seq::new(s.len(), |k: int| s[p[k]])
}

/// `s` reordered by the inverse of `p`: entry `p[k]` of the result is entry `k` of `s`.
pub open spec fn inv_permuted<T>(p: Seq<int>, s: Seq<T>) -> Seq<T> {
    Seq::new(s.len(), |j: int| s[inverse(p)[j]])
}

pub proof fn lemma_inverse(p: Seq<int>)
    requires
        is_permutation(p),
    ensures
        is_permutation(inverse(p)),
        forall|j: int| 0 <= j < p.len() ==> 0 <= #[trigger] inverse(p)[j] < p.len() && p[inverse(p)[j]] == j,
        forall|k: int| 0 <= k < p.len() ==> #[trigger] inverse(p)[p[k]] == k,
{
    let q = inverse(p);
    assert forall|j: int| 0 <= j < p.len() implies 0 <= #[trigger] q[j] < p.len() && p[q[j]] == j by {
        assert(occurs(p, j));
    }
    assert forall|k: int| 0 <= k < p.len() implies #[trigger] q[p[k]] == k by {
        let j = p[k];
        assert(0 <= q[j] < p.len() && p[q[j]] == j);
    }
    assert forall|j: int| 0 <= j < q.len() implies #[trigger] occurs(q, j) by {
        assert(q[p[j]] == j);
    }
    assert forall|j: int, k: int| 0 <= j < q.len() && 0 <= k < q.len() && j != k implies q[j] != q[k] by {
        assert(p[q[j]] == j && p[q[k]] == k);
    }
}

/// Reordering by a permutation and then by its inverse gives back the starting
/// sequence.
pub proof fn lemma_inv_permute_permute<T>(p: Seq<int>, s: Seq<T>)
    requires
        is_permutation(p),
        s.len() == p.len(),
    ensures
        inv_permuted(p, permuted(p, s)) == s,
{
    lemma_inverse(p);
    assert(inv_permuted(p, permuted(p, s)) =~= s);
}

/// Reordering by the inverse of a permutation and then by the permutation gives
/// back the starting sequence.
pub proof fn lemma_permute_inv_permute<T>(p: Seq<int>, s: Seq<T>)
    requires
        is_permutation(p),
        s.len() == p.len(),
    ensures
        permuted(p, inv_permuted(p, s)) == s,
{
    lemma_inverse(p);
    assert(permuted(p, inv_permuted(p, s)) =~= s);
}

/// Checks that `perm` is a permutation of `0..perm.len()` and returns its inverse.
pub fn inverse_of(perm: &[i32]) -> (r: Option<Vec<usize>>)
    ensures
        r is Some <==> is_permutation(int_seq(perm@)),
        r matches Some(inv) ==> inv@.len() == perm@.len() && forall|j: int|
            0 <= j < perm@.len() ==> #[trigger] inv@[j] as int == inverse(int_seq(perm@))[j],
{
    let ghost p = int_seq(perm@);
    let n = perm.len();
    let mut inv: Vec<usize> = Vec::new();
    let mut j: usize = 0;
    while j < n
        invariant
            j <= n,
            inv@.len() == j,
            forall|i: int| 0 <= i < j ==> inv@[i] == n,
        decreases n - j,
    {
        inv.push(n);
        j = j + 1;
    }
    let mut k: usize = 0;
    while k < n
        invariant
            n == perm@.len(),
            p == int_seq(perm@),
            k <= n,
            inv@.len() == n,
            forall|i: int| 0 <= i < n ==> inv@[i] == n || (inv@[i] < k && p[inv@[i] as int] == i),
            forall|i: int| 0 <= i < k ==> 0 <= #[trigger] p[i] < n && inv@[p[i]] == i,
        decreases n - k,
    {
        let v = perm[k];
        if v < 0 || v as usize >= n {
            assert(!(0 <= p[k as int] < n));
            return None;
        }
        let vu = v as usize;
        if inv[vu] != n {
            let ghost other = inv@[vu as int] as int;
            assert(p[other] == p[k as int] && other != k);
            return None;
        }
        inv.set(vu, k);
        k = k + 1;
    }
    let mut j: usize = 0;
    while j < n
        invariant
            n == perm@.len(),
            p == int_seq(perm@),
            j <= n,
            inv@.len() == n,
            forall|i: int| 0 <= i < n ==> inv@[i] == n || (inv@[i] < n && p[inv@[i] as int] == i),
            forall|i: int| 0 <= i < n ==> 0 <= #[trigger] p[i] < n && inv@[p[i]] == i,
            forall|i: int| 0 <= i < j ==> #[trigger] inv@[i] < n,
        decreases n - j,
    {
        if inv[j] == n {
            assert(!occurs(p, j as int)) by {
                assert forall|i: int| 0 <= i < n implies #[trigger] p[i] != j as int by {
                    if p[i] == j as int {
                        assert(inv@[p[i]] == i);
                    }
                }
            }
            return None;
        }
        j = j + 1;
    }
    assert forall|i: int| 0 <= i < n implies #[trigger] occurs(p, i) by {
        assert(p[inv@[i] as int] == i);
    }
    assert forall|a: int, b: int| 0 <= a < n && 0 <= b < n && a != b implies p[a] != p[b] by {
        if p[a] == p[b] {
            assert(inv@[p[a]] == a && inv@[p[b]] == b);
        }
    }
    assert forall|i: int| 0 <= i < n implies #[trigger] inv@[i] as int == inverse(p)[i] by {
        lemma_inverse(p);
        assert(p[inverse(p)[i]] == i);
        assert(inv@[p[inverse(p)[i]]] == inverse(p)[i]);
    }
    Some(inv)
}

/// Reorders `arr` by `perm`: entry `k` of the result is `arr[perm[k]]`. Applied to
/// a shape it gives the shape after transposing.
pub fn permute<T: Copy>(perm: &[i32], arr: &[T]) -> (r: Vec<T>)
    requires
        perm@.len() >= arr@.len(),
        forall|k: int| 0 <= k < arr@.len() ==> 0 <= #[trigger] perm@[k] < arr@.len(),
    ensures
        r@ == permuted(int_seq(perm@), arr@),
{
    let n = arr.len();
    let mut r: Vec<T> = Vec::new();
    let mut k: usize = 0;
    while k < n
        invariant
            n == arr@.len(),
            perm@.len() >= n,
            forall|i: int| 0 <= i < n ==> 0 <= #[trigger] perm@[i] < n,
            k <= n,
            r@ =~= permuted(int_seq(perm@), arr@).subrange(0, k as int),
        decreases n - k,
    {
        let v = perm[k] as usize;
        r.push(arr[v]);
        k = k + 1;
    }
    assert(permuted(int_seq(perm@), arr@).subrange(0, n as int) =~= permuted(int_seq(perm@), arr@));
    r
}

/// Undoes [`permute`]: entry `perm[k]` of the result is `arr[k]`. Applied to the
/// shape of a transposed array it gives the shape before transposing.
pub fn inv_permute<T: Copy>(perm: &[i32], arr: &[T]) -> (r: Vec<T>)
    requires
        is_permutation(int_seq(perm@)),
        arr@.len() == perm@.len(),
    ensures
        r@ == inv_permuted(int_seq(perm@), arr@),
        forall|k: int| 0 <= k < arr@.len() ==> r@[perm@[k] as int] == #[trigger] arr@[k],
{
    let ghost p = int_seq(perm@);
    proof {
        lemma_inverse(p);
    }
    let n = arr.len();
    let mut r: Vec<T> = Vec::new();
    match inverse_of(perm) {
        Some(inv) => {
            let mut j: usize = 0;
            while j < n
                invariant
                    n == arr@.len(),
                    n == perm@.len(),
                    p == int_seq(perm@),
                    inv@.len() == n,
                    forall|i: int| 0 <= i < n ==> #[trigger] inv@[i] as int == inverse(p)[i],
                    forall|i: int| 0 <= i < n ==> 0 <= #[trigger] inverse(p)[i] < n,
                    j <= n,
                    r@ =~= inv_permuted(p, arr@).subrange(0, j as int),
                decreases n - j,
            {
                r.push(arr[inv[j]]);
                j = j + 1;
            }
        },
        None => {},
    }
    assert(inv_permuted(p, arr@).subrange(0, n as int) =~= inv_permuted(p, arr@));
    assert forall|k: int| 0 <= k < arr@.len() implies r@[perm@[k] as int] == #[trigger] arr@[k] by {
        assert(p[k] == perm@[k] as int);
        assert(inverse(p)[p[k]] == k);
    }
    r
}

} // verus!
