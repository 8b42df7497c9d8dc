//! Laws that relate transposes to each other.
use vstd::prelude::*;
use vstd::std_specs::cmp::PartialEqSpec;
use vstd::std_specs::ops::MulSpec;
use crate::geometry::{axes, axes_perm, gather, geometry, lemma_axes_perm, lemma_axes_view, lemma_dense_output,
    lemma_inverse_unique, validate, Geometry, TransposeError};
use crate::perm::{inverse, is_permutation, lemma_inverse, permuted};
use crate::radix::{digits, in_box, lemma_digits_offset, lemma_offset_bound, lemma_offset_digits, lemma_prod_reverse,
    positive, prod};
use crate::transpose::{exact_arithmetic, permuted_tensor, scaled, transposed, Transposable};

verus! {

/// The identity permutation of `n` axes.
pub open spec fn identity(n: nat) -> Seq<int> {
    Seq::new(n, |k: int| k)
}

/// `perm` repeats an entry or holds one outside `0..perm.len()`.
pub open spec fn malformed(perm: Seq<int>) -> bool {
    ||| exists|j: int, k: int| 0 <= j < k < perm.len() && perm[j] == perm[k]
    ||| exists|k: int| 0 <= k < perm.len() && !(0 <= #[trigger] perm[k] < perm.len())
}

/// Listing axes slowest first keeps every extent at least one, and keeps the
/// number of elements.
proof fn lemma_axes_positive(s: Seq<int>, row_major: bool)
    requires
        positive(s),
    ensures
        positive(axes(s, row_major)),
        prod(axes(s, row_major)) == prod(s),
{
    if !row_major {
        lemma_prod_reverse(s);
        assert forall|k: int| 0 <= k < s.len() implies #[trigger] axes(s, row_major)[k] >= 1 by {
            assert(s[s.len() - 1 - k] >= 1);
        }
    }
}

/// Transposing by the identity permutation gives the input back, in either
/// memory order.
pub proof fn lemma_identity_transpose<T>(shape: Seq<int>, a: Seq<T>, row_major: bool)
    requires
        positive(shape),
        a.len() == prod(shape),
    ensures
        permuted_tensor(geometry(identity(shape.len()), shape, None, None, row_major), a) == a,
{
    let n = shape.len();
    let id = identity(n);
    let g = geometry(id, shape, None, None, row_major);
    assert(g.perm =~= id);
    lemma_inverse_unique(id, id);
    assert(permuted(id, shape) =~= shape);
    let e = axes(shape, row_major);
    lemma_axes_positive(shape, row_major);
    assert(g.outer_a == e && g.outer_b == e);
    assert forall|p: int| 0 <= p < a.len() implies #[trigger] permuted_tensor(g, a)[p] == a[p] by {
        lemma_digits_offset(p, e);
        let d = digits(p, e);
        assert(gather(d, id) =~= d);
    }
    assert(permuted_tensor(g, a) =~= a);
}

/// Transposing by a permutation and then, with the permuted shape, by its
/// inverse gives the input back, in either memory order.
pub proof fn lemma_inverse_round_trip<T>(perm: Seq<int>, shape: Seq<int>, a: Seq<T>, row_major: bool)
    requires
        is_permutation(perm),
        perm.len() == shape.len(),
        positive(shape),
        a.len() == prod(shape),
    ensures
        permuted_tensor(
            geometry(inverse(perm), permuted(perm, shape), None, None, row_major),
            permuted_tensor(geometry(perm, shape, None, None, row_major), a),
        ) == a,
{
    let n = perm.len();
    let g1 = geometry(perm, shape, None, None, row_major);
    let g2 = geometry(inverse(perm), permuted(perm, shape), None, None, row_major);
    let pp = axes_perm(perm, row_major);
    let s = axes(shape, row_major);
    lemma_inverse(perm);
    lemma_axes_perm(perm, row_major);
    lemma_axes_perm(inverse(perm), row_major);
    lemma_axes_view(perm, shape, row_major);
    lemma_axes_positive(shape, row_major);
    lemma_inverse(pp);
    let v1 = Seq::new(n, |k: int| s[pp[k]]);
    // the first transpose reads `shape` and writes its permutation
    assert(g1.outer_a == s);
    assert(g1.outer_b == v1);
    // the second reads the permuted shape and writes `shape`
    assert(g2.perm == inverse(pp));
    assert(g2.size == v1);
    assert(g2.outer_a == v1);
    assert(permuted(perm, shape).len() == n);
    lemma_axes_view(inverse(perm), permuted(perm, shape), row_major);
    assert(g2.outer_b =~= s) by {
        assert forall|k: int| 0 <= k < n implies #[trigger] g2.outer_b[k] == s[k] by {
            assert(g2.outer_b[k] == v1[inverse(pp)[k]]);
            assert(pp[inverse(pp)[k]] == k);
        }
    }
    lemma_inverse_unique(inverse(pp), pp);
    assert(inverse(g2.perm) == pp);
    assert(positive(v1)) by {
        assert forall|k: int| 0 <= k < n implies #[trigger] v1[k] >= 1 by {
            assert(0 <= pp[k] < n);
        }
    }
    let b = permuted_tensor(g1, a);
    let c = permuted_tensor(g2, b);
    assert forall|r: int| 0 <= r < a.len() implies #[trigger] c[r] == a[r] by {
        lemma_digits_offset(r, s);
        let d = digits(r, s);
        let j = gather(d, pp);
        assert(in_box(j, v1)) by {
            assert forall|k: int| 0 <= k < n implies 0 <= #[trigger] j[k] < v1[k] by {
                assert(0 <= pp[k] < n);
            }
        }
        lemma_offset_bound(j, v1);
        lemma_offset_digits(j, v1);
        let x = g2.source_index(r);
        assert(x == crate::radix::offset(j, v1));
        assert(gather(digits(x, v1), inverse(pp)) =~= d) by {
            assert forall|m: int| 0 <= m < n implies #[trigger] gather(j, inverse(pp))[m] == d[m] by {
                assert(pp[inverse(pp)[m]] == m);
            }
            assert(gather(j, inverse(pp)) =~= d);
        }
        assert(g1.source_index(x) == r);
    }
    assert(c =~= a);
}

/// A transpose into a dense output with a unit `alpha` and a zero `beta` is
/// the plain reordering of the input, when the element's arithmetic is exact.
pub proof fn lemma_unit_scaling<T: Transposable>(
    perm: Seq<int>,
    size: Seq<int>,
    outer_a: Option<Seq<int>>,
    row_major: bool,
    alpha: T,
    a: Seq<T>,
    beta: T,
    init: Seq<T>,
    zero: T,
    out: Seq<T>,
)
    requires
        is_permutation(perm),
        size.len() == perm.len(),
        geometry(perm, size, outer_a, None, row_major).well_formed(),
        exact_arithmetic::<T>(),
        forall|x: T| #[trigger] alpha.mul_spec(x) == x,
        beta.eq_spec(&zero),
        transposed(geometry(perm, size, outer_a, None, row_major), alpha, a, beta, init, zero, out),
    ensures
        out == permuted_tensor(geometry(perm, size, outer_a, None, row_major), a),
{
    let g = geometry(perm, size, outer_a, None, row_major);
    lemma_dense_output(perm, size, outer_a, row_major);
    assert forall|p: int| 0 <= p < out.len() implies #[trigger] out[p] == permuted_tensor(g, a)[p] by {
        assert(g.source(p) == Some(g.source_index(p)));
        assert(alpha.mul_spec(a[g.source_index(p)]) == a[g.source_index(p)]);
    }
    assert(out =~= permuted_tensor(g, a));
}

/// A transpose's result is fixed by its inputs when the element's arithmetic is
/// exact: nothing else, such as the number of threads, can change it.
pub proof fn lemma_transposed_unique<T: Transposable>(
    g: Geometry,
    alpha: T,
    a: Seq<T>,
    beta: T,
    init: Seq<T>,
    zero: T,
    out1: Seq<T>,
    out2: Seq<T>,
)
    requires
        exact_arithmetic::<T>(),
        transposed(g, alpha, a, beta, init, zero, out1),
        transposed(g, alpha, a, beta, init, zero, out2),
    ensures
        out1 == out2,
{
    assert forall|p: int| 0 <= p < out1.len() implies #[trigger] out1[p] == out2[p] by {
        match g.source(p) {
            Some(s) => {
                assert(out1[p] == scaled(alpha, a[s], beta, init[p], zero));
                assert(out2[p] == scaled(alpha, a[s], beta, init[p], zero));
            },
            None => {},
        }
    }
    assert(out1 =~= out2);
}

/// A permutation that repeats an entry or holds one outside `0..rank` is
/// refused as invalid, whatever the rest of the request holds.
pub proof fn lemma_malformed_refused(
    perm: Seq<int>,
    size: Seq<int>,
    outer_a: Option<Seq<int>>,
    outer_b: Option<Seq<int>>,
    row_major: bool,
    a_len: int,
    b_len: int,
)
    requires
        malformed(perm),
    ensures
        validate(perm, size, outer_a, outer_b, row_major, a_len, b_len) == Err::<(), TransposeError>(
            TransposeError::InvalidPermutation,
        ),
{
    if exists|j: int, k: int| 0 <= j < k < perm.len() && perm[j] == perm[k] {
        let (j, k) = choose|j: int, k: int| 0 <= j < k < perm.len() && perm[j] == perm[k];
        assert(j != k && perm[j] == perm[k]);
    }
}

} // verus!
