//! The public transpose operations.
use vstd::prelude::*;
use vstd::std_specs::cmp::PartialEqSpec;
use vstd::std_specs::ops::{AddSpec, MulSpec};
use crate::geometry::{geometry, lemma_dense_output, opt_ints, validate, Geometry, Plan, TransposeError};
use crate::kernel::{filled, run};
use crate::perm::int_seq;

verus! {

/// Element types that can be transposed: copied freely, with a zero
/// (`Default`), a test for zero, and the `*` and `+` that scaling needs.
pub trait Transposable: Copy + Default + PartialEq + core::ops::Add<Output = Self> + core::ops::Mul<
    Output = Self,
> {

}

impl<
    T: Copy + Default + PartialEq + core::ops::Add<Output = T> + core::ops::Mul<Output = T>,
> Transposable for T {

}

/// The element's `*`, `+` and `==` behave as their specifications say.
pub open spec fn exact_arithmetic<T: Transposable>() -> bool {
    T::obeys_mul_spec() && T::obeys_add_spec() && T::obeys_eq_spec()
}

/// The value written for input element `x` over old output value `y`:
/// `alpha * x` when `beta` is zero, else `alpha * x + beta * y`.
pub open spec fn scaled<T: Transposable>(alpha: T, x: T, beta: T, y: T, zero: T) -> T {
    if beta.eq_spec(&zero) {
        alpha.mul_spec(x)
    } else {
        alpha.mul_spec(x).add_spec(beta.mul_spec(y))
    }
}

/// The output buffer before the kernel runs: the supplied buffer cut to
/// `len`, or `len` zeros where none or an empty one was supplied.
pub open spec fn initial<T>(b: Option<Seq<T>>, len: int, zero: T) -> Seq<T> {
    match b {
        Some(v) if v.len() > 0 => v.subrange(0, len),
        _ => Seq::new(len as nat, |p: int| zero),
    }
}

/// `out` is the transpose of `a` by layout `g`, scaled into `init`: each
/// position of the output view holds `scaled(alpha, a[source], beta, old)`
/// and each padding position keeps its initial value.
pub open spec fn transposed<T: Transposable>(
    g: Geometry,
    alpha: T,
    a: Seq<T>,
    beta: T,
    init: Seq<T>,
    zero: T,
    out: Seq<T>,
) -> bool {
    &&& init.len() == g.out_len()
    &&& out.len() == g.out_len()
    &&& forall|p: int|
        0 <= p < g.out_len() ==> match g.source(p) {
            Some(s) => exact_arithmetic::<T>() ==> #[trigger] out[p] == scaled(alpha, a[s], beta, init[p], zero),
            None => out[p] == init[p],
        }
}

/// The transpose of `a` by a layout without padding: position `p` holds
/// `a[g.source_index(p)]`.
pub open spec fn permuted_tensor<T>(g: Geometry, a: Seq<T>) -> Seq<T> {
    Seq::new(g.out_len() as nat, |p: int| a[g.source_index(p)])
}

/// An optional buffer read as its contents.
pub open spec fn opt_view<T>(b: Option<Vec<T>>) -> Option<Seq<T>> {
    match b {
        Some(v) => Some(v@),
        None => None,
    }
}

/// Length of an optional buffer, zero for none.
pub open spec fn opt_len<T>(b: Option<Vec<T>>) -> int {
    match b {
        Some(v) => v@.len() as int,
        None => 0,
    }
}

/// The buffer the kernel writes into: the supplied one if it already holds
/// `len` elements (cut to `len`), else `len` copies of `zero`.
fn with_capacity<T: Copy>(b: Option<Vec<T>>, len: usize, zero: T) -> (r: Vec<T>)
    requires
        b matches Some(v) ==> v@.len() == 0 || v@.len() >= len,
    ensures
        r@ == initial(opt_view(b), len as int, zero),
{
    match b {
        Some(mut v) => {
            if v.len() > 0 {
                v.truncate(len);
                assert(v@ =~= initial(opt_view(b), len as int, zero));
                return v;
            }
        },
        None => {},
    }
    let mut r: Vec<T> = Vec::new();
    let mut p: usize = 0;
    while p < len
        invariant
            p <= len,
            r@ =~= Seq::new(p as nat, |i: int| zero),
        decreases len - p,
    {
        r.push(zero);
        p = p + 1;
    }
    r
}

/// Computes `b[perm(i)] = alpha * a[i] + beta * b[perm(i)]` for every index `i`
/// of the input view: the axes of `a` are permuted so that output axis `k`
/// runs along input axis `perm[k]`. Where `beta` is zero the old output is not
/// read. `size_a` gives the input's extents; `outer_size_a` and `outer_size_b`,
/// where given, the extents of larger buffers that hold the input and output
/// views. If `b` is `None` or empty a zero-filled output is created, else `b`
/// is updated in place; either way the output holds the product of its outer
/// extents. The output is cut into one disjoint block per thread, filled in
/// turn; the result does not depend on `num_threads`. All errors are found
/// before any element is read.
pub fn transpose<T: Transposable>(
    perm: &[i32],
    alpha: T,
    a: &[T],
    size_a: &[i32],
    outer_size_a: Option<&[i32]>,
    beta: T,
    b: Option<Vec<T>>,
    outer_size_b: Option<&[i32]>,
    num_threads: u32,
    use_row_major: bool,
) -> (r: Result<Vec<T>, TransposeError>)
    requires
        forall|x: T, y: T| #[trigger] x.mul_req(y),
        forall|x: T, y: T| #[trigger] x.add_req(y),
    ensures
        ({
            let v = validate(
                int_seq(perm@),
                int_seq(size_a@),
                opt_ints(outer_size_a),
                opt_ints(outer_size_b),
                use_row_major,
                a@.len() as int,
                opt_len(b),
            );
            let g = geometry(
                int_seq(perm@),
                int_seq(size_a@),
                opt_ints(outer_size_a),
                opt_ints(outer_size_b),
                use_row_major,
            );
            match r {
                Ok(out) => v is Ok && exists|zero: T|
                    call_ensures(T::default, (), zero) && transposed(
                        g,
                        alpha,
                        a@,
                        beta,
                        initial(opt_view(b), g.out_len(), zero),
                        zero,
                        out@,
                    ),
                Err(e) => v == Err::<(), TransposeError>(e),
            }
        }),
{
    let b_len = match &b {
        Some(v) => v.len(),
        None => 0,
    };
    let plan = match Plan::new(perm, size_a, outer_size_a, outer_size_b, use_row_major, a.len(), b_len) {
        Ok(plan) => plan,
        Err(e) => {
            return Err(e);
        },
    };
    let ghost g = plan.geom@;
    let zero = T::default();
    let overwrite = beta == zero;
    let mut out = with_capacity(b, plan.out_len, zero);
    let ghost init = out@;
    let f = move |x: T, y: T| -> (v: T)
        ensures
            exact_arithmetic::<T>() ==> v == scaled(alpha, x, beta, y, zero),
        {
            if overwrite {
                alpha * x
            } else {
                alpha * x + beta * y
            }
        };
    run(&plan, a, &mut out, &f, num_threads);
    assert forall|p: int| 0 <= p < g.out_len() implies match g.source(p) {
        Some(s) => exact_arithmetic::<T>() ==> #[trigger] out@[p] == scaled(alpha, a@[s], beta, init[p], zero),
        None => out@[p] == init[p],
    } by {
        assert(filled(g, a@, init, f, p, out@[p]));
    }
    Ok(out)
}


/// Transposes `a` without scaling into a fresh dense output.
pub(crate) fn copy_dense<T: Copy + Default>(
    perm: &[i32],
    a: &[T],
    size_a: &[i32],
    num_threads: u32,
    use_row_major: bool,
) -> (r: Result<Vec<T>, TransposeError>)
    ensures
        ({
            let v = validate(int_seq(perm@), int_seq(size_a@), None, None, use_row_major, a@.len() as int, 0);
            let g = geometry(int_seq(perm@), int_seq(size_a@), None, None, use_row_major);
            match r {
                Ok(out) => v is Ok && out@ == permuted_tensor(g, a@),
                Err(e) => v == Err::<(), TransposeError>(e),
            }
        }),
{
    let plan = match Plan::new(perm, size_a, None, None, use_row_major, a.len(), 0) {
        Ok(plan) => plan,
        Err(e) => {
            return Err(e);
        },
    };
    let ghost g = plan.geom@;
    proof {
        lemma_dense_output(int_seq(perm@), int_seq(size_a@), None, use_row_major);
    }
    let mut out = with_capacity(None, plan.out_len, T::default());
    let ghost init = out@;
    let f = |x: T, y: T| -> (v: T)
        ensures
            v == x,
        { x };
    run(&plan, a, &mut out, &f, num_threads);
    assert forall|p: int| 0 <= p < g.out_len() implies #[trigger] out@[p] == permuted_tensor(g, a@)[p] by {
        assert(filled(g, a@, init, f, p, out@[p]));
    }
    assert(out@ =~= permuted_tensor(g, a@));
    Ok(out)
}

/// Transposes `a`, whose extents are `size_a`, so that output axis `k` runs
/// along input axis `perm[k]`: row-major order, one thread, no scaling and a
/// fresh output.
pub fn transpose_simple<T: Copy + Default>(perm: &[i32], a: &[T], size_a: &[i32]) -> (r: Result<
    Vec<T>,
    TransposeError,
>)
    ensures
        ({
            let v = validate(int_seq(perm@), int_seq(size_a@), None, None, true, a@.len() as int, 0);
            let g = geometry(int_seq(perm@), int_seq(size_a@), None, None, true);
            match r {
                Ok(out) => v is Ok && out@ == permuted_tensor(g, a@),
                Err(e) => v == Err::<(), TransposeError>(e),
            }
        }),
{
    copy_dense(perm, a, size_a, 1, true)
}

} // verus!
