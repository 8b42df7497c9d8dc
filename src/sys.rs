//! The plain interface: dense input and output, with the thread count and
//! memory order held in an explicit [`Settings`] value.
use vstd::prelude::*;
use vstd::std_specs::ops::{AddSpec, MulSpec};
use crate::geometry::{geometry, validate, TransposeError};
use crate::perm::int_seq;
use crate::transpose::{copy_dense, initial, opt_len, opt_view, permuted_tensor, transposed, Transposable};

verus! {

/// Thread count and memory order used by [`transpose_configured`].
#[derive(Debug, Clone, Copy, PartialEq, Eq, Structural)]
pub struct Settings {
    pub num_threads: u32,
    pub use_row_major: bool,
}

impl Default for Settings {
    /// One thread, column-major order.
    fn default() -> (r: Settings)
        ensures
            r == (Settings { num_threads: 1, use_row_major: false }),
    {
        Settings { num_threads: 1, use_row_major: false }
    }
}

/// Computes `b[perm(i)] = alpha * a[i] + beta * b[perm(i)]` on dense input and
/// output; see [`crate::transpose::transpose`].
pub fn transpose<T: Transposable>(
    perm: &[i32],
    alpha: T,
    a: &[T],
    size_a: &[i32],
    beta: T,
    b: Option<Vec<T>>,
    num_threads: u32,
    use_row_major: bool,
) -> (r: Result<Vec<T>, TransposeError>)
    requires
        forall|x: T, y: T| #[trigger] x.mul_req(y),
        forall|x: T, y: T| #[trigger] x.add_req(y),
    ensures
        ({
            let v = validate(
                int_seq(perm@),
                int_seq(size_a@),
                None,
                None,
                use_row_major,
                a@.len() as int,
                opt_len(b),
            );
            let g = geometry(int_seq(perm@), int_seq(size_a@), None, None, use_row_major);
            match r {
                Ok(out) => v is Ok && exists|zero: T|
                    call_ensures(T::default, (), zero) && transposed(
                        g,
                        alpha,
                        a@,
                        beta,
                        initial(opt_view(b), g.out_len(), zero),
                        zero,
                        out@,
                    ),
                Err(e) => v == Err::<(), TransposeError>(e),
            }
        }),
{
    crate::transpose::transpose(perm, alpha, a, size_a, None, beta, b, None, num_threads, use_row_major)
}

/// Transposes `a` without scaling into a fresh dense output, with the thread
/// count and memory order of `settings`.
pub fn transpose_configured<T: Copy + Default>(settings: &Settings, perm: &[i32], a: &[T], size_a: &[i32]) -> (r:
    Result<Vec<T>, TransposeError>)
    ensures
        ({
            let rm = settings.use_row_major;
            let v = validate(int_seq(perm@), int_seq(size_a@), None, None, rm, a@.len() as int, 0);
            let g = geometry(int_seq(perm@), int_seq(size_a@), None, None, rm);
            match r {
                Ok(out) => v is Ok && out@ == permuted_tensor(g, a@),
                Err(e) => v == Err::<(), TransposeError>(e),
            }
        }),
{
    copy_dense(perm, a, size_a, settings.num_threads, settings.use_row_major)
}

/// Transposes `a` without scaling into a fresh dense output with the default
/// settings: one thread, column-major order.
pub fn transpose_simple<T: Copy + Default>(perm: &[i32], a: &[T], size_a: &[i32]) -> (r: Result<
    Vec<T>,
    TransposeError,
>)
    ensures
        ({
            let v = validate(int_seq(perm@), int_seq(size_a@), None, None, false, a@.len() as int, 0);
            let g = geometry(int_seq(perm@), int_seq(size_a@), None, None, false);
            match r {
                Ok(out) => v is Ok && out@ == permuted_tensor(g, a@),
                Err(e) => v == Err::<(), TransposeError>(e),
            }
        }),
{
    let settings = Settings::default();
    transpose_configured(&settings, perm, a, size_a)
}

} // verus!
