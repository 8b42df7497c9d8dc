//! The transpose kernel: splits the output into disjoint blocks and fills each
//! output position from the input element it receives.
use vstd::prelude::*;
use crate::geometry::{gather, lemma_input_index_in_view, lemma_source_bound, lemma_source_step, lemma_well_formed_positive,
    run_stride, Geometry, Plan};
use crate::perm::{inverse, lemma_inverse};
use crate::radix::{digits, in_box, ints, lemma_digits_offset, lemma_offset_bound, lemma_prod_prefix, offset};

verus! {

/// The output position `p` after one block: `f` applied to its source and its
/// old value, or the old value for padding.
pub open spec fn filled<T, F: Fn(T, T) -> T>(g: Geometry, a: Seq<T>, prev: Seq<T>, f: F, p: int, v: T) -> bool {
    match g.source(p) {
        Some(s) => call_ensures(f, (a[s], prev[p]), v),
        None => v == prev[p],
    }
}

/// `blocks` cuts `0..len` into non-empty consecutive ranges, in order.
pub open spec fn is_partition(blocks: Seq<(usize, usize)>, len: int) -> bool {
    &&& len == 0 ==> blocks.len() == 0
    &&& len > 0 ==> blocks.len() > 0 && blocks[0].0 == 0 && blocks.last().1 == len
    &&& forall|i: int| 0 <= i < blocks.len() ==> (#[trigger] blocks[i]).0 < blocks[i].1 <= len
    &&& forall|i: int| 0 < i < blocks.len() ==> (#[trigger] blocks[i]).0 == blocks[i - 1].1
}

/// Cuts `0..len` into at most `workers` consecutive blocks of nearly equal size,
/// one per worker; no two blocks share a position. No workers counts as one.
pub fn partition(len: usize, workers: usize) -> (r: Vec<(usize, usize)>)
    ensures
        is_partition(r@, len as int),
        r@.len() <= if workers == 0 { 1 } else { workers as int },
{
    let w: usize = if workers == 0 { 1 } else { workers };
    let mut blocks: Vec<(usize, usize)> = Vec::new();
    if len == 0 {
        return blocks;
    }
    let q: usize = (len - 1) / w;
    proof {
        vstd::arithmetic::div_mod::lemma_fundamental_div_mod((len - 1) as int, w as int);
        let r = (len - 1) as int % w as int;
        assert(0 <= r < w);
        assert(0 <= q <= len - 1) by (nonlinear_arith)
            requires
                len - 1 == w * q + r,
                0 <= r,
                w >= 1,
                q >= 0 || q < 0,
                (len - 1) >= 0,
                q == (len - 1) as int / w as int,
        ;
        assert((q + 1) * w >= len) by (nonlinear_arith)
            requires
                len - 1 == w * q + r,
                r < w,
        ;
    }
    let chunk: usize = q + 1;
    let mut start: usize = 0;
    assert(blocks@.len() * chunk == 0) by (nonlinear_arith)
        requires
            blocks@.len() == 0,
    ;
    while start < len
        invariant
            1 <= chunk,
            chunk * w >= len,
            start <= len,
            start < len ==> start == blocks@.len() * chunk,
            blocks@.len() == 0 ==> start == 0,
            blocks@.len() > 0 ==> blocks@[0].0 == 0 && blocks@.last().1 == start,
            forall|i: int| 0 <= i < blocks@.len() ==> (#[trigger] blocks@[i]).0 < blocks@[i].1 <= start,
            forall|i: int| 0 < i < blocks@.len() ==> (#[trigger] blocks@[i]).0 == blocks@[i - 1].1,
            start < len ==> blocks@.len() < w,
            blocks@.len() <= w,
        decreases len - start,
    {
        let end: usize = if len - start <= chunk { len } else { start + chunk };
        let ghost before = blocks@;
        blocks.push((start, end));
        assert(blocks@[blocks@.len() - 1] == (start, end));
        assert forall|i: int| 0 < i < blocks@.len() implies (#[trigger] blocks@[i]).0 == blocks@[i - 1].1 by {
            if i < before.len() {
                assert(blocks@[i] == before[i] && blocks@[i - 1] == before[i - 1]);
            }
        }
        proof {
            if end < len {
                assert(blocks@.len() * chunk == before.len() * chunk + chunk) by (nonlinear_arith)
                    requires
                        blocks@.len() == before.len() + 1,
                ;
                assert(blocks@.len() * chunk < len);
                assert(blocks@.len() < w) by (nonlinear_arith)
                    requires
                        blocks@.len() * chunk < len,
                        chunk * w >= len,
                        chunk >= 1,
                ;
            }
        }
        start = end;
    }
    blocks
}

/// The input position that output position `p` receives, or `None` for
/// padding. `d` is scratch space of one entry per axis.
fn source_of(plan: &Plan, p: usize, d: &mut Vec<usize>) -> (r: Option<usize>)
    requires
        plan.wf(),
        p < plan.out_len,
        old(d)@.len() == plan.outer_b@.len(),
    ensures
        final(d)@.len() == old(d)@.len(),
        ints(final(d)@) == digits(p as int, plan.geom@.outer_b),
        r matches Some(s) ==> plan.geom@.source(p as int) == Some(s as int),
        r is None ==> plan.geom@.source(p as int) is None,
{
    let ghost g = plan.geom@;
    let ghost ob = g.outer_b;
    proof {
        lemma_well_formed_positive(g);
        lemma_digits_offset(p as int, ob);
    }
    let n = plan.outer_b.len();
    assert(ob.subrange(0, n as int) =~= ob);
    let mut rem: usize = p;
    let mut k: usize = n;
    while k > 0
        invariant
            plan.wf(),
            g == plan.geom@,
            ob == g.outer_b,
            ob == ints(plan.outer_b@),
            n == plan.outer_b@.len(),
            crate::radix::positive(ob),
            d@.len() == n,
            k <= n,
            digits(p as int, ob) =~= digits(rem as int, ob.subrange(0, k as int)) + ints(d@).subrange(
                k as int,
                n as int,
            ),
        decreases k,
    {
        k = k - 1;
        let e = plan.outer_b[k];
        assert(ob[k as int] >= 1);
        let ghost before = d@;
        let ghost r0 = rem as int;
        d.set(k, rem % e);
        rem = rem / e;
        proof {
            let s1 = ob.subrange(0, k + 1);
            assert(s1.drop_last() =~= ob.subrange(0, k as int));
            assert(s1.last() == e as int);
            assert(digits(r0, s1) == digits(r0 / e as int, ob.subrange(0, k as int)).push(r0 % e as int));
            assert(ints(d@).subrange(k as int, n as int) =~= seq![r0 % e as int] + ints(before).subrange(
                k + 1,
                n as int,
            ));
        }
    }
    assert(ints(d@) =~= digits(p as int, ob));
    let ghost dd = ints(d@);
    let mut k: usize = 0;
    while k < n
        invariant
            plan.wf(),
            g == plan.geom@,
            n == plan.view@.len(),
            n == plan.outer_b@.len(),
            n == g.perm.len(),
            dd == ints(d@),
            dd == digits(p as int, g.outer_b),
            d@.len() == n,
            d@.len() == old(d)@.len(),
            k <= n,
            forall|i: int| 0 <= i < k ==> #[trigger] dd[i] < g.view()[i],
        decreases n - k,
    {
        if d[k] >= plan.view[k] {
            assert(ints(plan.view@)[k as int] == g.view()[k as int]);
            assert(dd[k as int] >= g.view()[k as int]);
            assert(!g.in_view(dd));
            return None;
        }
        k = k + 1;
    }
    assert(g.in_view(dd));
    let ghost idx = g.input_index(dd);
    let ghost oa = g.outer_a;
    proof {
        assert forall|i: int| 0 <= i < dd.len() implies 0 <= #[trigger] dd[i] by {}
        lemma_input_index_in_view(g, dd);
        lemma_inverse(g.perm);
    }
    let mut acc: usize = 0;
    let mut j: usize = 0;
    while j < n
        invariant
            plan.wf(),
            g == plan.geom@,
            n == plan.outer_a@.len(),
            n == plan.inv@.len(),
            n == d@.len(),
            dd == digits(p as int, g.outer_b),
            oa == g.outer_a,
            oa == ints(plan.outer_a@),
            dd == ints(d@),
            idx == g.input_index(dd),
            idx == gather(dd, inverse(g.perm)),
            in_box(idx, oa),
            crate::radix::positive(oa),
            forall|i: int| 0 <= i < n ==> 0 <= #[trigger] inverse(g.perm)[i] < n,
            j <= n,
            acc == offset(idx.subrange(0, j as int), oa.subrange(0, j as int)),
        decreases n - j,
    {
        proof {
            let i1 = idx.subrange(0, j + 1);
            let e1 = oa.subrange(0, j + 1);
            assert(i1.drop_last() =~= idx.subrange(0, j as int));
            assert(e1.drop_last() =~= oa.subrange(0, j as int));
            assert(in_box(i1, e1));
            lemma_offset_bound(i1, e1);
            lemma_prod_prefix(oa, j + 1);
            assert(ints(plan.inv@)[j as int] == inverse(g.perm)[j as int]);
            assert(idx[j as int] == dd[inverse(g.perm)[j as int]]);
        }
        acc = acc * plan.outer_a[j] + d[plan.inv[j]];
        j = j + 1;
    }
    assert(idx.subrange(0, n as int) =~= idx);
    assert(oa.subrange(0, n as int) =~= oa);
    Some(acc)
}

/// Fills the output positions `start..end`: each one that the input view
/// reaches becomes `f(input element, old value)`; padding keeps its value.
/// Positions are taken a run of the fastest output axis at a time, stepping
/// through the input by a fixed stride.
fn fill_block<T: Copy, F: Fn(T, T) -> T>(
    plan: &Plan,
    a: &[T],
    out: &mut Vec<T>,
    f: &F,
    start: usize,
    end: usize,
)
    requires
        plan.wf(),
        a@.len() >= plan.geom@.in_len(),
        old(out)@.len() == plan.out_len,
        start <= end <= plan.out_len,
        forall|x: T, y: T| #[trigger] f.requires((x, y)),
    ensures
        final(out)@.len() == old(out)@.len(),
        forall|p: int| 0 <= p < old(out)@.len() && !(start <= p < end) ==> final(out)@[p] == old(out)@[p],
        forall|p: int|
            start <= p < end ==> filled(plan.geom@, a@, old(out)@, *f, p, #[trigger] final(out)@[p]),
{
    let ghost g = plan.geom@;
    let ghost init = out@;
    let n = plan.outer_b.len();
    let mut d: Vec<usize> = Vec::new();
    let mut k: usize = 0;
    while k < n
        invariant
            n == plan.outer_b@.len(),
            k <= n,
            d@.len() == k,
        decreases n - k,
    {
        d.push(0);
        k = k + 1;
    }
    proof {
        lemma_well_formed_positive(g);
    }
    let mut p: usize = start;
    while p < end
        invariant
            plan.wf(),
            g == plan.geom@,
            n == plan.outer_b@.len(),
            n == plan.view@.len(),
            n == g.perm.len(),
            a@.len() >= g.in_len(),
            init.len() == plan.out_len,
            out@.len() == init.len(),
            d@.len() == n,
            start <= p <= end,
            end <= plan.out_len,
            forall|x: T, y: T| #[trigger] f.requires((x, y)),
            forall|q: int| 0 <= q < init.len() && !(start <= q < p) ==> out@[q] == init[q],
            forall|q: int| start <= q < p ==> filled(g, a@, init, *f, q, #[trigger] out@[q]),
        decreases end - p,
    {
        proof {
            lemma_source_bound(g, p as int);
        }
        let found = source_of(plan, p, &mut d);
        let ghost dp = digits(p as int, g.outer_b);
        proof {
            lemma_digits_offset(p as int, g.outer_b);
        }
        // positions left in this run of the fastest axis, within the block
        let room: usize = if n == 0 {
            1
        } else {
            match found {
                Some(_) => {
                    assert(dp[n - 1] < g.view()[n - 1]);
                    plan.view[n - 1] - d[n - 1]
                },
                None => {
                    assert(dp[n - 1] < g.outer_b[n - 1]);
                    plan.outer_b[n - 1] - d[n - 1]
                },
            }
        };
        let count: usize = if room < end - p { room } else { end - p };
        assert(n > 0 ==> dp[n - 1] + count <= g.outer_b[n - 1]) by {
            if n > 0 {
                assert(ints(plan.view@)[n - 1] == g.view()[n - 1]);
                assert(g.outer_b[n - 1] >= g.view()[n - 1]);
            }
        }
        match found {
            Some(s) => {
                let mut t: usize = 0;
                let mut src: usize = s;
                while t < count
                    invariant
                        plan.wf(),
                        g == plan.geom@,
                        n == g.perm.len(),
                        a@.len() >= g.in_len(),
                        init.len() == plan.out_len,
                        out@.len() == init.len(),
                        start <= p < end,
                        p + count <= end,
                        end <= plan.out_len,
                        count >= 1,
                        n == 0 ==> count == 1,
                        n > 0 ==> dp[n - 1] + count <= g.view()[n - 1],
                        dp == digits(p as int, g.outer_b),
                        dp.len() == n,
                        g.outer_b.len() == n,
                        g.source(p as int) == Some(s as int),
                        t <= count,
                        t < count ==> g.source(p + t) == Some(src as int),
                        forall|x: T, y: T| #[trigger] f.requires((x, y)),
                        forall|q: int| 0 <= q < init.len() && !(start <= q < p + t) ==> out@[q] == init[q],
                        forall|q: int| start <= q < p + t ==> filled(g, a@, init, *f, q, #[trigger] out@[q]),
                    decreases count - t,
                {
                    proof {
                        lemma_source_bound(g, p + t);
                    }
                    let v = f(a[src], out[p + t]);
                    out.set(p + t, v);
                    t = t + 1;
                    if t < count {
                        proof {
                            assert(ints(plan.view@)[n - 1] == g.view()[n - 1]);
                            assert(g.outer_b[n - 1] >= g.view()[n - 1]);
                            lemma_source_step(g, p as int, t - 1);
                            lemma_source_step(g, p as int, t as int);
                            lemma_source_bound(g, p + t);
                            assert(g.source_index(p as int) + t * run_stride(g) == g.source_index(p as int) + (t
                                - 1) * run_stride(g) + run_stride(g)) by (nonlinear_arith);
                        }
                        src = src + plan.step;
                    }
                }
            },
            None => {
                assert forall|t: int| 0 <= t < count implies (#[trigger] g.source(p + t)) is None by {
                    if n > 0 {
                        lemma_source_step(g, p as int, t);
                    }
                }
                assert forall|q: int| p <= q < p + count implies filled(g, a@, init, *f, q, #[trigger] out@[q]) by {
                    assert(g.source(p + (q - p)) is None);
                }
            },
        }
        p = p + count;
    }
}

/// Cuts the output into one block per worker (`num_threads` of them, zero
/// counting as one) and fills the blocks one after another. No two blocks
/// write the same position, and the result does not depend on the number of
/// workers.
pub fn run<T: Copy, F: Fn(T, T) -> T>(plan: &Plan, a: &[T], out: &mut Vec<T>, f: &F, num_threads: u32)
    requires
        plan.wf(),
        a@.len() >= plan.geom@.in_len(),
        old(out)@.len() == plan.out_len,
        forall|x: T, y: T| #[trigger] f.requires((x, y)),
    ensures
        final(out)@.len() == old(out)@.len(),
        forall|p: int|
            0 <= p < old(out)@.len() ==> filled(plan.geom@, a@, old(out)@, *f, p, #[trigger] final(out)@[p]),
{
    let ghost init = out@;
    let blocks = partition(plan.out_len, num_threads as usize);
    let mut b: usize = 0;
    while b < blocks.len()
        invariant
            plan.wf(),
            a@.len() >= plan.geom@.in_len(),
            init.len() == plan.out_len,
            out@.len() == init.len(),
            is_partition(blocks@, plan.out_len as int),
            b <= blocks@.len(),
            forall|x: T, y: T| #[trigger] f.requires((x, y)),
            forall|q: int|
                0 <= q < init.len() && (b == 0 || q >= blocks@[b - 1].1) ==> out@[q] == init[q],
            forall|q: int|
                0 <= q < init.len() && b > 0 && q < blocks@[b - 1].1 ==> filled(
                    plan.geom@,
                    a@,
                    init,
                    *f,
                    q,
                    #[trigger] out@[q],
                ),
        decreases blocks.len() - b,
    {
        let (start, end) = blocks[b];
        assert(b > 0 ==> start == blocks@[b - 1].1);
        assert(b == 0 ==> start == 0);
        assert(start < end <= plan.out_len);
        fill_block(plan, a, out, f, start, end);
        b = b + 1;
    }
}

} // verus!
