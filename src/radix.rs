//! Mixed-radix addressing of dense buffers.
//!
//! Extents and multi-indices are listed slowest axis first: the last axis is the
//! one whose neighbouring elements are adjacent in memory.
use vstd::prelude::*;
use vstd::arithmetic::div_mod::lemma_fundamental_div_mod_converse;

verus! {

/// Number of elements of a dense buffer with the given extents.
pub open spec fn prod(e: Seq<int>) -> int
    decreases e.len(),
{
    if e.len() == 0 {
        1
    } else {
        prod(e.drop_last()) * e.last()
    }
}

/// Every extent is at least one.
pub open spec fn positive(e: Seq<int>) -> bool {
    forall|k: int| 0 <= k < e.len() ==> e[k] >= 1
}

/// `i` is a multi-index inside the extents `e`.
pub open spec fn in_box(i: Seq<int>, e: Seq<int>) -> bool {
    &&& i.len() == e.len()
    &&& forall|k: int| 0 <= k < e.len() ==> 0 <= #[trigger] i[k] < e[k]
}

/// Linear position of multi-index `i` in a dense buffer with extents `e`.
pub open spec fn offset(i: Seq<int>, e: Seq<int>) -> int
    decreases i.len(),
{
    if i.len() == 0 || e.len() == 0 {
        0
    } else {
        offset(i.drop_last(), e.drop_last()) * e.last() + i.last()
    }
}

/// Multi-index of linear position `p` in a dense buffer with extents `e`.
pub open spec fn digits(p: int, e: Seq<int>) -> Seq<int>
    decreases e.len(),
{
    if e.len() == 0 {
        Seq::empty()
    } else {
        digits(p / e.last(), e.drop_last()).push(p % e.last())
    }
}

/// A sequence of machine integers read as mathematical integers.
pub open spec fn ints(v: Seq<usize>) -> Seq<int> {
    Seq::new(v.len(), |k: int| v[k] as int)
}

pub proof fn lemma_prod_positive(e: Seq<int>)
    requires
        positive(e),
    ensures
        prod(e) >= 1,
    decreases e.len(),
{
    if e.len() > 0 {
        lemma_prod_positive(e.drop_last());
        let q = prod(e.drop_last());
        let n = e.last();
        assert(q * n >= 1) by (nonlinear_arith)
            requires
                q >= 1,
                n >= 1,
        ;
    }
}

/// A prefix of the extents never spans more elements than the whole.
pub proof fn lemma_prod_prefix(e: Seq<int>, j: int)
    requires
        positive(e),
        0 <= j <= e.len(),
    ensures
        1 <= prod(e.subrange(0, j)) <= prod(e),
    decreases e.len() - j,
{
    if j == e.len() {
        assert(e.subrange(0, j) =~= e);
        lemma_prod_positive(e);
    } else {
        lemma_prod_prefix(e, j + 1);
        let s = e.subrange(0, j + 1);
        assert(s.drop_last() =~= e.subrange(0, j));
        assert(positive(e.subrange(0, j)));
        lemma_prod_positive(e.subrange(0, j));
        let q = prod(e.subrange(0, j));
        let n = e[j];
        assert(q <= q * n) by (nonlinear_arith)
            requires
                q >= 1,
                n >= 1,
        ;
    }
}

/// The offset of an index inside the box addresses an element of the buffer.
pub proof fn lemma_offset_bound(i: Seq<int>, e: Seq<int>)
    requires
        in_box(i, e),
    ensures
        0 <= offset(i, e) < prod(e),
    decreases i.len(),
{
    if i.len() > 0 {
        let i0 = i.drop_last();
        let e0 = e.drop_last();
        assert(in_box(i0, e0)) by {
            assert forall|k: int| 0 <= k < e0.len() implies 0 <= #[trigger] i0[k] < e0[k] by {
                assert(i0[k] == i[k]);
            }
        }
        lemma_offset_bound(i0, e0);
        let h = offset(i0, e0);
        let q = prod(e0);
        let n = e.last();
        let x = i.last();
        assert(0 <= h * n + x < q * n) by (nonlinear_arith)
            requires
                0 <= h < q,
                0 <= x < n,
        ;
    }
}

/// Offsets grow with the index, axis by axis.
pub proof fn lemma_offset_monotone(i: Seq<int>, m: Seq<int>, e: Seq<int>)
    requires
        in_box(i, e),
        in_box(m, e),
        forall|k: int| 0 <= k < e.len() ==> i[k] <= m[k],
    ensures
        offset(i, e) <= offset(m, e),
    decreases i.len(),
{
    if i.len() > 0 {
        let e0 = e.drop_last();
        let i0 = i.drop_last();
        let m0 = m.drop_last();
        assert(in_box(i0, e0)) by {
            assert forall|k: int| 0 <= k < e0.len() implies 0 <= #[trigger] i0[k] < e0[k] by {
                assert(i0[k] == i[k]);
            }
        }
        assert(in_box(m0, e0)) by {
            assert forall|k: int| 0 <= k < e0.len() implies 0 <= #[trigger] m0[k] < e0[k] by {
                assert(m0[k] == m[k]);
            }
        }
        assert forall|k: int| 0 <= k < e0.len() implies i0[k] <= m0[k] by {
            assert(i0[k] == i[k] && m0[k] == m[k]);
        }
        lemma_offset_monotone(i0, m0, e0);
        assert(0 <= i[i.len() - 1] < e[e.len() - 1]);
        let a = offset(i0, e0);
        let b = offset(m0, e0);
        let n = e.last();
        assert(a * n + i.last() <= b * n + m.last()) by (nonlinear_arith)
            requires
                a <= b,
                n >= 1,
                i.last() <= m.last(),
        ;
    }
}

/// Decoding a position of the buffer and encoding it again gives it back.
pub proof fn lemma_digits_offset(p: int, e: Seq<int>)
    requires
        positive(e),
        0 <= p < prod(e),
    ensures
        in_box(digits(p, e), e),
        offset(digits(p, e), e) == p,
    decreases e.len(),
{
    if e.len() > 0 {
        let e0 = e.drop_last();
        let n = e.last();
        let q = prod(e0);
        assert(positive(e0));
        assert(0 <= p / n < q) by (nonlinear_arith)
            requires
                0 <= p < q * n,
                n >= 1,
        ;
        lemma_digits_offset(p / n, e0);
        let d = digits(p, e);
        let d0 = digits(p / n, e0);
        assert(d.drop_last() =~= d0);
        assert(0 <= p % n < n) by (nonlinear_arith)
            requires
                n >= 1,
                p >= 0,
        ;
        assert(p == (p / n) * n + p % n) by (nonlinear_arith)
            requires
                n >= 1,
        ;
        assert forall|k: int| 0 <= k < e.len() implies 0 <= #[trigger] d[k] < e[k] by {
            if k < e.len() - 1 {
                assert(d[k] == d0[k]);
            }
        }
    }
}

/// Encoding an index inside the box and decoding it again gives it back.
pub proof fn lemma_offset_digits(i: Seq<int>, e: Seq<int>)
    requires
        in_box(i, e),
    ensures
        digits(offset(i, e), e) == i,
    decreases i.len(),
{
    if i.len() == 0 {
        assert(digits(offset(i, e), e) =~= i);
    } else {
        let e0 = e.drop_last();
        let i0 = i.drop_last();
        assert(in_box(i0, e0)) by {
            assert forall|k: int| 0 <= k < e0.len() implies 0 <= #[trigger] i0[k] < e0[k] by {
                assert(i0[k] == i[k]);
            }
        }
        lemma_offset_digits(i0, e0);
        let h = offset(i, e);
        let n = e.last();
        lemma_fundamental_div_mod_converse(h, n, offset(i0, e0), i.last());
        assert(digits(h, e) =~= i0.push(i.last()));
        assert(i0.push(i.last()) =~= i);
    }
}


/// The product over a concatenation is the product of the products.
pub proof fn lemma_prod_concat(x: Seq<int>, y: Seq<int>)
    ensures
        prod(x + y) == prod(x) * prod(y),
    decreases y.len(),
{
    if y.len() == 0 {
        assert(x + y =~= x);
    } else {
        lemma_prod_concat(x, y.drop_last());
        assert((x + y).drop_last() =~= x + y.drop_last());
        assert((x + y).last() == y.last());
        let a = prod(x);
        let b = prod(y.drop_last());
        let c = y.last();
        assert(a * b * c == a * (b * c)) by (nonlinear_arith);
    }
}

/// Listing the extents in reverse order keeps the number of elements.
pub proof fn lemma_prod_reverse(e: Seq<int>)
    ensures
        prod(Seq::new(e.len(), |k: int| e[e.len() - 1 - k])) == prod(e),
    decreases e.len(),
{
    let r = Seq::new(e.len(), |k: int| e[e.len() - 1 - k]);
    if e.len() > 0 {
        let e0 = e.drop_last();
        let r0 = Seq::new(e0.len(), |k: int| e0[e0.len() - 1 - k]);
        lemma_prod_reverse(e0);
        assert(r =~= seq![e.last()] + r0);
        lemma_prod_concat(seq![e.last()], r0);
        assert(seq![e.last()].drop_last() =~= Seq::<int>::empty());
        assert(prod(seq![e.last()]) == prod(Seq::<int>::empty()) * e.last());
        assert(prod(Seq::<int>::empty()) == 1);
        let a = prod(r0);
        let c = e.last();
        let one = prod(Seq::<int>::empty());
        assert(one * c == c) by (nonlinear_arith)
            requires
                one == 1,
        ;
        assert(prod(seq![e.last()]) == c);
        assert(prod(r) == c * a);
        assert(prod(e) == prod(e0) * c);
        assert(c * a == a * c) by (nonlinear_arith);
    }
}


/// A position has one digit per axis.
pub proof fn lemma_digits_len(p: int, e: Seq<int>)
    ensures
        digits(p, e).len() == e.len(),
    decreases e.len(),
{
    if e.len() > 0 {
        lemma_digits_len(p / e.last(), e.drop_last());
    }
}

/// Moving `t` positions forward inside one run of the fastest axis only
/// advances the last digit.
pub proof fn lemma_digits_step(p: int, t: int, e: Seq<int>)
    requires
        positive(e),
        e.len() > 0,
        p >= 0,
        t >= 0,
        digits(p, e).last() + t < e.last(),
    ensures
        digits(p, e).len() == e.len(),
        digits(p + t, e) == digits(p, e).update(e.len() - 1, digits(p, e).last() + t),
{
    let n = e.last();
    let e0 = e.drop_last();
    assert(e[e.len() - 1] >= 1);
    assert(0 <= p % n < n && p == (p / n) * n + p % n) by (nonlinear_arith)
        requires
            n >= 1,
            p >= 0,
    ;
    assert(p + t == (p / n) * n + (p % n + t)) by (nonlinear_arith)
        requires
            p == (p / n) * n + p % n,
    ;
    lemma_fundamental_div_mod_converse(p + t, n, p / n, p % n + t);
    lemma_digits_len(p / n, e0);
    let d0 = digits(p / n, e0);
    assert(digits(p + t, e) == d0.push(p % n + t));
    assert(digits(p, e) == d0.push(p % n));
    assert(d0.push(p % n + t) =~= d0.push(p % n).update(e.len() - 1, p % n + t));
}

/// Raising coordinate `j` by `t` moves the offset by `t` times the number of
/// elements spanned by the faster axes.
pub proof fn lemma_offset_step(i: Seq<int>, e: Seq<int>, j: int, t: int)
    requires
        i.len() == e.len(),
        0 <= j < e.len(),
    ensures
        offset(i.update(j, i[j] + t), e) == offset(i, e) + t * prod(e.subrange(j + 1, e.len() as int)),
    decreases e.len(),
{
    let n = e.len() as int;
    let i1 = i.update(j, i[j] + t);
    let e0 = e.drop_last();
    let i0 = i.drop_last();
    if j == n - 1 {
        assert(i1.drop_last() =~= i0);
        assert(e.subrange(j + 1, n) =~= Seq::<int>::empty());
        assert(t * prod(Seq::<int>::empty()) == t) by (nonlinear_arith)
            requires
                prod(Seq::<int>::empty()) == 1,
        ;
    } else {
        lemma_offset_step(i0, e0, j, t);
        assert(i1.drop_last() =~= i0.update(j, i0[j] + t));
        assert(e.subrange(j + 1, n).drop_last() =~= e0.subrange(j + 1, n - 1));
        let a = offset(i0, e0);
        let q = prod(e0.subrange(j + 1, n - 1));
        let l = e.last();
        assert((a + t * q) * l + i.last() == a * l + i.last() + t * (q * l)) by (nonlinear_arith);
    }
}

/// A contiguous stretch of the extents never spans more elements than the whole.
pub proof fn lemma_prod_subrange(e: Seq<int>, lo: int, hi: int)
    requires
        positive(e),
        0 <= lo <= hi <= e.len(),
    ensures
        1 <= prod(e.subrange(lo, hi)) <= prod(e),
{
    let a = e.subrange(0, lo);
    let b = e.subrange(lo, hi);
    let c = e.subrange(hi, e.len() as int);
    assert(e =~= a + b + c);
    lemma_prod_concat(a + b, c);
    lemma_prod_concat(a, b);
    lemma_prod_positive(a);
    lemma_prod_positive(b);
    lemma_prod_positive(c);
    let x = prod(a);
    let y = prod(b);
    let z = prod(c);
    assert(y <= x * y * z) by (nonlinear_arith)
        requires
            x >= 1,
            y >= 1,
            z >= 1,
    ;
}

} // verus!
